use srt_ingest::srt_parser::episode_info::{
    get_episode_name, get_episode_name_from_second_part, get_episode_number,
    get_episode_number_from_file_order, get_episode_number_from_filename,
    get_episode_number_from_last_numbers, get_show_name, EpisodeNameMethod, EpisodeNumberMethod,
};

#[test]
fn test_get_show_name() {
    let path = "/path/to/Show Name/episode.srt";
    assert_eq!(get_show_name(path), Some("Show Name".to_string()));
}

#[test]
fn show_name_absent_for_bare_file() {
    assert_eq!(get_show_name("episode.srt"), None);
}

#[test]
fn test_get_episode_number_from_filename() {
    let path = "ShowName.E05.Episode Title.srt";
    assert_eq!(get_episode_number_from_filename(path), Some(5));
}

#[test]
fn episode_number_from_filename_defaults_to_zero() {
    let files: Vec<String> = Vec::new();
    let n = get_episode_number(&EpisodeNumberMethod::FromFilename, "ShowName.srt", &files);
    assert_eq!(n, 0);
}

#[test]
fn test_get_episode_number_from_last_numbers() {
    let path = "ShowName.Episode Title.123.srt";
    assert_eq!(get_episode_number_from_last_numbers(path), Some(123));
}

#[test]
fn last_numbers_takes_the_trailing_run() {
    assert_eq!(
        get_episode_number_from_last_numbers("Show 12 part 34 end.srt"),
        Some(34)
    );
}

#[test]
fn test_get_episode_name_from_second_part() {
    let path = "ShowName.Episode Title.123.srt";
    assert_eq!(
        get_episode_name_from_second_part(path),
        Some("Episode Title".to_string())
    );
}

#[test]
fn second_part_needs_three_parts() {
    assert_eq!(get_episode_name_from_second_part("ShowName.srt"), None);
}

#[test]
fn file_order_numbers_follow_sorted_position() {
    let files = vec![
        String::from("root/Show/a.srt"),
        String::from("root/Show/b.srt"),
        String::from("root/Show/c.srt"),
    ];
    assert_eq!(
        get_episode_number_from_file_order("root/Show/a.srt", &files),
        1
    );
    assert_eq!(
        get_episode_number_from_file_order("root/Show/b.srt", &files),
        2
    );
    assert_eq!(
        get_episode_number_from_file_order("root/Show/c.srt", &files),
        3
    );
}

#[test]
fn file_order_sorts_an_unsorted_listing() {
    let files = vec![
        String::from("root/Show/c.srt"),
        String::from("root/Show/a.srt"),
        String::from("root/Show/b.srt"),
    ];
    assert_eq!(
        get_episode_number_from_file_order("root/Show/b.srt", &files),
        2
    );
}

#[test]
fn file_order_defaults_to_zero_when_absent() {
    let files = vec![String::from("root/Show/a.srt")];
    assert_eq!(
        get_episode_number_from_file_order("root/Show/zz.srt", &files),
        0
    );
}

#[test]
fn episode_number_titling_always_succeeds() {
    let name = get_episode_name(&EpisodeNameMethod::FromEpisodeNumber, "whatever.srt", 7);
    assert_eq!(name, Some("Episode 7".to_string()));
}

#[test]
fn episode_number_titling_handles_zero_and_negatives() {
    assert_eq!(
        get_episode_name(&EpisodeNameMethod::FromEpisodeNumber, "x.srt", 0),
        Some("Episode 0".to_string())
    );
    assert_eq!(
        get_episode_name(&EpisodeNameMethod::FromEpisodeNumber, "x.srt", -3),
        Some("Episode -3".to_string())
    );
}
