use srt_ingest::ingest::{group_entries, prepare_batches};
use srt_ingest::srt_parser::episode_info::{EpisodeNameMethod, EpisodeNumberMethod};
use srt_ingest::srt_parser::parsing::process_srt_file;

const TWO_BLOCKS: &str = "1\n00:00:01,000 --> 00:00:04,000\nHello, world!\n\n2\n00:00:05,000 --> 00:00:07,000\nThis is a test.";

#[test]
fn test_process_srt_file() {
    let files = vec![String::from("root/ShowA/ep.srt")];
    let entry = process_srt_file(
        "root/ShowA/ep.srt",
        TWO_BLOCKS,
        &EpisodeNumberMethod::FromFileOrder,
        &EpisodeNameMethod::FromEpisodeNumber,
        &files,
    )
    .unwrap();
    assert_eq!(entry.show_name, "ShowA");
    assert_eq!(entry.episode_number, 1);
    assert_eq!(entry.episode_name, "Episode 1");
    assert_eq!(entry.content.len(), 2);
}

#[test]
fn process_srt_file_falls_back_on_degenerate_path() {
    let files = vec![String::from("ep.srt")];
    let entry = process_srt_file(
        "ep.srt",
        TWO_BLOCKS,
        &EpisodeNumberMethod::FromFileOrder,
        &EpisodeNameMethod::FromEpisodeNumber,
        &files,
    )
    .unwrap();
    assert_eq!(entry.show_name, "Unknown Show");
    assert_eq!(entry.episode_number, 1);
}

#[test]
fn process_srt_file_propagates_parse_failure() {
    let files: Vec<String> = Vec::new();
    let r = process_srt_file(
        "root/ShowA/ep.srt",
        "not a subtitle file",
        &EpisodeNumberMethod::FromLastNumbers,
        &EpisodeNameMethod::FromEpisodeNumber,
        &files,
    );
    assert!(r.is_err());
}

#[test]
fn test_process_srt_directory() {
    // The directory walk happens outside the library; its aggregation logic
    // is grouping by show in encounter order and ordering each show's
    // episodes by number.
    let files = vec![
        String::from("root/ShowA/e1.srt"),
        String::from("root/ShowA/e2.srt"),
    ];
    let mut entries = Vec::new();
    for path in ["root/ShowA/e2.srt", "root/ShowA/e1.srt"] {
        entries.push(
            process_srt_file(
                path,
                TWO_BLOCKS,
                &EpisodeNumberMethod::FromFileOrder,
                &EpisodeNameMethod::FromEpisodeNumber,
                &files,
            )
            .unwrap(),
        );
    }
    entries.push(
        process_srt_file(
            "root/ShowB/only.srt",
            TWO_BLOCKS,
            &EpisodeNumberMethod::FromLastNumbers,
            &EpisodeNameMethod::FromEpisodeNumber,
            &files,
        )
        .unwrap(),
    );
    let groups = group_entries(entries);
    assert_eq!(groups.len(), 2);
    assert_eq!(groups[0].show_name, "ShowA");
    assert_eq!(groups[0].entries.len(), 2);
    // Episodes are ordered by number even though they arrived reversed.
    assert_eq!(groups[0].entries[0].episode_number, 1);
    assert_eq!(groups[0].entries[1].episode_number, 2);
    assert_eq!(groups[1].show_name, "ShowB");
    assert_eq!(groups[1].entries.len(), 1);
}

#[test]
fn prepare_batches_assigns_positional_identifiers() {
    let files = vec![
        String::from("root/ShowA/e1.srt"),
        String::from("root/ShowA/e2.srt"),
    ];
    let mut entries = Vec::new();
    for path in ["root/ShowA/e1.srt", "root/ShowA/e2.srt"] {
        entries.push(
            process_srt_file(
                path,
                TWO_BLOCKS,
                &EpisodeNumberMethod::FromFileOrder,
                &EpisodeNameMethod::FromEpisodeNumber,
                &files,
            )
            .unwrap(),
        );
    }
    let groups = group_entries(entries);
    let batches = prepare_batches(&groups, "Anime");
    assert_eq!(batches.shows.len(), 1);
    assert_eq!(batches.shows[0], ("ShowA".to_string(), "Anime".to_string()));
    assert_eq!(batches.episodes.len(), 2);
    assert_eq!(batches.episodes[0], (1, "Episode 1".to_string(), 1, 1));
    assert_eq!(batches.episodes[1], (1, "Episode 2".to_string(), 1, 2));
    assert_eq!(batches.transcripts.len(), 4);
    assert_eq!(
        batches.transcripts[0],
        (
            1,
            1,
            "00:00:01,000".to_string(),
            "00:00:04,000".to_string(),
            "Hello, world!".to_string()
        )
    );
    assert_eq!(
        batches.transcripts[3],
        (
            2,
            2,
            "00:00:05,000".to_string(),
            "00:00:07,000".to_string(),
            "This is a test.".to_string()
        )
    );
}
