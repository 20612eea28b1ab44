use srt_ingest::db::{side_export_records, DbHandler};
use srt_ingest::ingest::{group_entries, prepare_batches};
use srt_ingest::srt_parser::episode_info::{EpisodeNameMethod, EpisodeNumberMethod};
use srt_ingest::srt_parser::parsing::process_srt_file;

fn count(conn: &rusqlite::Connection, table: &str) -> i64 {
    let sql = format!("SELECT COUNT(*) FROM {}", table);
    conn.query_row(&sql, [], |row| row.get(0)).unwrap()
}

#[test]
fn side_export_splits_text_into_lines() {
    let accepted = vec![(5i64, "a\nb".to_string()), (6i64, "c".to_string())];
    let recs = side_export_records(&accepted);
    assert_eq!(recs.len(), 3);
    assert_eq!(recs[0].row_id, 5);
    assert_eq!(recs[0].text_line, "a");
    assert_eq!(recs[1].row_id, 5);
    assert_eq!(recs[1].text_line, "b");
    assert_eq!(recs[2].row_id, 6);
    assert_eq!(recs[2].text_line, "c");
}

#[test]
fn single_row_inserts_skip_duplicates() {
    let uri = "file:srt_ingest_single?mode=memory&cache=shared";
    let probe = rusqlite::Connection::open(uri).unwrap();
    let db = DbHandler::new(uri).unwrap();
    db.create_tables().unwrap();
    let id = db.insert_show("ShowA", "Anime").unwrap();
    assert_eq!(id, 1);
    db.insert_show("ShowA", "Anime").unwrap();
    assert_eq!(count(&probe, "shows"), 1);
    let ep = db.insert_episode(id, "Episode 1", 1, 1).unwrap();
    db.insert_episode(id, "Episode 1 again", 1, 1).unwrap();
    assert_eq!(count(&probe, "episodes"), 1);
    db.insert_transcript(ep, 1, "00:00:01,000", "00:00:02,000", "hi")
        .unwrap();
    db.insert_transcript(ep, 2, "00:00:01,000", "00:00:02,000", "dup key")
        .unwrap();
    assert_eq!(count(&probe, "transcripts"), 1);
}

#[test]
fn batch_insertion_is_idempotent() {
    let uri = "file:srt_ingest_idem?mode=memory&cache=shared";
    let probe = rusqlite::Connection::open(uri).unwrap();
    let mut db = DbHandler::new(uri).unwrap();
    db.create_tables().unwrap();

    let shows = vec![("ShowA".to_string(), "Anime".to_string())];
    let episodes = vec![(1i64, "Episode 1".to_string(), 1i32, 1i32)];
    let transcripts = vec![
        (
            1i64,
            1i32,
            "00:00:01,000".to_string(),
            "00:00:04,000".to_string(),
            "Hello, world!".to_string(),
        ),
        (
            1i64,
            2i32,
            "00:00:05,000".to_string(),
            "00:00:07,000".to_string(),
            "This is a test.".to_string(),
        ),
    ];

    db.batch_insert_shows(&shows).unwrap();
    db.batch_insert_episodes(&episodes).unwrap();
    let first = db.batch_insert_transcripts(&transcripts).unwrap();
    assert_eq!(first.len(), 2);
    assert_eq!(count(&probe, "shows"), 1);
    assert_eq!(count(&probe, "episodes"), 1);
    assert_eq!(count(&probe, "transcripts"), 2);

    db.batch_insert_shows(&shows).unwrap();
    db.batch_insert_episodes(&episodes).unwrap();
    let second = db.batch_insert_transcripts(&transcripts).unwrap();
    assert_eq!(count(&probe, "shows"), 1);
    assert_eq!(count(&probe, "episodes"), 1);
    assert_eq!(count(&probe, "transcripts"), 2);
    assert_eq!(second.len(), 0);
}

#[test]
fn batch_is_all_or_nothing_on_constraint_failure() {
    let uri = "file:srt_ingest_atomic?mode=memory&cache=shared";
    let probe = rusqlite::Connection::open(uri).unwrap();
    // Add an integrity rule the batch's third row will trip on.  A RAISE in
    // a trigger aborts the statement regardless of its conflict policy, so
    // this failure is not a duplicate-skip.
    let mut db = DbHandler::new(uri).unwrap();
    db.create_tables().unwrap();
    probe
        .execute_batch(
            "CREATE TRIGGER reject_high_lines BEFORE INSERT ON transcripts
             WHEN NEW.line_id >= 3
             BEGIN SELECT RAISE(ABORT, 'line rejected'); END;",
        )
        .unwrap();
    let transcripts = vec![
        (
            1i64,
            1i32,
            "00:00:01,000".to_string(),
            "00:00:02,000".to_string(),
            "one".to_string(),
        ),
        (
            1i64,
            2i32,
            "00:00:03,000".to_string(),
            "00:00:04,000".to_string(),
            "two".to_string(),
        ),
        (
            1i64,
            3i32,
            "00:00:05,000".to_string(),
            "00:00:06,000".to_string(),
            "three".to_string(),
        ),
    ];
    let r = db.batch_insert_transcripts(&transcripts);
    assert!(r.is_err());
    assert_eq!(count(&probe, "transcripts"), 0);
}

#[test]
fn end_to_end_single_file_ingestion() {
    let uri = "file:srt_ingest_e2e?mode=memory&cache=shared";
    let probe = rusqlite::Connection::open(uri).unwrap();
    let content = "1\n00:00:01,000 --> 00:00:04,000\nHello, world!\n\n2\n00:00:05,000 --> 00:00:07,000\nThis is a test.";
    let files = vec![String::from("root/ShowA/ep.srt")];
    let entry = process_srt_file(
        "root/ShowA/ep.srt",
        content,
        &EpisodeNumberMethod::FromFileOrder,
        &EpisodeNameMethod::FromEpisodeNumber,
        &files,
    )
    .unwrap();
    let groups = group_entries(vec![entry]);
    let batches = prepare_batches(&groups, "Anime");

    let mut db = DbHandler::new(uri).unwrap();
    db.create_tables().unwrap();
    db.batch_insert_shows(&batches.shows).unwrap();
    db.batch_insert_episodes(&batches.episodes).unwrap();
    let recs = db.batch_insert_transcripts(&batches.transcripts).unwrap();

    assert_eq!(count(&probe, "shows"), 1);
    assert_eq!(count(&probe, "episodes"), 1);
    assert_eq!(count(&probe, "transcripts"), 2);

    let show_name: String = probe
        .query_row("SELECT name FROM shows WHERE id = 1", [], |r| r.get(0))
        .unwrap();
    assert_eq!(show_name, "ShowA");
    let (ep_name, ep_num): (String, i32) = probe
        .query_row(
            "SELECT name, episode_number FROM episodes WHERE id = 1",
            [],
            |r| Ok((r.get(0)?, r.get(1)?)),
        )
        .unwrap();
    assert_eq!(ep_name, "Episode 1");
    assert_eq!(ep_num, 1);
    let (l1, s1, e1, t1): (i32, String, String, String) = probe
        .query_row(
            "SELECT line_id, time_start, time_end, text FROM transcripts WHERE line_id = 1",
            [],
            |r| Ok((r.get(0)?, r.get(1)?, r.get(2)?, r.get(3)?)),
        )
        .unwrap();
    assert_eq!(l1, 1);
    assert_eq!(s1, "00:00:01,000");
    assert_eq!(e1, "00:00:04,000");
    assert_eq!(t1, "Hello, world!");
    let t2: String = probe
        .query_row(
            "SELECT text FROM transcripts WHERE line_id = 2",
            [],
            |r| r.get(0),
        )
        .unwrap();
    assert_eq!(t2, "This is a test.");

    assert_eq!(recs.len(), 2);
    assert_eq!(recs[0].text_line, "Hello, world!");
    assert_eq!(recs[1].text_line, "This is a test.");
}
