use founder::history::{
    compact_history, file_history_path, history_dir, history_lines_from_most_recent,
    make_history_record, query_history_path, record_for_path,
};

fn v(b: &[u8]) -> Vec<u8> {
    b.to_vec()
}

#[test]
fn history_lines_are_read_newest_first() {
    let bytes = v(b"/a\n/b\n/c\n");
    let lines = history_lines_from_most_recent(&bytes);
    assert_eq!(lines, vec![v(b"/c"), v(b"/b"), v(b"/a")]);
}

#[test]
fn history_lines_skip_empty_records() {
    let bytes = v(b"\n/a\n\n/b\n");
    let lines = history_lines_from_most_recent(&bytes);
    assert_eq!(lines, vec![v(b"/b"), v(b"/a")]);
}

#[test]
fn history_lines_of_empty_log() {
    let lines = history_lines_from_most_recent(&Vec::new());
    assert!(lines.is_empty());
}

#[test]
fn history_lines_tolerate_missing_final_newline() {
    let bytes = v(b"/a\n/b");
    let lines = history_lines_from_most_recent(&bytes);
    assert_eq!(lines, vec![v(b"/b"), v(b"/a")]);
}

#[test]
fn make_history_record_appends_one_newline() {
    assert_eq!(make_history_record(&v(b"/home/u/x")), v(b"/home/u/x\n"));
}

#[test]
fn record_for_path_absolutizes_and_terminates() {
    // An unsaved relative file must still be recordable.
    let rec = record_for_path(&v(b"some-new-file.txt")).expect("absolutization failed");
    assert_eq!(*rec.last().unwrap(), b'\n');
    assert_eq!(rec[0], b'/');
    assert!(rec.ends_with(b"some-new-file.txt\n"));
    assert_ne!(rec, v(b"some-new-file.txt"));
}

#[test]
fn paths_are_joined_under_the_app_directory() {
    let dir = history_dir(&v(b"/home/u/.local/share"));
    assert_eq!(dir, v(b"/home/u/.local/share/founder"));
    assert_eq!(file_history_path(&dir), v(b"/home/u/.local/share/founder/file_history"));
    assert_eq!(query_history_path(&dir), v(b"/home/u/.local/share/founder/query_history"));
}

#[test]
fn compaction_leaves_a_log_at_the_cap_alone() {
    // Exactly 1000 records, even with duplicates, is not compacted.
    let mut bytes = Vec::new();
    for i in 0..1000u32 {
        bytes.extend_from_slice(format!("/p{}\n", i % 10).as_bytes());
    }
    assert!(compact_history(&bytes).is_none());
}

#[test]
fn compaction_over_the_cap_keeps_newest_distinct_records() {
    // 1001 records cycling through 600 distinct values, oldest to newest.
    let mut bytes = Vec::new();
    for i in 0..1001u32 {
        bytes.extend_from_slice(format!("/p{}\n", i % 600).as_bytes());
    }
    let out = compact_history(&bytes).expect("a log over the cap must be compacted");

    // Reference: walk newest-first, keep first occurrences, cap at 500.
    let mut expected_newest_first: Vec<Vec<u8>> = Vec::new();
    for i in (0..1001u32).rev() {
        let rec = format!("/p{}", i % 600).into_bytes();
        if !expected_newest_first.contains(&rec) {
            expected_newest_first.push(rec);
        }
        if expected_newest_first.len() == 500 {
            break;
        }
    }
    let mut expected = Vec::new();
    for rec in expected_newest_first.iter().rev() {
        expected.extend_from_slice(rec);
        expected.push(b'\n');
    }
    assert_eq!(out, expected);

    // The compacted log re-reads as at most 500 distinct records, each of
    // which stood in the original log.
    let reread = history_lines_from_most_recent(&out);
    assert_eq!(reread.len(), 500);
    let originals = history_lines_from_most_recent(&bytes);
    for rec in &reread {
        assert!(originals.contains(rec));
    }
    for (i, a) in reread.iter().enumerate() {
        for b in reread.iter().skip(i + 1) {
            assert_ne!(a, b);
        }
    }
}

#[test]
fn compaction_over_the_cap_with_few_distinct_records() {
    // Duplicates alone can bring the kept list far under half the cap.
    let mut bytes = Vec::new();
    for i in 0..1001u32 {
        bytes.extend_from_slice(format!("/p{}\n", i % 3).as_bytes());
    }
    let out = compact_history(&bytes).expect("a log over the cap must be compacted");
    // Newest-first distinct: /p1 (i=1000), /p0 (i=999), /p2 (i=998); written
    // oldest to newest.
    assert_eq!(out, v(b"/p2\n/p0\n/p1\n"));
}

#[test]
fn compaction_of_distinct_under_cap_log_is_untriggered() {
    let bytes = v(b"/a\n/b\n/c\n");
    assert!(compact_history(&bytes).is_none());
}
