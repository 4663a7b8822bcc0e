use founder::feeder::{feed_history_lines, feed_scan_lines, merged_feed, Feeder};

fn v(b: &[u8]) -> Vec<u8> {
    b.to_vec()
}

fn vv(items: &[&[u8]]) -> Vec<Vec<u8>> {
    items.iter().map(|b| b.to_vec()).collect()
}

#[test]
fn empty_history_feeds_scan_lines_in_order() {
    let feed = merged_feed(
        &Vec::new(),
        &vv(&[b"a.txt", b"b/c.txt"]),
        &v(b"/home/u"),
        &v(b"/home/u"),
        false,
    );
    assert_eq!(feed, v(b"a.txt\nb/c.txt\n"));
}

#[test]
fn duplicate_history_entry_is_fed_once() {
    let history = vv(&[b"/home/u/x.txt", b"/home/u/x.txt"]);
    let feed = merged_feed(&history, &Vec::new(), &v(b"/home/u"), &v(b"/home/u"), false);
    assert_eq!(feed, v(b"x.txt\n"));
}

#[test]
fn scan_line_matching_history_is_fed_once_from_history() {
    let history = vv(&[b"/home/u/proj/a.rs"]);
    let scan = vv(&[b"a.rs", b"b.rs"]);
    let feed = merged_feed(&history, &scan, &v(b"/home/u/proj"), &v(b"/home/u"), false);
    assert_eq!(feed, v(b"a.rs\nb.rs\n"));
}

#[test]
fn local_mode_hides_history_outside_cwd() {
    let history = vv(&[b"/etc/hosts", b"/home/u/proj/a.rs"]);
    let feed = merged_feed(&history, &Vec::new(), &v(b"/home/u/proj"), &v(b"/home/u"), false);
    assert_eq!(feed, v(b"a.rs\n"));
}

#[test]
fn global_mode_shows_history_outside_cwd_in_display_form() {
    let history = vv(&[b"/home/u/notes.txt", b"/etc/hosts"]);
    let feed = merged_feed(&history, &Vec::new(), &v(b"/home/u/proj"), &v(b"/home/u"), true);
    // Newest first, each through toDisplay: under home becomes ~-relative.
    assert_eq!(feed, v(b"~/notes.txt\n/etc/hosts\n"));
}

#[test]
fn history_is_fed_newest_first_before_scan() {
    let history = vv(&[b"/d/new.txt", b"/d/old.txt"]);
    let scan = vv(&[b"other.txt"]);
    let feed = merged_feed(&history, &scan, &v(b"/d"), &v(b"/home/u"), false);
    assert_eq!(feed, v(b"new.txt\nold.txt\nother.txt\n"));
}

#[test]
fn feeder_suppresses_duplicates_incrementally() {
    let mut feeder = Feeder::new();
    let cwd = v(b"/home/u");
    let home = v(b"/home/u");
    let first = feeder.push_history_line(&v(b"/home/u/x.txt"), &cwd, &home, false);
    assert_eq!(first, Some(v(b"x.txt\n")));
    let second = feeder.push_history_line(&v(b"/home/u/x.txt"), &cwd, &home, false);
    assert_eq!(second, None);
    let scan_dup = feeder.push_scan_line(&v(b"x.txt"), &home);
    assert_eq!(scan_dup, None);
    let scan_new = feeder.push_scan_line(&v(b"y.txt"), &home);
    assert_eq!(scan_new, Some(v(b"y.txt\n")));
}

#[test]
fn local_mode_skip_leaves_feeder_unchanged() {
    let mut feeder = Feeder::new();
    let cwd = v(b"/home/u/proj");
    let home = v(b"/home/u");
    let skipped = feeder.push_history_line(&v(b"/etc/hosts"), &cwd, &home, false);
    assert_eq!(skipped, None);
    // The skipped line was not remembered: the scan may still emit it.
    let emitted = feeder.push_scan_line(&v(b"/etc/hosts"), &home);
    assert_eq!(emitted, Some(v(b"/etc/hosts\n")));
}

#[test]
fn batch_feeds_match_the_incremental_feeder() {
    let mut feeder = Feeder::new();
    let history = vv(&[b"/d/a", b"/d/b", b"/d/a"]);
    let cwd = v(b"/d");
    let home = v(b"/home/u");
    let recs = feed_history_lines(&mut feeder, &history, &cwd, &home, false);
    assert_eq!(recs, vv(&[b"a\n", b"b\n"]));
    let scan = vv(&[b"b", b"c"]);
    let recs2 = feed_scan_lines(&mut feeder, &scan, &home);
    assert_eq!(recs2, vv(&[b"c\n"]));
}
