use founder::paths::{display_path, expand_selection, relativize};

fn v(b: &[u8]) -> Vec<u8> {
    b.to_vec()
}

#[test]
fn display_under_home_uses_tilde() {
    let home = v(b"/home/u");
    assert_eq!(display_path(&v(b"/home/u/notes.txt"), &home), v(b"~/notes.txt"));
    assert_eq!(display_path(&v(b"/home/u/a/b"), &home), v(b"~/a/b"));
}

#[test]
fn display_of_home_itself_is_bare_tilde_slash() {
    let home = v(b"/home/u");
    assert_eq!(display_path(&v(b"/home/u"), &home), v(b"~/"));
}

#[test]
fn display_does_not_match_sibling_directories() {
    let home = v(b"/home/u");
    assert_eq!(display_path(&v(b"/home/utwo/x"), &home), v(b"/home/utwo/x"));
}

#[test]
fn display_guards_literal_tilde_component() {
    let home = v(b"/home/u");
    assert_eq!(display_path(&v(b"~/x"), &home), v(b"./~/x"));
    assert_eq!(display_path(&v(b"~"), &home), v(b"./~"));
    assert_eq!(display_path(&v(b"~abc/x"), &home), v(b"~abc/x"));
}

#[test]
fn display_passes_other_paths_through() {
    let home = v(b"/home/u");
    assert_eq!(display_path(&v(b"/etc/hosts"), &home), v(b"/etc/hosts"));
    assert_eq!(display_path(&v(b"rel/path"), &home), v(b"rel/path"));
    assert_eq!(display_path(&v(b""), &home), v(b""));
}

#[test]
fn expand_substitutes_home_for_tilde() {
    let home = v(b"/home/u");
    assert_eq!(expand_selection(&v(b"~/notes.txt"), &home), v(b"/home/u/notes.txt"));
    assert_eq!(expand_selection(&v(b"~"), &home), v(b"/home/u/"));
}

#[test]
fn expand_passes_other_selections_through() {
    let home = v(b"/home/u");
    assert_eq!(expand_selection(&v(b"./~/x"), &home), v(b"./~/x"));
    assert_eq!(expand_selection(&v(b"~abc"), &home), v(b"~abc"));
    assert_eq!(expand_selection(&v(b"/etc/hosts"), &home), v(b"/etc/hosts"));
}

#[test]
fn expand_inverts_display_outside_tilde() {
    // Round trip for paths whose first component is not literally `~`.
    let home = v(b"/home/u");
    for p in [
        &b"/home/u/notes.txt"[..],
        b"/home/u/a/b",
        b"/etc/hosts",
        b"rel/path",
        b"/home/utwo/x",
    ] {
        let shown = display_path(&v(p), &home);
        assert_eq!(expand_selection(&shown, &home), v(p));
    }
}

#[test]
fn relativize_strips_cwd_prefix_only() {
    let cwd = v(b"/home/u/proj");
    assert_eq!(relativize(&v(b"/home/u/proj/src/lib.rs"), &cwd), v(b"src/lib.rs"));
    assert_eq!(relativize(&v(b"/home/u/proj"), &cwd), v(b""));
    assert_eq!(relativize(&v(b"/home/u/projx/f"), &cwd), v(b"/home/u/projx/f"));
    assert_eq!(relativize(&v(b"/etc/hosts"), &cwd), v(b"/etc/hosts"));
}
