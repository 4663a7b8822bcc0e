use founder::selector::{selection_step, Mode, SelectorStep};

fn v(b: &[u8]) -> Vec<u8> {
    b.to_vec()
}

#[test]
fn accept_expands_the_selection() {
    // Query "foo", empty key (enter), selection "foo".
    let step = selection_step(Mode::Local, true, 0, &v(b"foo\n\nfoo\n"), &v(b"/home/u"));
    match step {
        SelectorStep::Accept { selection } => assert_eq!(selection, v(b"foo")),
        other => panic!("expected an accept, got {:?}", other),
    }
}

#[test]
fn accept_expands_a_tilde_selection_to_home() {
    let step = selection_step(Mode::Local, true, 0, &v(b"q\n\n~/notes.txt\n"), &v(b"/home/u"));
    match step {
        SelectorStep::Accept { selection } => assert_eq!(selection, v(b"/home/u/notes.txt")),
        other => panic!("expected an accept, got {:?}", other),
    }
}

#[test]
fn fields_beyond_the_third_are_ignored() {
    let step = selection_step(Mode::Local, true, 0, &v(b"q\n\nbar\nbaz\n"), &v(b"/home/u"));
    match step {
        SelectorStep::Accept { selection } => assert_eq!(selection, v(b"bar")),
        other => panic!("expected an accept, got {:?}", other),
    }
}

#[test]
fn failing_status_with_empty_key_propagates_the_exit_code() {
    let step = selection_step(Mode::Local, false, 130, &v(b"foo\n\n\n"), &v(b"/home/u"));
    match step {
        SelectorStep::PropagateExit { code } => assert_eq!(code, 130),
        other => panic!("expected exit propagation, got {:?}", other),
    }
}

#[test]
fn mode_switch_advances_mode_and_keeps_query() {
    let step = selection_step(Mode::Local, true, 0, &v(b"my query\nctrl-t\nx\n"), &v(b"/home/u"));
    match step {
        SelectorStep::Switch { mode, query } => {
            assert_eq!(mode, Mode::Global);
            assert_eq!(query, v(b"my query"));
        },
        other => panic!("expected a mode switch, got {:?}", other),
    }
}

#[test]
fn mode_switch_wins_over_a_failing_status() {
    // A query that matches nothing still switches modes on the switch key.
    let step = selection_step(Mode::Local, false, 1, &v(b"q\nctrl-t\n\n"), &v(b"/home/u"));
    assert!(matches!(step, SelectorStep::Switch { mode: Mode::Global, .. }));
}

#[test]
fn two_switches_return_to_the_local_mode() {
    let home = v(b"/home/u");
    let first = selection_step(Mode::Local, true, 0, &v(b"q\nctrl-t\n\n"), &home);
    let (mode1, query1) = match first {
        SelectorStep::Switch { mode, query } => (mode, query),
        other => panic!("expected a mode switch, got {:?}", other),
    };
    assert_eq!(mode1, Mode::Global);
    assert!(mode1.scan_hidden());
    assert!(mode1.global_history());
    assert_eq!(query1, v(b"q"));
    let second_output = {
        let mut out = query1.clone();
        out.extend_from_slice(b"\nctrl-t\n\n");
        out
    };
    let second = selection_step(mode1, true, 0, &second_output, &home);
    match second {
        SelectorStep::Switch { mode, query } => {
            assert_eq!(mode, Mode::Local);
            assert!(!mode.scan_hidden());
            assert!(!mode.global_history());
            assert_eq!(query, v(b"q"));
        },
        other => panic!("expected a mode switch, got {:?}", other),
    }
}

#[test]
fn fewer_than_three_fields_is_malformed() {
    let home = v(b"/home/u");
    assert!(matches!(
        selection_step(Mode::Local, true, 0, &v(b"foo\n"), &home),
        SelectorStep::MalformedOutput
    ));
    assert!(matches!(
        selection_step(Mode::Local, true, 0, &Vec::new(), &home),
        SelectorStep::MalformedOutput
    ));
}

#[test]
fn an_unexpected_key_is_rejected() {
    let step = selection_step(Mode::Local, true, 0, &v(b"q\nctrl-x\nsel\n"), &v(b"/home/u"));
    assert!(matches!(step, SelectorStep::UnknownKey));
}

#[test]
fn accepted_selection_becomes_an_absolute_history_record() {
    // Accepting "foo" expands it unchanged; the history record for it is the
    // absolutized path, newline-terminated.
    let step = selection_step(Mode::Local, true, 0, &v(b"foo\n\nfoo\n"), &v(b"/home/u"));
    let selection = match step {
        SelectorStep::Accept { selection } => selection,
        other => panic!("expected an accept, got {:?}", other),
    };
    let rec = founder::history::record_for_path(&selection).expect("absolutization failed");
    assert_eq!(rec[0], b'/');
    assert!(rec.ends_with(b"/foo\n"));
}

#[test]
fn mode_attributes_and_labels() {
    assert_eq!(Mode::Local.label(), "local");
    assert_eq!(Mode::Global.label(), "everything");
    assert_eq!(Mode::Local.next(), Mode::Global);
    assert_eq!(Mode::Global.next(), Mode::Local);
}
