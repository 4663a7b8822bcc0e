//! The selection state machine: the two search modes cycled by a dedicated
//! key, and the interpretation of the selector's three-field output into the
//! next action.
use crate::history::views;
use crate::lines::{split_lines, split_newlines};
use crate::paths::{bytes_eq, clone_bytes, expand_selection, expand_spec};
use vstd::prelude::*;

verus! {

/// A search scope. `Local` confines history to the working directory and
/// scans no hidden files; `Global` shows all history and scans hidden files
/// too.
#[derive(Clone, Copy, PartialEq, Eq, Structural, Debug)]
pub enum Mode {
    Local,
    Global,
}

impl Mode {
    /// The mode reached by one press of the mode-switch key.
    pub open spec fn next_spec(self) -> Mode {
        match self {
            Mode::Local => Mode::Global,
            Mode::Global => Mode::Local,
        }
    }

    /// Advances to the other mode.
    pub fn next(self) -> (r: Mode)
        ensures
            r == self.next_spec(),
    {
        match self {
            Mode::Local => Mode::Global,
            Mode::Global => Mode::Local,
        }
    }

    /// Whether history entries outside the working directory are shown.
    pub fn global_history(self) -> (r: bool)
        ensures
            r == (self is Global),
    {
        match self {
            Mode::Local => false,
            Mode::Global => true,
        }
    }

    /// Whether the live scan includes hidden files.
    pub fn scan_hidden(self) -> (r: bool)
        ensures
            r == (self is Global),
    {
        match self {
            Mode::Local => false,
            Mode::Global => true,
        }
    }

    /// The prompt label of the mode.
    pub fn label(&self) -> (r: &'static str)
        ensures
            self is Local ==> r@ == "local"@,
            self is Global ==> r@ == "everything"@,
    {
        match self {
            Mode::Local => "local",
            Mode::Global => "everything",
        }
    }
}

/// The byte string of the mode-switch key token `ctrl-t`.
pub open spec fn mode_switch_key() -> Seq<u8> {
    seq![99u8, 116, 114, 108, 45, 116]
}

/// What one selector run asks the caller to do next.
#[derive(Debug)]
pub enum SelectorStep {
    /// The user accepted a line: record the expanded selection and emit it.
    Accept { selection: Vec<u8> },
    /// The selector failed with an empty key (no match, or aborted):
    /// propagate its exit code verbatim.
    PropagateExit { code: i32 },
    /// The mode-switch key: run again in the other mode with the echoed
    /// query carried over.
    Switch { mode: Mode, query: Vec<u8> },
    /// Fewer than three output fields: an internal invariant violation.
    MalformedOutput,
    /// An unexpected key token: an internal invariant violation.
    UnknownKey,
}

/// Interprets one selector run. The output must hold three newline-separated
/// fields — the echoed query, the key token, and the selected line. The key
/// decides before the exit status does: an empty key accepts (or propagates
/// a failing status), the mode-switch key advances the mode and keeps the
/// query, and anything else is a violated invariant.
pub fn selection_step(
    mode: Mode,
    exit_success: bool,
    exit_code: i32,
    output: &Vec<u8>,
    home: &Vec<u8>,
) -> (r: SelectorStep)
    ensures
        ({
            let parts = split_lines(output@);
            &&& parts.len() < 3 ==> r is MalformedOutput
            &&& parts.len() >= 3 ==> {
                let query = parts[0];
                let key = parts[1];
                let sel = parts[2];
                &&& (key == Seq::<u8>::empty() && !exit_success) ==> (r matches
                    SelectorStep::PropagateExit { code } && code == exit_code)
                &&& (key == Seq::<u8>::empty() && exit_success) ==> (r matches
                    SelectorStep::Accept { selection } && selection@ == expand_spec(sel, home@))
                &&& key == mode_switch_key() ==> (r matches SelectorStep::Switch {
                    mode: m2,
                    query: q,
                } && m2 == mode.next_spec() && q@ == query)
                &&& (key != Seq::<u8>::empty() && key != mode_switch_key()) ==> r is UnknownKey
            }
        }),
{
    let parts = split_newlines(output);
    proof {
        assert(views(parts@) == split_lines(output@));
    }
    if parts.len() < 3 {
        return SelectorStep::MalformedOutput;
    }
    let key = &parts[1];
    if key.len() == 0 {
        proof {
            assert(parts@[1]@ =~= Seq::<u8>::empty());
        }
        if !exit_success {
            SelectorStep::PropagateExit { code: exit_code }
        } else {
            let selection = expand_selection(&parts[2], home);
            SelectorStep::Accept { selection }
        }
    } else {
        let mut token: Vec<u8> = Vec::new();
        token.push(99);
        token.push(116);
        token.push(114);
        token.push(108);
        token.push(45);
        token.push(116);
        proof {
            assert(token@ =~= mode_switch_key());
            assert(parts@[1]@ != Seq::<u8>::empty());
        }
        if bytes_eq(key, &token) {
            let query = clone_bytes(&parts[0]);
            SelectorStep::Switch { mode: mode.next(), query }
        } else {
            SelectorStep::UnknownKey
        }
    }
}

/// Starting in the local mode, one press of the mode-switch key reaches the
/// global mode — the one that scans hidden files and shows all history — and
/// a second press returns to the local mode; `selection_step` carries the
/// echoed query through each switch unchanged.
pub proof fn lemma_mode_cycle()
    ensures
        Mode::Local.next_spec() == Mode::Global,
        Mode::Global.next_spec() == Mode::Local,
        forall|m: Mode| (#[trigger] m.next_spec()).next_spec() == m,
{
}

} // verus!
