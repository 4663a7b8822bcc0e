//! Lexical path forms: the display form shown by the selector, the expansion
//! of a selection back to a stored path, and relativization against a
//! directory. Paths are byte strings with a single separator convention and
//! are never resolved against the filesystem.
use vstd::prelude::*;

verus! {

/// Byte value of the path separator `/`; the library assumes the Unix convention.
pub const SEPARATOR: u8 = 47;

/// Byte value of `~`, the display stand-in for the home directory.
pub const TILDE: u8 = 126;

/// Byte value of `.`.
pub const DOT: u8 = 46;

/// Lexical component-wise prefix test: `p` is exactly `prefix`, or continues
/// it immediately with a separator.
pub open spec fn starts_with_component(p: Seq<u8>, prefix: Seq<u8>) -> bool {
    ||| p == prefix
    ||| (p.len() > prefix.len() && p.take(prefix.len() as int) == prefix && p[prefix.len() as int]
        == SEPARATOR)
}

/// What remains of `p` after removing the component prefix `prefix` and the
/// separator that follows it; meaningful when `starts_with_component` holds.
pub open spec fn strip_component_prefix(p: Seq<u8>, prefix: Seq<u8>) -> Seq<u8> {
    if p == prefix {
        Seq::empty()
    } else {
        p.skip(prefix.len() as int + 1)
    }
}

/// The display form of a path: a path under the home directory is shown as
/// `~`-relative; a path whose first component is literally `~` is guarded
/// with a leading `./` so that expanding the selection cannot misread it;
/// any other path is shown unchanged.
pub open spec fn display_spec(p: Seq<u8>, home: Seq<u8>) -> Seq<u8> {
    if starts_with_component(p, home) {
        seq![TILDE, SEPARATOR] + strip_component_prefix(p, home)
    } else if starts_with_component(p, seq![TILDE]) {
        seq![DOT, SEPARATOR] + p
    } else {
        p
    }
}

/// The expansion of a selected line: a first component of exactly `~` is
/// replaced by the home directory; anything else passes through unchanged.
pub open spec fn expand_spec(sel: Seq<u8>, home: Seq<u8>) -> Seq<u8> {
    if starts_with_component(sel, seq![TILDE]) {
        home + seq![SEPARATOR] + strip_component_prefix(sel, seq![TILDE])
    } else {
        sel
    }
}

/// Relativization of a stored path against a directory: a path under `cwd`
/// loses that prefix, any other path is kept whole.
pub open spec fn relativize_spec(p: Seq<u8>, cwd: Seq<u8>) -> Seq<u8> {
    if starts_with_component(p, cwd) {
        strip_component_prefix(p, cwd)
    } else {
        p
    }
}

/// Appends all of `src` to `dst`.
pub fn push_all(dst: &mut Vec<u8>, src: &Vec<u8>)
    ensures
        final(dst)@ == old(dst)@ + src@,
{
    let mut i: usize = 0;
    while i < src.len()
        invariant
            i <= src@.len(),
            dst@ == old(dst)@ + src@.take(i as int),
        decreases src@.len() - i,
    {
        dst.push(src[i]);
        proof {
            assert(old(dst)@ + src@.take(i as int) + seq![src@[i as int]] =~= old(dst)@
                + src@.take(i + 1));
        }
        i = i + 1;
    }
    proof {
        assert(old(dst)@ + src@.take(src@.len() as int) =~= old(dst)@ + src@);
    }
}

/// Copies the tail of `p` that starts at index `start`.
pub fn copy_from(p: &Vec<u8>, start: usize) -> (r: Vec<u8>)
    requires
        start <= p@.len(),
    ensures
        r@ == p@.skip(start as int),
{
    let mut r: Vec<u8> = Vec::new();
    let mut i: usize = start;
    while i < p.len()
        invariant
            start <= i <= p@.len(),
            r@ == p@.subrange(start as int, i as int),
        decreases p@.len() - i,
    {
        r.push(p[i]);
        proof {
            assert(p@.subrange(start as int, i as int) + seq![p@[i as int]] =~= p@.subrange(
                start as int,
                i + 1,
            ));
        }
        i = i + 1;
    }
    proof {
        assert(p@.subrange(start as int, p@.len() as int) =~= p@.skip(start as int));
    }
    r
}

/// A copy of a byte string.
pub fn clone_bytes(v: &Vec<u8>) -> (r: Vec<u8>)
    ensures
        r@ == v@,
{
    let r = copy_from(v, 0);
    proof {
        assert(v@.skip(0) =~= v@);
    }
    r
}

/// Byte-for-byte equality of two byte strings.
pub fn bytes_eq(a: &Vec<u8>, b: &Vec<u8>) -> (r: bool)
    ensures
        r == (a@ == b@),
{
    if a.len() != b.len() {
        return false;
    }
    let mut i: usize = 0;
    while i < a.len()
        invariant
            i <= a@.len(),
            a@.len() == b@.len(),
            forall|j: int| 0 <= j < i ==> a@[j] == b@[j],
        decreases a@.len() - i,
    {
        if a[i] != b[i] {
            return false;
        }
        i = i + 1;
    }
    proof {
        assert(a@ =~= b@);
    }
    true
}

/// Whether `prefix` is an initial segment of `p`.
fn bytes_prefix(p: &Vec<u8>, prefix: &Vec<u8>) -> (r: bool)
    requires
        prefix@.len() <= p@.len(),
    ensures
        r == (p@.take(prefix@.len() as int) == prefix@),
{
    let mut i: usize = 0;
    while i < prefix.len()
        invariant
            i <= prefix@.len() <= p@.len(),
            forall|j: int| 0 <= j < i ==> p@[j] == prefix@[j],
        decreases prefix@.len() - i,
    {
        if p[i] != prefix[i] {
            proof {
                assert(p@.take(prefix@.len() as int)[i as int] != prefix@[i as int]);
            }
            return false;
        }
        i = i + 1;
    }
    proof {
        assert(p@.take(prefix@.len() as int) =~= prefix@);
    }
    true
}

/// Executable form of `starts_with_component`.
pub fn starts_with_component_bytes(p: &Vec<u8>, prefix: &Vec<u8>) -> (r: bool)
    ensures
        r == starts_with_component(p@, prefix@),
{
    if p.len() == prefix.len() {
        let r = bytes_prefix(p, prefix);
        proof {
            assert(p@.take(prefix@.len() as int) =~= p@);
        }
        r
    } else if p.len() > prefix.len() {
        bytes_prefix(p, prefix) && p[prefix.len()] == SEPARATOR
    } else {
        false
    }
}

/// Executable form of `strip_component_prefix`.
pub fn strip_component_prefix_bytes(p: &Vec<u8>, prefix: &Vec<u8>) -> (r: Vec<u8>)
    requires
        starts_with_component(p@, prefix@),
    ensures
        r@ == strip_component_prefix(p@, prefix@),
{
    if p.len() == prefix.len() {
        Vec::new()
    } else {
        copy_from(p, prefix.len() + 1)
    }
}

/// Executable form of `display_spec`; the newline that terminates an emitted
/// record is added by the caller.
pub fn display_path(p: &Vec<u8>, home: &Vec<u8>) -> (r: Vec<u8>)
    ensures
        r@ == display_spec(p@, home@),
{
    let mut tilde: Vec<u8> = Vec::new();
    tilde.push(TILDE);
    proof {
        assert(tilde@ =~= seq![TILDE]);
    }
    if starts_with_component_bytes(p, home) {
        let mut r: Vec<u8> = Vec::new();
        r.push(TILDE);
        r.push(SEPARATOR);
        let rest = strip_component_prefix_bytes(p, home);
        push_all(&mut r, &rest);
        proof {
            assert(r@ =~= seq![TILDE, SEPARATOR] + strip_component_prefix(p@, home@));
        }
        r
    } else if starts_with_component_bytes(p, &tilde) {
        let mut r: Vec<u8> = Vec::new();
        r.push(DOT);
        r.push(SEPARATOR);
        push_all(&mut r, p);
        proof {
            assert(r@ =~= seq![DOT, SEPARATOR] + p@);
        }
        r
    } else {
        copy_from(p, 0)
    }
}

/// Executable form of `expand_spec`.
pub fn expand_selection(sel: &Vec<u8>, home: &Vec<u8>) -> (r: Vec<u8>)
    ensures
        r@ == expand_spec(sel@, home@),
{
    let mut tilde: Vec<u8> = Vec::new();
    tilde.push(TILDE);
    proof {
        assert(tilde@ =~= seq![TILDE]);
    }
    if starts_with_component_bytes(sel, &tilde) {
        let mut r: Vec<u8> = Vec::new();
        push_all(&mut r, home);
        r.push(SEPARATOR);
        let rest = strip_component_prefix_bytes(sel, &tilde);
        push_all(&mut r, &rest);
        proof {
            assert(r@ =~= home@ + seq![SEPARATOR] + strip_component_prefix(sel@, seq![TILDE]));
        }
        r
    } else {
        copy_from(sel, 0)
    }
}

/// Executable form of `relativize_spec`.
pub fn relativize(p: &Vec<u8>, cwd: &Vec<u8>) -> (r: Vec<u8>)
    ensures
        r@ == relativize_spec(p@, cwd@),
{
    if starts_with_component_bytes(p, cwd) {
        strip_component_prefix_bytes(p, cwd)
    } else {
        copy_from(p, 0)
    }
}

/// Expanding the displayed form of a path gives the path back, for every path
/// whose first component is not literally `~` and which is not the home
/// directory itself.
pub proof fn lemma_expand_display_round_trip(p: Seq<u8>, home: Seq<u8>)
    requires
        !starts_with_component(p, seq![TILDE]),
        p != home,
    ensures
        expand_spec(display_spec(p, home), home) == p,
{
    if starts_with_component(p, home) {
        let rest = strip_component_prefix(p, home);
        let d = seq![TILDE, SEPARATOR] + rest;
        assert(d.take(1) =~= seq![TILDE]);
        assert(starts_with_component(d, seq![TILDE]));
        assert(d != seq![TILDE]);
        assert(strip_component_prefix(d, seq![TILDE]) =~= rest);
        assert(expand_spec(d, home) == home + seq![SEPARATOR] + rest);
        assert(home + seq![SEPARATOR] + rest =~= p);
    } else {
        assert(display_spec(p, home) == p);
    }
}

} // verus!
