//! The append-only history log: its location, the newest-first reading of
//! its records, the record written by an append, and the dedupe-and-truncate
//! compaction pass with its laws.
use crate::lines::{join_records, rsplit_newlines, split_lines, NEWLINE};
use crate::lines::{lemma_split_join, lemma_split_lines_no_newline};
use crate::paths::{push_all, copy_from, clone_bytes, bytes_eq, SEPARATOR};
use vstd::prelude::*;

verus! {

/// Soft cap on the number of records in the log; compaction runs once the
/// count exceeds it.
pub const MAX_HISTORY_LINES: u64 = 1000;

/// The views of a list of byte strings.
pub open spec fn views(v: Seq<Vec<u8>>) -> Seq<Seq<u8>> {
    v.map_values(|x: Vec<u8>| x@)
}

/// The records of a log image, newest first: the non-empty pieces between
/// newlines, in reverse file order.
pub open spec fn history_lines_spec(bytes: Seq<u8>) -> Seq<Seq<u8>> {
    split_lines(bytes).reverse().filter(|l: Seq<u8>| l.len() != 0)
}

/// The records kept by compaction, newest first: the first occurrence of
/// each distinct record, truncated to half the cap.
pub open spec fn compacted_records(records: Seq<Seq<u8>>) -> Seq<Seq<u8>> {
    let uniq = records.remove_duplicates(Seq::empty());
    let keep = MAX_HISTORY_LINES as int / 2;
    if uniq.len() <= keep {
        uniq
    } else {
        uniq.take(keep)
    }
}

/// The file name of the history log within the application directory.
pub open spec fn file_history_name() -> Seq<u8> {
    seq![102u8, 105, 108, 101, 95, 104, 105, 115, 116, 111, 114, 121]
}

/// The file name of the selector's query-recall file within the application
/// directory.
pub open spec fn query_history_name() -> Seq<u8> {
    seq![113u8, 117, 101, 114, 121, 95, 104, 105, 115, 116, 111, 114, 121]
}

/// The name of the application directory under the per-user data directory.
pub open spec fn app_dir_name() -> Seq<u8> {
    seq![102u8, 111, 117, 110, 100, 101, 114]
}

/// Joins a directory and a name with one separator.
fn join_name(dir: &Vec<u8>, name: &Vec<u8>) -> (r: Vec<u8>)
    ensures
        r@ == dir@ + seq![SEPARATOR] + name@,
{
    let mut r = copy_from(dir, 0);
    r.push(SEPARATOR);
    push_all(&mut r, name);
    proof {
        assert(r@ =~= dir@ + seq![SEPARATOR] + name@);
    }
    r
}

/// The application's directory under the per-user data directory.
pub fn history_dir(data_dir: &Vec<u8>) -> (r: Vec<u8>)
    ensures
        r@ == data_dir@ + seq![SEPARATOR] + app_dir_name(),
{
    let mut name: Vec<u8> = Vec::new();
    name.push(102);
    name.push(111);
    name.push(117);
    name.push(110);
    name.push(100);
    name.push(101);
    name.push(114);
    proof {
        assert(name@ =~= app_dir_name());
    }
    join_name(data_dir, &name)
}

/// The path of the history log within the application directory.
pub fn file_history_path(history_dir: &Vec<u8>) -> (r: Vec<u8>)
    ensures
        r@ == history_dir@ + seq![SEPARATOR] + file_history_name(),
{
    let mut name: Vec<u8> = Vec::new();
    name.push(102);
    name.push(105);
    name.push(108);
    name.push(101);
    name.push(95);
    name.push(104);
    name.push(105);
    name.push(115);
    name.push(116);
    name.push(111);
    name.push(114);
    name.push(121);
    proof {
        assert(name@ =~= file_history_name());
    }
    join_name(history_dir, &name)
}

/// The path of the selector's query-recall file within the application
/// directory.
pub fn query_history_path(history_dir: &Vec<u8>) -> (r: Vec<u8>)
    ensures
        r@ == history_dir@ + seq![SEPARATOR] + query_history_name(),
{
    let mut name: Vec<u8> = Vec::new();
    name.push(113);
    name.push(117);
    name.push(101);
    name.push(114);
    name.push(121);
    name.push(95);
    name.push(104);
    name.push(105);
    name.push(115);
    name.push(116);
    name.push(111);
    name.push(114);
    name.push(121);
    proof {
        assert(name@ =~= query_history_name());
    }
    join_name(history_dir, &name)
}

/// The non-empty records of a log image, newest first.
pub fn history_lines_from_most_recent(bytes: &Vec<u8>) -> (r: Vec<Vec<u8>>)
    ensures
        views(r@) == history_lines_spec(bytes@),
{
    let parts = rsplit_newlines(bytes);
    let ghost pv = views(parts@);
    let ghost pred = |l: Seq<u8>| l.len() != 0;
    let mut r: Vec<Vec<u8>> = Vec::new();
    let mut i: usize = 0;
    while i < parts.len()
        invariant
            i <= parts@.len(),
            pv == views(parts@),
            pv == split_lines(bytes@).reverse(),
            pred == (|l: Seq<u8>| l.len() != 0),
            views(r@) == pv.take(i as int).filter(pred),
        decreases parts@.len() - i,
    {
        proof {
            reveal(Seq::filter);
            assert(pv.take(i as int + 1).drop_last() =~= pv.take(i as int));
            assert(pv.take(i as int + 1).last() == pv[i as int]);
        }
        if parts[i].len() != 0 {
            let piece = clone_bytes(&parts[i]);
            r.push(piece);
            proof {
                assert(pred(pv[i as int]));
                assert(views(r@) =~= pv.take(i as int).filter(pred).push(pv[i as int]));
            }
        } else {
            proof {
                assert(!pred(pv[i as int]));
            }
        }
        i = i + 1;
    }
    proof {
        assert(pv.take(pv.len() as int) =~= pv);
    }
    r
}

/// Whether some entry of `v` holds the same bytes as `x`.
fn contains_bytes(v: &Vec<Vec<u8>>, x: &Vec<u8>) -> (r: bool)
    ensures
        r == views(v@).contains(x@),
{
    let mut i: usize = 0;
    while i < v.len()
        invariant
            i <= v@.len(),
            forall|j: int| 0 <= j < i ==> views(v@)[j] != x@,
        decreases v@.len() - i,
    {
        if bytes_eq(&v[i], x) {
            proof {
                assert(views(v@)[i as int] == x@);
            }
            return true;
        }
        i = i + 1;
    }
    proof {
        if views(v@).contains(x@) {
            let j = choose|j: int| 0 <= j < views(v@).len() && views(v@)[j] == x@;
            assert(views(v@)[j] != x@);
        }
    }
    false
}

/// The compaction pass over a log image. A log of at most the cap is left
/// alone. A larger log yields the bytes of the replacement file: the newest
/// occurrence of each distinct record, truncated to half the cap, written
/// oldest to newest.
pub fn compact_history(bytes: &Vec<u8>) -> (r: Option<Vec<u8>>)
    ensures
        ({
            let records = history_lines_spec(bytes@);
            &&& records.len() <= MAX_HISTORY_LINES ==> r is None
            &&& records.len() > MAX_HISTORY_LINES ==> (r matches Some(out) && out@ == join_records(
                compacted_records(records).reverse(),
            ))
        }),
{
    let records = history_lines_from_most_recent(bytes);
    let ghost rv = views(records@);
    let mut unique: Vec<Vec<u8>> = Vec::new();
    let mut i: usize = 0;
    while i < records.len()
        invariant
            i <= records@.len(),
            rv == views(records@),
            rv == history_lines_spec(bytes@),
            views(unique@) == rv.take(i as int).remove_duplicates(Seq::<Seq<u8>>::empty()),
        decreases records@.len() - i,
    {
        let present = contains_bytes(&unique, &records[i]);
        proof {
            let prefix = rv.take(i as int);
            prefix.lemma_remove_duplicates_properties(Seq::<Seq<u8>>::empty());
            assert(prefix + Seq::<Seq<u8>>::empty() =~= prefix);
            assert(rv.take(i as int + 1) =~= prefix + seq![rv[i as int]]);
            prefix.lemma_remove_duplicates_append(rv[i as int], Seq::<Seq<u8>>::empty());
        }
        if !present {
            let entry = clone_bytes(&records[i]);
            unique.push(entry);
            proof {
                assert(views(unique@) =~= rv.take(i as int).remove_duplicates(
                    Seq::<Seq<u8>>::empty(),
                ) + seq![rv[i as int]]);
            }
        }
        i = i + 1;
    }
    proof {
        assert(rv.take(rv.len() as int) =~= rv);
    }
    if records.len() as u64 <= MAX_HISTORY_LINES {
        return None;
    }
    let keep: usize = (MAX_HISTORY_LINES / 2) as usize;
    unique.truncate(keep);
    proof {
        let uniq = rv.remove_duplicates(Seq::<Seq<u8>>::empty());
        if keep <= uniq.len() {
            assert(views(unique@) =~= uniq.take(keep as int));
        }
        assert(views(unique@) == compacted_records(rv));
    }
    let ghost kept = views(unique@);
    let mut out: Vec<u8> = Vec::new();
    let mut j: usize = unique.len();
    proof {
        assert(kept.reverse().take(0) =~= Seq::<Seq<u8>>::empty());
    }
    while j > 0
        invariant
            j <= unique@.len(),
            kept == views(unique@),
            out@ == join_records(kept.reverse().take(kept.len() - j)),
        decreases j,
    {
        j = j - 1;
        push_all(&mut out, &unique[j]);
        out.push(NEWLINE);
        proof {
            let rev = kept.reverse();
            let k = kept.len() - j - 1;
            assert(rev.take(k + 1).drop_last() =~= rev.take(k as int));
            assert(rev.take(k + 1).last() == kept[j as int]);
            assert(out@ =~= join_records(rev.take(k as int)) + kept[j as int] + seq![NEWLINE]);
        }
    }
    proof {
        assert(kept.reverse().take(kept.len() as int) =~= kept.reverse());
    }
    Some(out)
}

/// Removing duplicates from a list with a duplicate-free `seen` prefix
/// yields a duplicate-free list.
proof fn lemma_remove_duplicates_no_duplicates<A>(s: Seq<A>, seen: Seq<A>)
    requires
        seen.no_duplicates(),
    ensures
        s.remove_duplicates(seen).no_duplicates(),
    decreases s.len(),
{
    if s.len() == 0 {
    } else if seen.contains(s[0]) {
        lemma_remove_duplicates_no_duplicates(s.skip(1), seen);
    } else {
        let seen2 = seen + seq![s[0]];
        assert(seen2.no_duplicates()) by {
            assert forall|i: int, j: int|
                0 <= i < seen2.len() && 0 <= j < seen2.len() && i != j implies seen2[i]
                != seen2[j] by {
                if i < seen.len() && j == seen.len() {
                    if seen2[i] == seen2[j] {
                        assert(seen[i] == s[0]);
                        assert(seen.contains(s[0]));
                    }
                } else if j < seen.len() && i == seen.len() {
                    if seen2[i] == seen2[j] {
                        assert(seen[j] == s[0]);
                        assert(seen.contains(s[0]));
                    }
                }
            }
        }
        lemma_remove_duplicates_no_duplicates(s.skip(1), seen2);
    }
}

/// Removing duplicates from a list that holds none, after a `seen` prefix it
/// is disjoint from, changes nothing.
proof fn lemma_remove_duplicates_identity<A>(s: Seq<A>, seen: Seq<A>)
    requires
        (seen + s).no_duplicates(),
    ensures
        s.remove_duplicates(seen) == seen + s,
    decreases s.len(),
{
    if s.len() == 0 {
        assert(seen + s =~= seen);
    } else {
        assert(!seen.contains(s[0])) by {
            if seen.contains(s[0]) {
                let i = choose|i: int| 0 <= i < seen.len() && seen[i] == s[0];
                assert((seen + s)[i] == (seen + s)[seen.len() as int]);
            }
        }
        let seen2 = seen + seq![s[0]];
        assert(seen2 + s.skip(1) =~= seen + s);
        lemma_remove_duplicates_identity(s.skip(1), seen2);
    }
}

/// Filtering keeps only elements of the original list: any property of every
/// element survives the filter.
proof fn lemma_filter_preserves<A>(s: Seq<A>, pred: spec_fn(A) -> bool, q: spec_fn(A) -> bool)
    requires
        forall|i: int| 0 <= i < s.len() ==> q(#[trigger] s[i]),
    ensures
        forall|i: int| 0 <= i < s.filter(pred).len() ==> q(#[trigger] s.filter(pred)[i]),
    decreases s.len(),
{
    reveal(Seq::filter);
    if s.len() == 0 {
    } else {
        lemma_filter_preserves(s.drop_last(), pred, q);
        let sub = s.drop_last().filter(pred);
        assert forall|i: int| 0 <= i < s.filter(pred).len() implies q(s.filter(pred)[i]) by {
            if i < sub.len() {
                assert(s.filter(pred)[i] == sub[i]);
            } else {
                assert(s.filter(pred)[i] == s.last());
            }
        }
    }
}

/// Filtering a list whose every element passes the predicate is the
/// identity.
proof fn lemma_filter_all<A>(s: Seq<A>, pred: spec_fn(A) -> bool)
    requires
        forall|i: int| 0 <= i < s.len() ==> pred(#[trigger] s[i]),
    ensures
        s.filter(pred) == s,
    decreases s.len(),
{
    reveal(Seq::filter);
    if s.len() == 0 {
    } else {
        lemma_filter_all(s.drop_last(), pred);
        assert(pred(s.last()));
        assert(s.drop_last().push(s.last()) =~= s);
    }
}

/// However many records the log holds, the compacted record list has at most
/// half the cap of records, holds no duplicates, and holds only values that
/// stood in the log: the newest distinct ones, in newest-first order.
pub proof fn lemma_compaction_bounds(records: Seq<Seq<u8>>)
    ensures
        ({
            let kept = compacted_records(records);
            &&& kept.len() <= MAX_HISTORY_LINES / 2
            &&& kept.no_duplicates()
            &&& forall|i: int| 0 <= i < kept.len() ==> records.contains(#[trigger] kept[i])
        }),
{
    let uniq = records.remove_duplicates(Seq::<Seq<u8>>::empty());
    let kept = compacted_records(records);
    lemma_remove_duplicates_no_duplicates(records, Seq::<Seq<u8>>::empty());
    records.lemma_remove_duplicates_properties(Seq::<Seq<u8>>::empty());
    assert(records + Seq::<Seq<u8>>::empty() =~= records);
    assert forall|i: int| 0 <= i < kept.len() implies records.contains(#[trigger] kept[i]) by {
        assert(kept[i] == uniq[i]);
        assert(uniq.contains(uniq[i]));
    }
}

/// Compacting a log that holds no duplicate records and no more than half
/// the cap of them keeps every record, in order.
pub proof fn lemma_compaction_identity(records: Seq<Seq<u8>>)
    requires
        records.no_duplicates(),
        records.len() <= MAX_HISTORY_LINES / 2,
    ensures
        compacted_records(records) == records,
{
    assert(Seq::<Seq<u8>>::empty() + records =~= records);
    lemma_remove_duplicates_identity(records, Seq::<Seq<u8>>::empty());
}

/// Writing newline-free, non-empty records each terminated by a newline and
/// reading the image back newest-first returns the records reversed.
pub proof fn lemma_history_round_trip(keys: Seq<Seq<u8>>)
    requires
        forall|i: int| 0 <= i < keys.len() ==> !(#[trigger] keys[i]).contains(NEWLINE),
        forall|i: int| 0 <= i < keys.len() ==> (#[trigger] keys[i]).len() != 0,
    ensures
        history_lines_spec(join_records(keys)) == keys.reverse(),
{
    lemma_split_join(keys);
    let sp = split_lines(join_records(keys));
    let pred = |l: Seq<u8>| l.len() != 0;
    assert(sp.reverse() =~~= seq![Seq::<u8>::empty()] + keys.reverse());
    Seq::filter_distributes_over_add(seq![Seq::<u8>::empty()], keys.reverse(), pred);
    assert(seq![Seq::<u8>::empty()].filter(pred) =~= Seq::<Seq<u8>>::empty()) by {
        reveal_with_fuel(Seq::filter, 2);
        assert(seq![Seq::<u8>::empty()].drop_last() =~= Seq::<Seq<u8>>::empty());
    }
    assert forall|i: int| 0 <= i < keys.reverse().len() implies pred(
        #[trigger] keys.reverse()[i],
    ) by {
        assert(keys.reverse()[i] == keys[keys.len() - 1 - i]);
    }
    lemma_filter_all(keys.reverse(), pred);
    assert(Seq::<Seq<u8>>::empty() + keys.reverse() =~= keys.reverse());
}

/// The file written by compaction, read back newest-first, yields exactly
/// the compacted record list.
pub proof fn lemma_compacted_log_read_back(bytes: Seq<u8>)
    ensures
        ({
            let records = history_lines_spec(bytes);
            let kept = compacted_records(records);
            history_lines_spec(join_records(kept.reverse())) == kept
        }),
{
    let sp = split_lines(bytes);
    let pred = |l: Seq<u8>| l.len() != 0;
    let records = history_lines_spec(bytes);
    let kept = compacted_records(records);
    let uniq = records.remove_duplicates(Seq::<Seq<u8>>::empty());
    lemma_split_lines_no_newline(bytes);
    let no_nl = |l: Seq<u8>| !l.contains(NEWLINE);
    assert forall|i: int| 0 <= i < sp.reverse().len() implies no_nl(#[trigger] sp.reverse()[i]) by {
        assert(sp.reverse()[i] == sp[sp.len() - 1 - i]);
    }
    lemma_filter_preserves(sp.reverse(), pred, no_nl);
    sp.reverse().lemma_filter_len(pred);
    broadcast use vstd::seq_lib::group_filter_ensures;

    records.lemma_remove_duplicates_properties(Seq::<Seq<u8>>::empty());
    assert(records + Seq::<Seq<u8>>::empty() =~= records);
    assert forall|i: int|
        0 <= i < kept.reverse().len() implies !(#[trigger] kept.reverse()[i]).contains(NEWLINE)
        && kept.reverse()[i].len() != 0 by {
        let e = kept.reverse()[i];
        assert(e == kept[kept.len() - 1 - i]);
        assert(e == uniq[kept.len() - 1 - i]);
        assert(uniq.contains(e));
        assert(records.contains(e));
        let j = choose|j: int| 0 <= j < records.len() && records[j] == e;
        assert(no_nl(records[j]));
        assert(pred(records[j]));
    }
    lemma_history_round_trip(kept.reverse());
    assert(kept.reverse().reverse() =~= kept);
}

/// The record that an append writes for an already-absolute path: the path
/// bytes terminated by one newline.
pub fn make_history_record(abs_path: &Vec<u8>) -> (r: Vec<u8>)
    ensures
        r@ == abs_path@ + seq![NEWLINE],
{
    let mut r = copy_from(abs_path, 0);
    r.push(NEWLINE);
    proof {
        assert(r@ =~= abs_path@ + seq![NEWLINE]);
    }
    r
}

/// Relies on `path_abs::PathAbs::new`: it lexically absolutizes the path
/// against the process's current directory, stripping `.` components and
/// resolving `..` without consulting the filesystem, and fails on paths it
/// cannot resolve. The result depends on the current directory, so nothing
/// is claimed of its value; non-UTF-8 input is treated as unresolvable.
#[verifier::external_body]
fn absolutize(path: &Vec<u8>) -> (r: Option<Vec<u8>>) {
    match std::str::from_utf8(path.as_slice()) {
        Ok(s) => match path_abs::PathAbs::new(s) {
            Ok(p) => p.as_path().to_str().map(|t| t.as_bytes().to_vec()),
            Err(_) => None,
        },
        Err(_) => None,
    }
}

/// The record appended to the log for a selected path: the absolutized path
/// terminated by one newline, or nothing when absolutization fails.
pub fn record_for_path(path: &Vec<u8>) -> (r: Option<Vec<u8>>)
    ensures
        r matches Some(rec) ==> rec@.len() > 0 && rec@.last() == NEWLINE,
{
    match absolutize(path) {
        Some(abs) => Some(make_history_record(&abs)),
        None => None,
    }
}

} // verus!
