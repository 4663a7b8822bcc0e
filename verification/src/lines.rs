//! Newline-delimited records: the split of a byte string into the pieces
//! between newline bytes, the inverse join that terminates every record with
//! a newline, and the relation between the two.
use vstd::prelude::*;

verus! {

/// Byte value of the record terminator `\n`.
pub const NEWLINE: u8 = 10;

/// The pieces of `s` between newline bytes, in order: `n` newlines give
/// `n + 1` pieces, so an empty input gives one empty piece and adjacent
/// newlines give empty pieces.
pub open spec fn split_lines(s: Seq<u8>) -> Seq<Seq<u8>>
    decreases s.len(),
{
    if s.len() == 0 {
        seq![Seq::<u8>::empty()]
    } else if s.last() == NEWLINE {
        split_lines(s.drop_last()).push(Seq::empty())
    } else {
        let r = split_lines(s.drop_last());
        r.update(r.len() - 1, r.last().push(s.last()))
    }
}

/// The byte string holding each record of `keys` in order, each terminated
/// by a newline.
pub open spec fn join_records(keys: Seq<Seq<u8>>) -> Seq<u8>
    decreases keys.len(),
{
    if keys.len() == 0 {
        Seq::empty()
    } else {
        join_records(keys.drop_last()) + keys.last() + seq![NEWLINE]
    }
}

/// A split always yields at least one piece.
pub proof fn lemma_split_lines_len(s: Seq<u8>)
    ensures
        split_lines(s).len() >= 1,
    decreases s.len(),
{
    if s.len() == 0 {
    } else {
        lemma_split_lines_len(s.drop_last());
    }
}

/// No piece of a split contains a newline.
pub proof fn lemma_split_lines_no_newline(s: Seq<u8>)
    ensures
        forall|i: int|
            0 <= i < split_lines(s).len() ==> !(#[trigger] split_lines(s)[i]).contains(NEWLINE),
    decreases s.len(),
{
    if s.len() == 0 {
        let r = split_lines(s);
        assert(r[0] =~= Seq::<u8>::empty());
        assert(!r[0].contains(NEWLINE));
    } else if s.last() == NEWLINE {
        lemma_split_lines_len(s.drop_last());
        lemma_split_lines_no_newline(s.drop_last());
        let r0 = split_lines(s.drop_last());
        let r = split_lines(s);
        assert forall|i: int| 0 <= i < r.len() implies !r[i].contains(NEWLINE) by {
            if i < r0.len() {
                assert(r[i] == r0[i]);
            } else {
                assert(r[i] =~= Seq::<u8>::empty());
            }
        }
    } else {
        lemma_split_lines_len(s.drop_last());
        lemma_split_lines_no_newline(s.drop_last());
        let r0 = split_lines(s.drop_last());
        let upd = split_lines(s);
        assert forall|i: int| 0 <= i < upd.len() implies !upd[i].contains(NEWLINE) by {
            if i == r0.len() - 1 {
                let e = r0.last().push(s.last());
                if e.contains(NEWLINE) {
                    let j = choose|j: int| 0 <= j < e.len() && e[j] == NEWLINE;
                    if j < r0.last().len() {
                        assert(r0.last()[j] == NEWLINE);
                        assert(r0.last().contains(NEWLINE));
                    }
                    assert(false);
                }
            } else {
                assert(upd[i] == r0[i]);
            }
        }
    }
}

/// Appending a newline-free chunk extends the final piece of the split.
proof fn lemma_split_lines_append_chunk(s: Seq<u8>, key: Seq<u8>)
    requires
        !key.contains(NEWLINE),
    ensures
        ({
            let base = split_lines(s);
            split_lines(s + key) == base.update(base.len() - 1, base.last() + key)
        }),
    decreases key.len(),
{
    lemma_split_lines_len(s);
    let base = split_lines(s);
    if key.len() == 0 {
        assert(s + key =~= s);
        assert(base.last() + key =~= base.last());
        assert(base.update(base.len() - 1, base.last() + key) =~= base);
    } else {
        let k0 = key.drop_last();
        let c = key.last();
        assert(c != NEWLINE) by {
            if c == NEWLINE {
                assert(key[key.len() - 1] == NEWLINE);
                assert(key.contains(NEWLINE));
            }
        }
        assert(!k0.contains(NEWLINE)) by {
            if k0.contains(NEWLINE) {
                let j = choose|j: int| 0 <= j < k0.len() && k0[j] == NEWLINE;
                assert(key[j] == NEWLINE);
                assert(key.contains(NEWLINE));
            }
        }
        lemma_split_lines_append_chunk(s, k0);
        let t = s + k0;
        let bt = split_lines(t);
        lemma_split_lines_len(t);
        assert(s + key =~= t.push(c));
        assert((t.push(c)).drop_last() =~= t);
        assert((t.push(c)).last() == c);
        assert(split_lines(t.push(c)) == bt.update(bt.len() - 1, bt.last().push(c)));
        assert(bt.last() == base.last() + k0);
        assert((base.last() + k0).push(c) =~= base.last() + key);
        assert(bt.update(bt.len() - 1, bt.last().push(c)) =~~= base.update(
            base.len() - 1,
            base.last() + key,
        ));
    }
}

/// Appending a whole newline-terminated record extends the final piece and
/// then opens a fresh empty piece.
proof fn lemma_split_lines_push_record(s: Seq<u8>, key: Seq<u8>)
    requires
        !key.contains(NEWLINE),
    ensures
        ({
            let base = split_lines(s);
            split_lines(s + key + seq![NEWLINE]) == base.update(
                base.len() - 1,
                base.last() + key,
            ).push(Seq::<u8>::empty())
        }),
{
    lemma_split_lines_append_chunk(s, key);
    let t = s + key;
    assert(s + key + seq![NEWLINE] =~= t.push(NEWLINE));
    assert((t.push(NEWLINE)).drop_last() =~= t);
    assert((t.push(NEWLINE)).last() == NEWLINE);
}

/// Splitting a join of newline-free records gives the records back, followed
/// by the empty piece after the final newline.
pub proof fn lemma_split_join(keys: Seq<Seq<u8>>)
    requires
        forall|i: int| 0 <= i < keys.len() ==> !(#[trigger] keys[i]).contains(NEWLINE),
    ensures
        split_lines(join_records(keys)) == keys.push(Seq::<u8>::empty()),
    decreases keys.len(),
{
    if keys.len() == 0 {
        assert(split_lines(join_records(keys)) =~~= keys.push(Seq::<u8>::empty()));
    } else {
        let kd = keys.drop_last();
        lemma_split_join(kd);
        lemma_split_lines_push_record(join_records(kd), keys.last());
        let base = split_lines(join_records(kd));
        assert(base == kd.push(Seq::<u8>::empty()));
        assert(base.last() + keys.last() =~= keys.last());
        assert(base.update(base.len() - 1, base.last() + keys.last()).push(Seq::<u8>::empty())
            =~~= keys.push(Seq::<u8>::empty()));
    }
}

/// Relies on `bstr::ByteSlice::split_str` with the one-byte needle `"\n"`:
/// it yields the pieces of `bytes` between newlines, in order, with empty
/// pieces around adjacent, leading and trailing newlines, and a single empty
/// piece for an empty input.
#[verifier::external_body]
pub(crate) fn split_newlines(bytes: &Vec<u8>) -> (r: Vec<Vec<u8>>)
    ensures
        r@.map_values(|v: Vec<u8>| v@) == split_lines(bytes@),
{
    bstr::ByteSlice::split_str(bytes.as_slice(), "\n").map(|p| p.to_vec()).collect()
}

/// Relies on `bstr::ByteSlice::rsplit_str` with the one-byte needle `"\n"`:
/// it yields exactly the pieces that `split_str` yields, in reverse order.
#[verifier::external_body]
pub(crate) fn rsplit_newlines(bytes: &Vec<u8>) -> (r: Vec<Vec<u8>>)
    ensures
        r@.map_values(|v: Vec<u8>| v@) == split_lines(bytes@).reverse(),
{
    bstr::ByteSlice::rsplit_str(bytes.as_slice(), "\n").map(|p| p.to_vec()).collect()
}

} // verus!
