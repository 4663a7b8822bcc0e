//! The merge feeder: the single candidate stream handed to the selector,
//! built from history records first and live-scan lines second, with every
//! line keyed by its normalized display form and each key emitted at most
//! once.
use crate::history::views;
use crate::lines::{join_records, NEWLINE};
use crate::paths::{
    clone_bytes, display_path, display_spec, push_all, starts_with_component,
    starts_with_component_bytes, strip_component_prefix, strip_component_prefix_bytes,
};
use vstd::prelude::*;

verus! {

/// The feeder's abstract state: the keys emitted so far, in order, and the
/// set of keys already seen.
pub type FeedState = (Seq<Seq<u8>>, Set<Seq<u8>>);

/// The dedup key of a history record: the display form of the record
/// relativized against the working directory; a record elsewhere than under
/// the working directory is shown only when `global` holds.
pub open spec fn history_key(line: Seq<u8>, cwd: Seq<u8>, home: Seq<u8>, global: bool) -> Option<
    Seq<u8>,
> {
    if starts_with_component(line, cwd) {
        Some(display_spec(strip_component_prefix(line, cwd), home))
    } else if global {
        Some(display_spec(line, home))
    } else {
        None
    }
}

/// The dedup key of a live-scan line, which is already relative: its display
/// form.
pub open spec fn scan_key(line: Seq<u8>, home: Seq<u8>) -> Option<Seq<u8>> {
    Some(display_spec(line, home))
}

/// One feeder step: a line without a key, or with an already-seen key, is
/// suppressed; a new key is emitted and remembered.
pub open spec fn feed_step(st: FeedState, key: Option<Seq<u8>>) -> FeedState {
    match key {
        Option::None => st,
        Option::Some(k) => if st.1.contains(k) {
            st
        } else {
            (st.0.push(k), st.1.insert(k))
        },
    }
}

/// The feeder state after offering a list of keys in order.
pub open spec fn feed_keys(ks: Seq<Option<Seq<u8>>>, st: FeedState) -> FeedState {
    ks.fold_left(st, |acc: FeedState, k: Option<Seq<u8>>| feed_step(acc, k))
}

/// The feeder state after the history phase.
pub open spec fn feed_history(
    lines: Seq<Seq<u8>>,
    cwd: Seq<u8>,
    home: Seq<u8>,
    global: bool,
    st: FeedState,
) -> FeedState {
    feed_keys(lines.map_values(|l: Seq<u8>| history_key(l, cwd, home, global)), st)
}

/// The feeder state after the live-scan phase.
pub open spec fn feed_scan(lines: Seq<Seq<u8>>, home: Seq<u8>, st: FeedState) -> FeedState {
    feed_keys(lines.map_values(|l: Seq<u8>| scan_key(l, home)), st)
}

/// The keys of the whole merged feed: the history-derived portion followed
/// by what the live scan adds over it.
pub open spec fn merged_feed_keys(
    history: Seq<Seq<u8>>,
    scan: Seq<Seq<u8>>,
    cwd: Seq<u8>,
    home: Seq<u8>,
    global: bool,
) -> Seq<Seq<u8>> {
    let st1 = feed_history(
        history,
        cwd,
        home,
        global,
        (Seq::<Seq<u8>>::empty(), Set::<Seq<u8>>::empty()),
    );
    let st2 = feed_scan(scan, home, (Seq::<Seq<u8>>::empty(), st1.1));
    st1.0 + st2.0
}

/// The newline-terminated records emitted for a list of keys.
pub open spec fn records_of(keys: Seq<Seq<u8>>) -> Seq<Seq<u8>> {
    keys.map_values(|k: Seq<u8>| k + seq![NEWLINE])
}

/// The transient dedup state of one invocation: the set of display keys
/// already emitted. Created empty, filled first from history, then handed to
/// the task that feeds the live scan.
pub struct Feeder {
    seen: Vec<Vec<u8>>,
}

impl Feeder {
    /// The set of keys already seen.
    pub closed spec fn seen_set(self) -> Set<Seq<u8>> {
        views(self.seen@).to_set()
    }

    /// An empty dedup state.
    pub fn new() -> (r: Feeder)
        ensures
            r.seen_set() == Set::<Seq<u8>>::empty(),
    {
        let r = Feeder { seen: Vec::new() };
        proof {
            assert(views(r.seen@) =~= Seq::<Seq<u8>>::empty());
            assert(r.seen_set() =~= Set::<Seq<u8>>::empty());
        }
        r
    }

    /// Whether `key` was already emitted.
    fn contains_key(&self, key: &Vec<u8>) -> (r: bool)
        ensures
            r == self.seen_set().contains(key@),
    {
        let mut i: usize = 0;
        while i < self.seen.len()
            invariant
                i <= self.seen@.len(),
                forall|j: int| 0 <= j < i ==> views(self.seen@)[j] != key@,
            decreases self.seen@.len() - i,
        {
            if crate::paths::bytes_eq(&self.seen[i], key) {
                proof {
                    assert(views(self.seen@)[i as int] == key@);
                    assert(views(self.seen@).contains(key@));
                }
                return true;
            }
            i = i + 1;
        }
        proof {
            if views(self.seen@).contains(key@) {
                let j = choose|j: int|
                    0 <= j < views(self.seen@).len() && views(self.seen@)[j] == key@;
                assert(views(self.seen@)[j] != key@);
            }
        }
        false
    }

    /// Offers a dedup key: a duplicate is suppressed, a new key is
    /// remembered and its newline-terminated record returned for emission.
    pub fn offer(&mut self, key: Vec<u8>) -> (r: Option<Vec<u8>>)
        ensures
            old(self).seen_set().contains(key@) ==> r is None && final(self).seen_set() == old(
                self,
            ).seen_set(),
            !old(self).seen_set().contains(key@) ==> (r matches Some(rec) && rec@ == key@
                + seq![NEWLINE]) && final(self).seen_set() == old(self).seen_set().insert(key@),
    {
        if self.contains_key(&key) {
            None
        } else {
            let ghost keyv = key@;
            let mut rec = clone_bytes(&key);
            rec.push(NEWLINE);
            let ghost old_seen = self.seen@;
            self.seen.push(key);
            proof {
                assert(rec@ =~= keyv + seq![NEWLINE]);
                assert(views(self.seen@) =~= views(old_seen) + seq![keyv]);
                Seq::<Seq<u8>>::lemma_to_set_insert_commutes(views(old_seen), keyv);
            }
            Some(rec)
        }
    }

    /// Offers one history record; the emitted record, if any, is the display
    /// form of the relativized record, newline-terminated.
    pub fn push_history_line(
        &mut self,
        line: &Vec<u8>,
        cwd: &Vec<u8>,
        home: &Vec<u8>,
        global: bool,
    ) -> (r: Option<Vec<u8>>)
        ensures
            ({
                let st2 = feed_step(
                    (Seq::<Seq<u8>>::empty(), old(self).seen_set()),
                    history_key(line@, cwd@, home@, global),
                );
                &&& final(self).seen_set() == st2.1
                &&& (match r {
                    Option::Some(rec) => st2.0.len() == 1 && rec@ == st2.0[0] + seq![NEWLINE],
                    Option::None => st2.0.len() == 0,
                })
            }),
    {
        if starts_with_component_bytes(line, cwd) {
            let rel = strip_component_prefix_bytes(line, cwd);
            let key = display_path(&rel, home);
            self.offer(key)
        } else if global {
            let key = display_path(line, home);
            self.offer(key)
        } else {
            None
        }
    }

    /// Offers one live-scan line; the emitted record, if any, is the line's
    /// display form, newline-terminated.
    pub fn push_scan_line(&mut self, line: &Vec<u8>, home: &Vec<u8>) -> (r: Option<Vec<u8>>)
        ensures
            ({
                let st2 = feed_step(
                    (Seq::<Seq<u8>>::empty(), old(self).seen_set()),
                    scan_key(line@, home@),
                );
                &&& final(self).seen_set() == st2.1
                &&& (match r {
                    Option::Some(rec) => st2.0.len() == 1 && rec@ == st2.0[0] + seq![NEWLINE],
                    Option::None => st2.0.len() == 0,
                })
            }),
    {
        let key = display_path(line, home);
        self.offer(key)
    }
}

/// How a fold over any key list relates to its starting state: the keys
/// already emitted stay in place; the newly emitted keys are exactly the
/// newly seen ones, none was seen before, and none repeats; and every key
/// offered along the way ends up seen.
proof fn lemma_feed_keys_frame(ks: Seq<Option<Seq<u8>>>, st: FeedState)
    ensures
        ({
            let st2 = feed_keys(ks, st);
            let fresh = st2.0.skip(st.0.len() as int);
            &&& st2.0.len() >= st.0.len()
            &&& st2.0.take(st.0.len() as int) == st.0
            &&& (forall|a: Seq<u8>|
                #[trigger] st2.1.contains(a) <==> st.1.contains(a) || fresh.contains(a))
            &&& (forall|i: int|
                st.0.len() <= i < st2.0.len() ==> !st.1.contains(#[trigger] st2.0[i]))
            &&& fresh.no_duplicates()
            &&& (forall|i: int|
                0 <= i < ks.len() ==> ((#[trigger] ks[i]) matches Some(k) ==> st2.1.contains(k)))
        }),
    decreases ks.len(),
{
    let st2 = feed_keys(ks, st);
    let fresh = st2.0.skip(st.0.len() as int);
    if ks.len() == 0 {
        assert(st2 == st);
        assert(st2.0.take(st.0.len() as int) =~= st.0);
        assert(fresh =~= Seq::<Seq<u8>>::empty());
    } else {
        let kd = ks.drop_last();
        lemma_feed_keys_frame(kd, st);
        let stm = feed_keys(kd, st);
        let freshm = stm.0.skip(st.0.len() as int);
        assert(st2 == feed_step(stm, ks.last()));
        let emitted = ks.last() matches Some(k) && !stm.1.contains(k);
        if emitted {
            let k = ks.last()->0;
            assert(st2.0 == stm.0.push(k) && st2.1 == stm.1.insert(k));
            assert(st2.0.take(st.0.len() as int) =~= stm.0.take(st.0.len() as int));
            assert(fresh =~= freshm.push(k));
            assert(!freshm.contains(k)) by {
                if freshm.contains(k) {
                    assert(stm.1.contains(k));
                }
            }
            assert forall|a: Seq<u8>| #[trigger]
                st2.1.contains(a) <==> st.1.contains(a) || fresh.contains(a) by {
                if st2.1.contains(a) {
                    if a != k {
                        assert(stm.1.contains(a));
                        if freshm.contains(a) {
                            let j = choose|j: int|
                                0 <= j < freshm.len() && freshm[j] == a;
                            assert(fresh[j] == a);
                            assert(fresh.contains(a));
                        }
                    } else {
                        assert(fresh[fresh.len() - 1] == k);
                        assert(fresh.contains(a));
                    }
                }
                if st.1.contains(a) {
                    assert(stm.1.contains(a));
                }
                if fresh.contains(a) {
                    let j = choose|j: int| 0 <= j < fresh.len() && fresh[j] == a;
                    if j < freshm.len() {
                        assert(freshm[j] == a);
                        assert(freshm.contains(a));
                        assert(stm.1.contains(a));
                    } else {
                        assert(a == k);
                    }
                }
            }
            assert forall|i: int|
                st.0.len() <= i < st2.0.len() implies !st.1.contains(#[trigger] st2.0[i]) by {
                if i < stm.0.len() {
                    assert(st2.0[i] == stm.0[i]);
                } else {
                    assert(st2.0[i] == k);
                    if st.1.contains(k) {
                        assert(stm.1.contains(k));
                    }
                }
            }
            assert(fresh.no_duplicates()) by {
                assert forall|i: int, j: int|
                    0 <= i < fresh.len() && 0 <= j < fresh.len() && i != j implies fresh[i]
                    != fresh[j] by {
                    if i < freshm.len() && j < freshm.len() {
                        assert(fresh[i] == freshm[i] && fresh[j] == freshm[j]);
                    } else if i < freshm.len() {
                        assert(fresh[j] == k && fresh[i] == freshm[i]);
                        if freshm[i] == k {
                            assert(freshm.contains(k));
                        }
                    } else {
                        assert(fresh[i] == k && fresh[j] == freshm[j]);
                        if freshm[j] == k {
                            assert(freshm.contains(k));
                        }
                    }
                }
            }
            assert forall|i: int|
                0 <= i < ks.len() implies ((#[trigger] ks[i]) matches Some(kk)
                ==> st2.1.contains(kk)) by {
                if i < ks.len() - 1 {
                    assert(ks[i] == kd[i]);
                }
            }
        } else {
            assert(st2 == stm);
            assert forall|i: int|
                0 <= i < ks.len() implies ((#[trigger] ks[i]) matches Some(kk)
                ==> st2.1.contains(kk)) by {
                if i < ks.len() - 1 {
                    assert(ks[i] == kd[i]);
                }
            }
        }
    }
}

/// If a path stands in history and lies under the working directory, the
/// merged feed emits its display key exactly once, and does so in the
/// history-derived portion — even when the live scan yields the same path
/// after relativization.
pub proof fn lemma_history_entry_fed_once(
    history: Seq<Seq<u8>>,
    scan: Seq<Seq<u8>>,
    cwd: Seq<u8>,
    home: Seq<u8>,
    global: bool,
    p: Seq<u8>,
)
    requires
        history.contains(p),
        starts_with_component(p, cwd),
        scan.contains(strip_component_prefix(p, cwd)),
    ensures
        ({
            let st1 = feed_history(
                history,
                cwd,
                home,
                global,
                (Seq::<Seq<u8>>::empty(), Set::<Seq<u8>>::empty()),
            );
            let keys = merged_feed_keys(history, scan, cwd, home, global);
            let k = display_spec(strip_component_prefix(p, cwd), home);
            &&& keys.no_duplicates()
            &&& keys.take(st1.0.len() as int) == st1.0
            &&& st1.0.contains(k)
        }),
{
    let st0: FeedState = (Seq::<Seq<u8>>::empty(), Set::<Seq<u8>>::empty());
    let hks = history.map_values(|l: Seq<u8>| history_key(l, cwd, home, global));
    lemma_feed_keys_frame(hks, st0);
    let st1 = feed_keys(hks, st0);
    let k = display_spec(strip_component_prefix(p, cwd), home);
    let ip = choose|i: int| 0 <= i < history.len() && history[i] == p;
    assert(hks[ip] == history_key(p, cwd, home, global));
    assert(hks[ip] matches Some(kk) && kk == k);
    assert(st1.1.contains(k));
    assert(st1.0.skip(0) =~= st1.0);
    assert(st1.0.contains(k));
    let sks = scan.map_values(|l: Seq<u8>| scan_key(l, home));
    let stb: FeedState = (Seq::<Seq<u8>>::empty(), st1.1);
    lemma_feed_keys_frame(sks, stb);
    let st2 = feed_keys(sks, stb);
    assert(st2.0.skip(0) =~= st2.0);
    let keys = st1.0 + st2.0;
    assert(keys.no_duplicates()) by {
        assert forall|i: int, j: int|
            0 <= i < keys.len() && 0 <= j < keys.len() && i != j implies keys[i] != keys[j] by {
            let n1 = st1.0.len() as int;
            if i < n1 && j < n1 {
                assert(keys[i] == st1.0[i] && keys[j] == st1.0[j]);
            } else if i >= n1 && j >= n1 {
                assert(keys[i] == st2.0[i - n1] && keys[j] == st2.0[j - n1]);
            } else if i < n1 {
                assert(keys[i] == st1.0[i] && keys[j] == st2.0[j - n1]);
                assert(st1.0.contains(st1.0[i]));
                assert(st1.1.contains(st1.0[i]));
                assert(!stb.1.contains(st2.0[j - n1]));
            } else {
                assert(keys[j] == st1.0[j] && keys[i] == st2.0[i - n1]);
                assert(st1.0.contains(st1.0[j]));
                assert(st1.1.contains(st1.0[j]));
                assert(!stb.1.contains(st2.0[i - n1]));
            }
        }
    }
    assert(keys.take(st1.0.len() as int) =~= st1.0);
}

/// Offering the keys of a list prefix and then one more key is one step of
/// the fold.
proof fn lemma_feed_keys_step(ks: Seq<Option<Seq<u8>>>, st: FeedState, i: int)
    requires
        0 <= i < ks.len(),
    ensures
        feed_keys(ks.take(i + 1), st) == feed_step(feed_keys(ks.take(i), st), ks[i]),
{
    assert(ks.take(i + 1).drop_last() =~= ks.take(i));
    assert(ks.take(i + 1).last() == ks[i]);
}

/// The records emitted during the history phase, in order; the feeder's
/// final state matches the fold of the history keys.
pub fn feed_history_lines(
    feeder: &mut Feeder,
    lines: &Vec<Vec<u8>>,
    cwd: &Vec<u8>,
    home: &Vec<u8>,
    global: bool,
) -> (out: Vec<Vec<u8>>)
    ensures
        ({
            let st2 = feed_history(
                views(lines@),
                cwd@,
                home@,
                global,
                (Seq::<Seq<u8>>::empty(), old(feeder).seen_set()),
            );
            &&& final(feeder).seen_set() == st2.1
            &&& views(out@) == records_of(st2.0)
        }),
{
    let ghost st0: FeedState = (Seq::<Seq<u8>>::empty(), feeder.seen_set());
    let ghost ks = views(lines@).map_values(|l: Seq<u8>| history_key(l, cwd@, home@, global));
    let mut out: Vec<Vec<u8>> = Vec::new();
    proof {
        assert(ks.take(0) =~= Seq::<Option<Seq<u8>>>::empty());
        assert(views(out@) =~= records_of(feed_keys(ks.take(0), st0).0));
    }
    let mut i: usize = 0;
    while i < lines.len()
        invariant
            i <= lines@.len(),
            ks == views(lines@).map_values(|l: Seq<u8>| history_key(l, cwd@, home@, global)),
            feeder.seen_set() == feed_keys(ks.take(i as int), st0).1,
            views(out@) == records_of(feed_keys(ks.take(i as int), st0).0),
        decreases lines@.len() - i,
    {
        proof {
            lemma_feed_keys_step(ks, st0, i as int);
            assert(ks[i as int] == history_key(views(lines@)[i as int], cwd@, home@, global));
            assert(views(lines@)[i as int] == lines@[i as int]@);
        }
        let ghost sti = feed_keys(ks.take(i as int), st0);
        let r = feeder.push_history_line(&lines[i], cwd, home, global);
        match r {
            Option::Some(rec) => {
                out.push(rec);
                proof {
                    let k = history_key(lines@[i as int]@, cwd@, home@, global)->0;
                    assert(views(out@) =~= records_of(sti.0).push(k + seq![NEWLINE]));
                    assert(records_of(sti.0).push(k + seq![NEWLINE]) =~= records_of(
                        sti.0.push(k),
                    ));
                }
            },
            Option::None => {},
        }
        i = i + 1;
    }
    proof {
        assert(ks.take(ks.len() as int) =~= ks);
    }
    out
}

/// The records emitted during the live-scan phase, in order; the feeder's
/// final state matches the fold of the scan keys.
pub fn feed_scan_lines(feeder: &mut Feeder, lines: &Vec<Vec<u8>>, home: &Vec<u8>) -> (out: Vec<
    Vec<u8>,
>)
    ensures
        ({
            let st2 = feed_scan(
                views(lines@),
                home@,
                (Seq::<Seq<u8>>::empty(), old(feeder).seen_set()),
            );
            &&& final(feeder).seen_set() == st2.1
            &&& views(out@) == records_of(st2.0)
        }),
{
    let ghost st0: FeedState = (Seq::<Seq<u8>>::empty(), feeder.seen_set());
    let ghost ks = views(lines@).map_values(|l: Seq<u8>| scan_key(l, home@));
    let mut out: Vec<Vec<u8>> = Vec::new();
    proof {
        assert(ks.take(0) =~= Seq::<Option<Seq<u8>>>::empty());
        assert(views(out@) =~= records_of(feed_keys(ks.take(0), st0).0));
    }
    let mut i: usize = 0;
    while i < lines.len()
        invariant
            i <= lines@.len(),
            ks == views(lines@).map_values(|l: Seq<u8>| scan_key(l, home@)),
            feeder.seen_set() == feed_keys(ks.take(i as int), st0).1,
            views(out@) == records_of(feed_keys(ks.take(i as int), st0).0),
        decreases lines@.len() - i,
    {
        proof {
            lemma_feed_keys_step(ks, st0, i as int);
            assert(ks[i as int] == scan_key(views(lines@)[i as int], home@));
            assert(views(lines@)[i as int] == lines@[i as int]@);
        }
        let ghost sti = feed_keys(ks.take(i as int), st0);
        let r = feeder.push_scan_line(&lines[i], home);
        match r {
            Option::Some(rec) => {
                out.push(rec);
                proof {
                    let k = scan_key(lines@[i as int]@, home@)->0;
                    assert(views(out@) =~= records_of(sti.0).push(k + seq![NEWLINE]));
                    assert(records_of(sti.0).push(k + seq![NEWLINE]) =~= records_of(
                        sti.0.push(k),
                    ));
                }
            },
            Option::None => {},
        }
        i = i + 1;
    }
    proof {
        assert(ks.take(ks.len() as int) =~= ks);
    }
    out
}

/// The whole merged feed as one byte stream: every record of the
/// history-derived portion, then every new record of the live scan, each
/// newline-terminated.
pub fn merged_feed(
    history_lines: &Vec<Vec<u8>>,
    scan_lines: &Vec<Vec<u8>>,
    cwd: &Vec<u8>,
    home: &Vec<u8>,
    global: bool,
) -> (out: Vec<u8>)
    ensures
        out@ == join_records(
            merged_feed_keys(views(history_lines@), views(scan_lines@), cwd@, home@, global),
        ),
{
    let mut feeder = Feeder::new();
    let mut recs = feed_history_lines(&mut feeder, history_lines, cwd, home, global);
    let mut recs2 = feed_scan_lines(&mut feeder, scan_lines, home);
    let ghost keys = merged_feed_keys(views(history_lines@), views(scan_lines@), cwd@, home@, global);
    let ghost r1v = views(recs@);
    let ghost r2v = views(recs2@);
    recs.append(&mut recs2);
    proof {
        let st1 = feed_history(
            views(history_lines@),
            cwd@,
            home@,
            global,
            (Seq::<Seq<u8>>::empty(), Set::<Seq<u8>>::empty()),
        );
        let st2 = feed_scan(views(scan_lines@), home@, (Seq::<Seq<u8>>::empty(), st1.1));
        assert(r1v == records_of(st1.0));
        assert(r2v == records_of(st2.0));
        assert(keys == st1.0 + st2.0);
        assert(views(recs@) =~= r1v + r2v);
        assert(records_of(st1.0) + records_of(st2.0) =~= records_of(st1.0 + st2.0));
        assert(views(recs@) == records_of(keys));
    }
    let mut out: Vec<u8> = Vec::new();
    proof {
        assert(keys.take(0) =~= Seq::<Seq<u8>>::empty());
    }
    let mut i: usize = 0;
    while i < recs.len()
        invariant
            i <= recs@.len(),
            views(recs@) == records_of(keys),
            out@ == join_records(keys.take(i as int)),
        decreases recs@.len() - i,
    {
        push_all(&mut out, &recs[i]);
        proof {
            assert(views(recs@).len() == recs@.len());
            assert(records_of(keys).len() == keys.len());
            assert(i < keys.len());
            assert(keys.take(i as int + 1).drop_last() =~= keys.take(i as int));
            assert(keys.take(i as int + 1).last() == keys[i as int]);
            assert(views(recs@)[i as int] == recs@[i as int]@);
            assert(records_of(keys)[i as int] == keys[i as int] + seq![NEWLINE]);
            assert(recs@[i as int]@ == keys[i as int] + seq![NEWLINE]);
            assert(out@ =~= join_records(keys.take(i as int)) + keys[i as int] + seq![NEWLINE]);
        }
        i = i + 1;
    }
    proof {
        assert(keys.take(keys.len() as int) =~= keys);
    }
    out
}

} // verus!
