use vstd::prelude::*;
use vstd::slice::slice_subrange;
use crate::stat::{Stat, StatModel, empty_stat, observed, stat_wf};
use crate::scan::{Obs, scan_obs, scan_next, lemma_scan_step, lemma_parse_num_bounds, SEMI, NL};
use crate::bytes::find_byte;
use crate::interner::{Interner, names_contain};
use crate::parser::parse_number;

verus! {

/// The statistic stored for `id`, with absence read as the empty statistic.
pub open spec fn stat_at(tbl: Seq<StatModel>, id: int) -> StatModel {
    if 0 <= id < tbl.len() {
        tbl[id]
    } else {
        empty_stat()
    }
}

/// Interning one key at the spec level: an unseen key is appended.
pub open spec fn intern_names(names: Seq<Seq<u8>>, k: Seq<u8>) -> Seq<Seq<u8>> {
    if names_contain(names, k) {
        names
    } else {
        names.push(k)
    }
}

/// The identifier that interning resolves `k` to: its index if seen, else the
/// next free one.
pub open spec fn intern_id(names: Seq<Seq<u8>>, k: Seq<u8>) -> int {
    if names_contain(names, k) {
        choose|i: int| 0 <= i < names.len() && names[i] == k
    } else {
        names.len() as int
    }
}

/// Pad a table with empty statistics until it covers `n` identifiers.
pub open spec fn grow_to(tbl: Seq<StatModel>, n: int) -> Seq<StatModel> {
    if n <= tbl.len() {
        tbl
    } else {
        Seq::new(n as nat, |i: int| stat_at(tbl, i))
    }
}

/// Folding a single observation into a local table: resolve the key, make
/// room for its identifier, and observe the value there.
pub open spec fn feed_one_table(names: Seq<Seq<u8>>, tbl: Seq<StatModel>, ob: Obs) -> Seq<
    StatModel,
> {
    let id = intern_id(names, ob.key);
    grow_to(tbl, id + 1).update(id, observed(stat_at(tbl, id), ob.tenths))
}

/// The interned keys after a whole observation list has been folded in.
pub open spec fn feed_names(names: Seq<Seq<u8>>, obs: Seq<Obs>) -> Seq<Seq<u8>>
    decreases obs.len(),
{
    if obs.len() == 0 {
        names
    } else {
        feed_names(intern_names(names, obs[0].key), obs.drop_first())
    }
}

/// The local table after a whole observation list has been folded in.
pub open spec fn feed_table(names: Seq<Seq<u8>>, tbl: Seq<StatModel>, obs: Seq<Obs>) -> Seq<
    StatModel,
>
    decreases obs.len(),
{
    if obs.len() == 0 {
        tbl
    } else {
        feed_table(
            intern_names(names, obs[0].key),
            feed_one_table(names, tbl, obs[0]),
            obs.drop_first(),
        )
    }
}

pub proof fn lemma_feed_names_snoc(names: Seq<Seq<u8>>, obs: Seq<Obs>, ob: Obs)
    ensures
        feed_names(names, obs.push(ob)) == intern_names(feed_names(names, obs), ob.key),
    decreases obs.len(),
{
    let w = obs.push(ob);
    assert(w.len() == obs.len() + 1);
    if obs.len() == 0 {
        assert(w[0] == ob);
        assert(w.drop_first() =~= Seq::<Obs>::empty());
        assert(feed_names(names, w) == feed_names(intern_names(names, ob.key), w.drop_first()));
        assert(feed_names(intern_names(names, ob.key), w.drop_first()) == intern_names(
            names,
            ob.key,
        ));
        assert(feed_names(names, obs) == names);
    } else {
        assert(w[0] == obs[0]);
        assert(w.drop_first() =~= obs.drop_first().push(ob));
        assert(feed_names(names, w) == feed_names(
            intern_names(names, obs[0].key),
            obs.drop_first().push(ob),
        ));
        lemma_feed_names_snoc(intern_names(names, obs[0].key), obs.drop_first(), ob);
        assert(feed_names(names, obs) == feed_names(
            intern_names(names, obs[0].key),
            obs.drop_first(),
        ));
    }
}

pub proof fn lemma_feed_table_snoc(names: Seq<Seq<u8>>, tbl: Seq<StatModel>, obs: Seq<Obs>, ob: Obs)
    ensures
        feed_table(names, tbl, obs.push(ob)) == feed_one_table(
            feed_names(names, obs),
            feed_table(names, tbl, obs),
            ob,
        ),
    decreases obs.len(),
{
    let w = obs.push(ob);
    assert(w.len() == obs.len() + 1);
    if obs.len() == 0 {
        assert(w[0] == ob);
        assert(w.drop_first() =~= Seq::<Obs>::empty());
        assert(feed_table(names, tbl, w) == feed_table(
            intern_names(names, ob.key),
            feed_one_table(names, tbl, ob),
            w.drop_first(),
        ));
        assert(feed_table(names, tbl, obs) == tbl);
        assert(feed_names(names, obs) == names);
    } else {
        assert(w[0] == obs[0]);
        assert(w.drop_first() =~= obs.drop_first().push(ob));
        assert(feed_table(names, tbl, w) == feed_table(
            intern_names(names, obs[0].key),
            feed_one_table(names, tbl, obs[0]),
            obs.drop_first().push(ob),
        ));
        lemma_feed_table_snoc(
            intern_names(names, obs[0].key),
            feed_one_table(names, tbl, obs[0]),
            obs.drop_first(),
            ob,
        );
        lemma_feed_names_snoc(names, obs, ob);
        assert(feed_names(names, obs) == feed_names(
            intern_names(names, obs[0].key),
            obs.drop_first(),
        ));
        assert(feed_table(names, tbl, obs) == feed_table(
            intern_names(names, obs[0].key),
            feed_one_table(names, tbl, obs[0]),
            obs.drop_first(),
        ));
    }
}

/// A per-worker accumulator: statistics indexed densely by identifier,
/// private to one worker until it is merged.
pub struct LocalAcc {
    stats: Vec<Stat>,
}

impl View for LocalAcc {
    type V = Seq<StatModel>;

    closed spec fn view(&self) -> Seq<StatModel> {
        Seq::new(self.stats@.len(), |i: int| self.stats@[i]@)
    }
}

impl LocalAcc {
    /// Every stored statistic is well formed.
    pub open spec fn wf(&self) -> bool {
        forall|i: int| 0 <= i < self@.len() ==> stat_wf(#[trigger] self@[i])
    }

    /// A fresh, empty accumulator.
    pub fn new() -> (r: LocalAcc)
        ensures
            r@ == Seq::<StatModel>::empty(),
            r.wf(),
    {
        let r = LocalAcc { stats: Vec::new() };
        proof {
            assert(r@ =~= Seq::<StatModel>::empty());
        }
        r
    }

    /// How many identifiers the table covers.
    pub fn len(&self) -> (r: usize)
        ensures
            r == self@.len(),
    {
        self.stats.len()
    }

    /// The statistic stored for `id`.
    pub fn stat_of(&self, id: usize) -> (r: Stat)
        requires
            id < self@.len(),
        ensures
            r@ == self@[id as int],
    {
        self.stats[id]
    }

    /// Fold one observation of `v` tenths into the statistic for `id`,
    /// growing the table with empty statistics as needed.
    pub fn observe_at(&mut self, id: usize, v: i32)
        requires
            old(self).wf(),
            stat_at(old(self)@, id as int).count < u64::MAX,
        ensures
            final(self).wf(),
            final(self)@ == grow_to(old(self)@, id as int + 1).update(
                id as int,
                observed(stat_at(old(self)@, id as int), v as int),
            ),
    {
        while self.stats.len() <= id
            invariant
                old(self).wf(),
                self@.len() <= id + 1 || self@.len() == old(self)@.len(),
                old(self)@.len() <= self@.len() || self@.len() == old(self)@.len(),
                forall|j: int| 0 <= j < self@.len() ==> self@[j] == stat_at(old(self)@, j),
            decreases id + 1 - self.stats.len(),
        {
            self.stats.push(Stat::empty());
            proof {
                assert(forall|j: int|
                    0 <= j < self@.len() ==> self@[j] == stat_at(old(self)@, j));
            }
        }
        proof {
            assert(self@ =~= grow_to(old(self)@, id as int + 1));
        }
        let mut st = self.stats[id];
        proof {
            assert(st@ == stat_at(old(self)@, id as int));
        }
        st.observe(v);
        let ghost pre = self@;
        self.stats[id] = st;
        proof {
            assert(self@ =~= pre.update(id as int, st@));
        }
    }
}

/// Scan the record-aligned window `[lo, hi)` of `buf`, resolving each key
/// through the shared interner and folding each well-formed value into the
/// local accumulator, exactly as the observation list of the window says.
pub fn process_chunk(buf: &[u8], lo: usize, hi: usize, it: &mut Interner, acc: &mut LocalAcc)
    requires
        lo <= hi <= buf@.len(),
        old(it).wf(),
        old(acc)@.len() == 0,
        old(acc).wf(),
    ensures
        final(it).wf(),
        final(acc).wf(),
        final(it)@ == feed_names(old(it)@, scan_obs(buf@, lo as int, hi as int)),
        final(acc)@ == feed_table(
            old(it)@,
            Seq::<StatModel>::empty(),
            scan_obs(buf@, lo as int, hi as int),
        ),
{
    let ghost names0 = old(it)@;
    let ghost obs_all = scan_obs(buf@, lo as int, hi as int);
    let ghost mut done = Seq::<Obs>::empty();
    proof {
        assert(old(acc)@ =~= Seq::<StatModel>::empty());
        assert(obs_all == done + scan_obs(buf@, lo as int, hi as int)) by {
            assert(done + scan_obs(buf@, lo as int, hi as int) =~= scan_obs(
                buf@,
                lo as int,
                hi as int,
            ));
        }
    }
    let mut i: usize = lo;
    while i < hi
        invariant
            lo <= i <= hi <= buf@.len(),
            it.wf(),
            acc.wf(),
            obs_all == scan_obs(buf@, lo as int, hi as int),
            obs_all == done + scan_obs(buf@, i as int, hi as int),
            it@ == feed_names(names0, done),
            acc@ == feed_table(names0, Seq::<StatModel>::empty(), done),
            forall|id: int| stat_at(acc@, id).count <= done.len(),
            2 * done.len() <= i - lo,
        decreases hi - i,
    {
        let ghost it_pre = it@;
        let ghost acc_pre = acc@;
        match find_byte(buf, SEMI, i, hi) {
            None => {
                proof {
                    assert(scan_obs(buf@, i as int, hi as int) =~= Seq::<Obs>::empty());
                    assert(done + Seq::<Obs>::empty() =~= done);
                    assert(scan_obs(buf@, hi as int, hi as int) =~= Seq::<Obs>::empty());
                    assert(done + scan_obs(buf@, hi as int, hi as int) =~= done);
                }
                i = hi;
            },
            Some(s) => {
                proof {
                    lemma_scan_step(buf@, i as int, hi as int);
                    lemma_parse_num_bounds(buf@, s as int + 1, hi as int);
                }
                let parsed = parse_number(buf, s + 1, hi);
                let num_end = parsed.1;
                let next: usize = match find_byte(buf, NL, num_end, hi) {
                    Some(nl) => nl + 1,
                    None => hi,
                };
                proof {
                    assert(next == scan_next(buf@, i as int, hi as int));
                }
                match parsed.0 {
                    Some(v) => {
                        let ghost ob = Obs {
                            key: buf@.subrange(i as int, s as int),
                            tenths: v as int,
                        };
                        proof {
                            assert(scan_obs(buf@, i as int, hi as int) == seq![ob] + scan_obs(
                                buf@,
                                next as int,
                                hi as int,
                            ));
                        }
                        let key = slice_subrange(buf, i, s);
                        let id = it.get_or_add(key);
                        proof {
                            assert(id == intern_id(it_pre, ob.key));
                            assert(it@ == intern_names(it_pre, ob.key));
                            assert(stat_at(acc@, id as int).count < u64::MAX);
                        }
                        acc.observe_at(id, v);
                        proof {
                            assert(acc@ == feed_one_table(it_pre, acc_pre, ob));
                            lemma_feed_names_snoc(names0, done, ob);
                            lemma_feed_table_snoc(
                                names0,
                                Seq::<StatModel>::empty(),
                                done,
                                ob,
                            );
                            let acc_mid = acc@;
                            done = done.push(ob);
                            assert(forall|idx: int|
                                stat_at(acc_mid, idx).count <= done.len()) by {
                                assert(forall|idx: int|
                                    idx != id ==> stat_at(acc_mid, idx) == stat_at(
                                        acc_pre,
                                        idx,
                                    ));
                                assert(stat_at(acc_mid, id as int).count <= stat_at(
                                    acc_pre,
                                    id as int,
                                ).count + 1);
                            }
                            assert(obs_all == done + scan_obs(buf@, next as int, hi as int)) by {
                                assert(done + scan_obs(buf@, next as int, hi as int) =~= done
                                    .drop_last() + (seq![ob] + scan_obs(
                                    buf@,
                                    next as int,
                                    hi as int,
                                )));
                            }
                        }
                    },
                    None => {
                    },
                }
                i = next;
            },
        }
    }
    proof {
        assert(scan_obs(buf@, i as int, hi as int) =~= Seq::<Obs>::empty());
        assert(done =~= obs_all) by {
            assert(done + scan_obs(buf@, i as int, hi as int) =~= done);
        }
        assert(done == obs_all);
    }
}

} // verus!
