use vstd::prelude::*;
use crate::stat::{
    Stat, StatModel, empty_stat, single_stat, combine, observed, stat_wf, lemma_combine_assoc,
    lemma_combine_wf, lemma_combine_empty,
};
use crate::scan::{Obs, scan_obs, chunkable, line_start, lemma_scan_split, lemma_scan_obs_len};
use crate::accum::{
    stat_at, intern_names, intern_id, feed_names, feed_table, feed_one_table, LocalAcc,
    process_chunk,
};
use crate::interner::{names_contain, Interner};
use crate::chunker::split;
use crate::merger::{
    merge, merged, local_views, tables_wf, lemma_merged_wf, lemma_merged_all_empty,
};

verus! {

/// The statistic that the observations with key `k` amount to, in scan
/// order: the aggregate that a correct run must report for `k`.
pub open spec fn key_stat(obs: Seq<Obs>, k: Seq<u8>) -> StatModel
    decreases obs.len(),
{
    if obs.len() == 0 {
        empty_stat()
    } else {
        let rest = key_stat(obs.drop_first(), k);
        if obs[0].key == k {
            combine(single_stat(obs[0].tenths), rest)
        } else {
            rest
        }
    }
}

pub open spec fn distinct_names(names: Seq<Seq<u8>>) -> bool {
    forall|i: int, j: int| 0 <= i < j < names.len() ==> names[i] != names[j]
}

pub proof fn lemma_key_stat_wf(obs: Seq<Obs>, k: Seq<u8>)
    ensures
        stat_wf(key_stat(obs, k)),
    decreases obs.len(),
{
    if obs.len() > 0 {
        lemma_key_stat_wf(obs.drop_first(), k);
        if obs[0].key == k {
            lemma_combine_wf(single_stat(obs[0].tenths), key_stat(obs.drop_first(), k));
        }
    }
}

pub proof fn lemma_key_stat_count(obs: Seq<Obs>, k: Seq<u8>)
    ensures
        0 <= key_stat(obs, k).count <= obs.len(),
    decreases obs.len(),
{
    if obs.len() > 0 {
        lemma_key_stat_count(obs.drop_first(), k);
    }
}

/// A key that never occurs in the observations aggregates to nothing.
pub proof fn lemma_key_stat_absent(obs: Seq<Obs>, k: Seq<u8>)
    requires
        forall|x: int| 0 <= x < obs.len() ==> (#[trigger] obs[x]).key != k,
    ensures
        key_stat(obs, k) == empty_stat(),
    decreases obs.len(),
{
    if obs.len() > 0 {
        assert(forall|x: int|
            0 <= x < obs.len() - 1 ==> (#[trigger] obs.drop_first()[x]).key != k);
        lemma_key_stat_absent(obs.drop_first(), k);
    }
}

/// Aggregating a concatenation merges the aggregates of the parts: the
/// combine rule is a homomorphism from splitting observation lists.
pub proof fn lemma_key_stat_concat(o1: Seq<Obs>, o2: Seq<Obs>, k: Seq<u8>)
    ensures
        key_stat(o1 + o2, k) == combine(key_stat(o1, k), key_stat(o2, k)),
    decreases o1.len(),
{
    lemma_key_stat_wf(o2, k);
    if o1.len() == 0 {
        assert(o1 + o2 =~= o2);
        lemma_combine_empty(key_stat(o2, k));
    } else {
        assert((o1 + o2)[0] == o1[0]);
        assert((o1 + o2).drop_first() =~= o1.drop_first() + o2);
        lemma_key_stat_concat(o1.drop_first(), o2, k);
        if o1[0].key == k {
            lemma_key_stat_wf(o1.drop_first(), k);
            lemma_combine_assoc(
                single_stat(o1[0].tenths),
                key_stat(o1.drop_first(), k),
                key_stat(o2, k),
            );
        }
    }
}

/// Interning only appends: the keys already interned keep their identifiers.
pub proof fn lemma_feed_names_prefix(n0: Seq<Seq<u8>>, obs: Seq<Obs>)
    ensures
        n0.len() <= feed_names(n0, obs).len(),
        forall|i: int| 0 <= i < n0.len() ==> feed_names(n0, obs)[i] == n0[i],
    decreases obs.len(),
{
    if obs.len() > 0 {
        let n1 = intern_names(n0, obs[0].key);
        lemma_feed_names_prefix(n1, obs.drop_first());
        assert(n0.len() <= n1.len());
        assert(forall|i: int| 0 <= i < n0.len() ==> n1[i] == n0[i]);
        assert(forall|i: int|
            0 <= i < n0.len() ==> feed_names(n1, obs.drop_first())[i] == n1[i]);
    }
}

/// Interning keeps keys pairwise distinct.
pub proof fn lemma_feed_names_distinct(n0: Seq<Seq<u8>>, obs: Seq<Obs>)
    requires
        distinct_names(n0),
    ensures
        distinct_names(feed_names(n0, obs)),
    decreases obs.len(),
{
    if obs.len() > 0 {
        assert(distinct_names(intern_names(n0, obs[0].key)));
        lemma_feed_names_distinct(intern_names(n0, obs[0].key), obs.drop_first());
    }
}

/// Every observed key ends up interned.
pub proof fn lemma_feed_names_complete(n0: Seq<Seq<u8>>, obs: Seq<Obs>)
    ensures
        forall|x: int|
            0 <= x < obs.len() ==> names_contain(feed_names(n0, obs), (#[trigger] obs[x]).key),
    decreases obs.len(),
{
    if obs.len() > 0 {
        let n1 = intern_names(n0, obs[0].key);
        lemma_feed_names_complete(n1, obs.drop_first());
        lemma_feed_names_prefix(n1, obs.drop_first());
        assert(names_contain(n1, obs[0].key)) by {
            if !names_contain(n0, obs[0].key) {
                assert(n1[n0.len() as int] == obs[0].key);
            }
        }
        assert(names_contain(feed_names(n0, obs), obs[0].key)) by {
            let i = choose|i: int| 0 <= i < n1.len() && n1[i] == obs[0].key;
            assert(feed_names(n1, obs.drop_first())[i] == obs[0].key);
        }
        assert(forall|x: int|
            1 <= x < obs.len() ==> obs.drop_first()[x - 1] == (#[trigger] obs[x]));
    }
}

/// A key that does occur in the observations has been observed at least
/// once.
pub proof fn lemma_key_stat_present(obs: Seq<Obs>, k: Seq<u8>)
    requires
        exists|x: int| 0 <= x < obs.len() && (#[trigger] obs[x]).key == k,
    ensures
        key_stat(obs, k).count >= 1,
    decreases obs.len(),
{
    lemma_key_stat_count(obs.drop_first(), k);
    if obs[0].key != k {
        let x = choose|x: int| 0 <= x < obs.len() && (#[trigger] obs[x]).key == k;
        assert(obs.drop_first()[x - 1] == obs[x]);
        lemma_key_stat_present(obs.drop_first(), k);
    }
}

/// Every key that interning appended came from some observation.
pub proof fn lemma_feed_names_from_obs(n0: Seq<Seq<u8>>, obs: Seq<Obs>)
    ensures
        forall|id: int|
            #![trigger feed_names(n0, obs)[id]]
            n0.len() <= id < feed_names(n0, obs).len() ==> exists|x: int|
                0 <= x < obs.len() && (#[trigger] obs[x]).key == feed_names(n0, obs)[id],
    decreases obs.len(),
{
    if obs.len() > 0 {
        let n1 = intern_names(n0, obs[0].key);
        lemma_feed_names_from_obs(n1, obs.drop_first());
        lemma_feed_names_prefix(n1, obs.drop_first());
        assert forall|id: int|
            #![trigger feed_names(n0, obs)[id]]
            n0.len() <= id < feed_names(n0, obs).len() implies exists|x: int|
            0 <= x < obs.len() && (#[trigger] obs[x]).key == feed_names(n0, obs)[id] by {
            if id < n1.len() {
                assert(feed_names(n0, obs)[id] == n1[id] && n1[id] == obs[0].key);
                assert(obs[0].key == feed_names(n0, obs)[id] && 0 <= 0 < obs.len());
            } else {
                let x = choose|x: int|
                    0 <= x < obs.drop_first().len() && (#[trigger] obs.drop_first()[x]).key
                        == feed_names(n1, obs.drop_first())[id];
                assert(obs[x + 1] == obs.drop_first()[x]);
            }
        }
    }
}

/// No identifier is ever reported with a zero count: every key the run
/// interns has at least one observation behind it, so the reported average
/// never divides by zero.
pub proof fn lemma_every_key_observed(buf: Seq<u8>)
    ensures
        forall|id: int|
            0 <= id < canonical_names(buf).len() ==> (#[trigger] canonical_stat(buf, id)).count
                >= 1,
{
    let obs = scan_obs(buf, 0, buf.len() as int);
    lemma_feed_names_from_obs(Seq::<Seq<u8>>::empty(), obs);
    assert forall|id: int| 0 <= id < canonical_names(buf).len() implies (#[trigger] canonical_stat(
        buf,
        id,
    )).count >= 1 by {
        lemma_key_stat_present(obs, canonical_names(buf)[id]);
    }
}

/// Interning a concatenation is interning the parts one after the other.
pub proof fn lemma_feed_names_concat(n0: Seq<Seq<u8>>, a: Seq<Obs>, b: Seq<Obs>)
    ensures
        feed_names(n0, a + b) == feed_names(feed_names(n0, a), b),
    decreases a.len(),
{
    if a.len() == 0 {
        assert(a + b =~= b);
    } else {
        assert((a + b)[0] == a[0]);
        assert((a + b).drop_first() =~= a.drop_first() + b);
        lemma_feed_names_concat(intern_names(n0, a[0].key), a.drop_first(), b);
    }
}

/// The closed form of folding a whole observation list: each interned key's
/// entry is its aggregate over the list, merged onto whatever the table
/// already held.
pub proof fn lemma_feed_table_closed(n0: Seq<Seq<u8>>, t0: Seq<StatModel>, obs: Seq<Obs>)
    requires
        distinct_names(n0),
        t0.len() <= n0.len(),
        forall|i: int| stat_wf(#[trigger] stat_at(t0, i)),
    ensures
        feed_table(n0, t0, obs).len() <= feed_names(n0, obs).len(),
        forall|i: int| stat_wf(#[trigger] stat_at(feed_table(n0, t0, obs), i)),
        forall|id: int|
            0 <= id < feed_names(n0, obs).len() ==> #[trigger] stat_at(feed_table(n0, t0, obs), id)
                == combine(stat_at(t0, id), key_stat(obs, feed_names(n0, obs)[id])),
    decreases obs.len(),
{
    let nf = feed_names(n0, obs);
    let tf = feed_table(n0, t0, obs);
    lemma_feed_names_distinct(n0, obs);
    if obs.len() == 0 {
        assert forall|id: int| 0 <= id < nf.len() implies #[trigger] stat_at(tf, id) == combine(
            stat_at(t0, id),
            key_stat(obs, nf[id]),
        ) by {
            lemma_combine_empty(stat_at(t0, id));
        }
    } else {
        let ob = obs[0];
        let k0 = ob.key;
        let id0 = intern_id(n0, k0);
        let n1 = intern_names(n0, k0);
        let t1 = feed_one_table(n0, t0, ob);
        assert(0 <= id0 < n1.len() && n1[id0] == k0) by {
            if names_contain(n0, k0) {
                let i = choose|i: int| 0 <= i < n0.len() && n0[i] == k0;
                assert(n0[i] == k0);
            }
        }
        assert(distinct_names(n1));
        assert(t1.len() <= n1.len());
        assert(stat_at(t1, id0) == observed(stat_at(t0, id0), ob.tenths));
        assert(forall|i: int| i != id0 ==> #[trigger] stat_at(t1, i) == stat_at(t0, i));
        assert(forall|i: int| stat_wf(#[trigger] stat_at(t1, i))) by {
            lemma_combine_wf(stat_at(t0, id0), single_stat(ob.tenths));
        }
        lemma_feed_table_closed(n1, t1, obs.drop_first());
        lemma_feed_names_prefix(n1, obs.drop_first());
        let rest = obs.drop_first();
        assert(nf == feed_names(n1, rest));
        assert(tf == feed_table(n1, t1, rest));
        assert(nf[id0] == k0);
        assert forall|id: int| 0 <= id < nf.len() implies #[trigger] stat_at(tf, id) == combine(
            stat_at(t0, id),
            key_stat(obs, nf[id]),
        ) by {
            lemma_key_stat_wf(rest, nf[id]);
            if id == id0 {
                assert(stat_at(tf, id0) == combine(stat_at(t1, id0), key_stat(rest, k0)));
                assert(key_stat(obs, k0) == combine(single_stat(ob.tenths), key_stat(rest, k0)));
                lemma_combine_assoc(
                    stat_at(t0, id0),
                    single_stat(ob.tenths),
                    key_stat(rest, k0),
                );
            } else {
                assert(nf[id] != k0);
                assert(key_stat(obs, nf[id]) == key_stat(rest, nf[id]));
                assert(stat_at(t1, id) == stat_at(t0, id));
            }
        }
    }
}

/// The observations of a list of ranges, scanned one after the other.
pub open spec fn ranges_obs(buf: Seq<u8>, rs: Seq<(int, int)>) -> Seq<Obs>
    decreases rs.len(),
{
    if rs.len() == 0 {
        Seq::empty()
    } else {
        scan_obs(buf, rs[0].0, rs[0].1) + ranges_obs(buf, rs.drop_first())
    }
}

/// A record-aligned partition of the whole buffer: consecutive ranges that
/// begin at the start, end at the end, and cut only on record boundaries.
pub open spec fn valid_partition(buf: Seq<u8>, rs: Seq<(int, int)>) -> bool {
    &&& rs.len() >= 1
    &&& rs[0].0 == 0
    &&& rs[rs.len() - 1].1 == buf.len()
    &&& (forall|k: int| 0 <= k < rs.len() ==> 0 <= (#[trigger] rs[k]).0 <= rs[k].1 <= buf.len())
    &&& (forall|k: int| 0 <= k < rs.len() - 1 ==> (#[trigger] rs[k]).1 == rs[k + 1].0)
    &&& (forall|k: int|
        0 <= k < rs.len() ==> (#[trigger] rs[k]).0 == buf.len() || line_start(buf, rs[k].0))
}

proof fn lemma_partition_obs_from(buf: Seq<u8>, rs: Seq<(int, int)>, lo: int)
    requires
        chunkable(buf),
        rs.len() >= 1,
        rs[0].0 == lo,
        rs[rs.len() - 1].1 == buf.len(),
        lo == buf.len() || line_start(buf, lo),
        forall|k: int| 0 <= k < rs.len() ==> 0 <= (#[trigger] rs[k]).0 <= rs[k].1 <= buf.len(),
        forall|k: int| 0 <= k < rs.len() - 1 ==> (#[trigger] rs[k]).1 == rs[k + 1].0,
        forall|k: int|
            0 <= k < rs.len() ==> (#[trigger] rs[k]).0 == buf.len() || line_start(buf, rs[k].0),
    ensures
        ranges_obs(buf, rs) == scan_obs(buf, lo, buf.len() as int),
    decreases rs.len(),
{
    let n = buf.len() as int;
    let hi = rs[0].1;
    if rs.len() == 1 {
        assert(ranges_obs(buf, rs) == scan_obs(buf, lo, n) + ranges_obs(buf, rs.drop_first()));
        assert(scan_obs(buf, lo, n) + Seq::<Obs>::empty() =~= scan_obs(buf, lo, n));
    } else {
        assert(rs.drop_first()[0] == rs[1]);
        assert(rs[1].0 == hi);
        lemma_partition_obs_from(buf, rs.drop_first(), hi);
        if lo == n {
            assert(hi == n);
            assert(scan_obs(buf, lo, hi) =~= Seq::<Obs>::empty());
            assert(scan_obs(buf, lo, hi) + scan_obs(buf, hi, n) =~= scan_obs(buf, lo, n));
        } else {
            if hi == n {
                lemma_scan_split(buf, lo, hi, n);
            } else {
                assert(rs[1].0 == n || line_start(buf, rs[1].0));
                if hi == lo {
                    assert(scan_obs(buf, lo, hi) =~= Seq::<Obs>::empty());
                    assert(scan_obs(buf, lo, hi) + scan_obs(buf, hi, n) =~= scan_obs(
                        buf,
                        hi,
                        n,
                    ));
                } else {
                    assert(line_start(buf, hi));
                    lemma_scan_split(buf, lo, hi, n);
                }
            }
        }
    }
}

/// Any record-aligned partition of a buffer whose every line holds a
/// delimiter yields, range by range, exactly the observations of the whole
/// buffer: the ranges lose nothing, duplicate nothing and reorder nothing.
pub proof fn lemma_partition_obs(buf: Seq<u8>, rs: Seq<(int, int)>)
    requires
        chunkable(buf),
        valid_partition(buf, rs),
    ensures
        ranges_obs(buf, rs) == scan_obs(buf, 0, buf.len() as int),
{
    lemma_partition_obs_from(buf, rs, 0);
}

/// Aggregating from any two record-aligned partitions gives the same
/// interned keys and, for every identifier, the same merged statistic: with
/// the merge rule being associative, how the buffer was cut cannot show in
/// the result.
pub proof fn lemma_partition_independent(buf: Seq<u8>, rs1: Seq<(int, int)>, rs2: Seq<(int, int)>)
    requires
        chunkable(buf),
        valid_partition(buf, rs1),
        valid_partition(buf, rs2),
    ensures
        ranges_obs(buf, rs1) == ranges_obs(buf, rs2),
        feed_names(Seq::<Seq<u8>>::empty(), ranges_obs(buf, rs1)) == canonical_names(buf),
        forall|k: Seq<u8>| key_stat(ranges_obs(buf, rs1), k) == key_stat(ranges_obs(buf, rs2), k),
{
    lemma_partition_obs(buf, rs1);
    lemma_partition_obs(buf, rs2);
}

/// Interning the same key twice changes nothing the second time and resolves
/// to the same identifier.
pub proof fn lemma_intern_idempotent(names: Seq<Seq<u8>>, k: Seq<u8>)
    requires
        distinct_names(names),
    ensures
        intern_names(intern_names(names, k), k) == intern_names(names, k),
        intern_id(intern_names(names, k), k) == intern_id(names, k),
{
    let n1 = intern_names(names, k);
    if names_contain(names, k) {
        assert(names_contain(n1, k));
    } else {
        assert(n1[names.len() as int] == k);
        assert(names_contain(n1, k));
        assert(distinct_names(n1));
        let i = choose|i: int| 0 <= i < n1.len() && n1[i] == k;
        if i < names.len() {
            assert(names[i] == k);
            assert(names_contain(names, k));
        }
        assert(i == names.len());
    }
}

/// The keys of a buffer in first-seen scan order: what the interner holds
/// after one sequential pass over the whole buffer.
pub open spec fn canonical_names(buf: Seq<u8>) -> Seq<Seq<u8>> {
    feed_names(Seq::<Seq<u8>>::empty(), scan_obs(buf, 0, buf.len() as int))
}

/// The aggregate owed to identifier `id`: the statistic of its key over the
/// whole buffer's observations.
pub open spec fn canonical_stat(buf: Seq<u8>, id: int) -> StatModel {
    key_stat(scan_obs(buf, 0, buf.len() as int), canonical_names(buf)[id])
}

/// The result of a whole run: keys indexed by identifier, and the statistic
/// for each identifier.
pub struct Summary {
    pub names: Vec<Vec<u8>>,
    pub stats: Vec<Stat>,
}

/// Run the whole pipeline over `data` with `workers` ranges: split on record
/// boundaries, scan and accumulate each range through the shared interner,
/// then merge the per-range accumulators. On any buffer whose every line
/// holds a delimiter the result is exactly the canonical aggregate of the
/// whole buffer, whatever `workers` is: the work split cannot change what is
/// reported.
pub fn aggregate(data: &[u8], workers: usize) -> (r: Summary)
    requires
        1 <= workers,
    ensures
        r.stats@.len() == r.names.deep_view().len(),
        distinct_names(r.names.deep_view()),
        forall|id: int| 0 <= id < r.stats@.len() ==> stat_wf((#[trigger] r.stats@[id])@),
        chunkable(data@) ==> {
            &&& r.names.deep_view() == canonical_names(data@)
            &&& forall|id: int|
                0 <= id < r.stats@.len() ==> (#[trigger] r.stats@[id])@ == canonical_stat(
                    data@,
                    id,
                )
        },
{
    let n = data.len();
    let ranges = split(data, workers);
    let mut it = Interner::new();
    let mut locals: Vec<LocalAcc> = Vec::new();
    let ghost mut obs_cat = Seq::<Obs>::empty();
    let ghost mut cur: int = 0;
    proof {
        assert(it@ =~= feed_names(Seq::<Seq<u8>>::empty(), obs_cat));
    }
    let mut w: usize = 0;
    while w < workers
        invariant
            1 <= workers,
            w <= workers,
            n == data@.len(),
            ranges@.len() == workers as int,
            (forall|k: int| 0 <= k < workers ==> (#[trigger] ranges@[k]).0 <= ranges@[k].1 <= n),
            ranges@[0].0 == 0,
            ranges@[workers as int - 1].1 == n,
            (forall|k: int| 0 <= k < workers - 1 ==> (#[trigger] ranges@[k]).1 == ranges@[k + 1].0),
            (forall|k: int|
                0 <= k < workers ==> (#[trigger] ranges@[k]).0 == n || line_start(
                    data@,
                    ranges@[k].0 as int,
                )),
            it.wf(),
            distinct_names(it@),
            locals@.len() == w as int,
            cur == (if w == 0 {
                0int
            } else {
                ranges@[w as int - 1].1 as int
            }),
            0 <= cur <= n,
            it@ == feed_names(Seq::<Seq<u8>>::empty(), obs_cat),
            (forall|j: int| 0 <= j < w ==> (#[trigger] locals@[j]).wf()),
            (forall|j: int| 0 <= j < w ==> (#[trigger] locals@[j])@.len() <= it@.len()),
            (forall|id: int|
                0 <= id < it@.len() ==> merged(local_views(locals@), id) == key_stat(
                    obs_cat,
                    it@[id],
                )),
            (forall|id: int| merged(local_views(locals@), id).count * 2 <= cur),
            chunkable(data@) ==> obs_cat == scan_obs(data@, 0, cur),
        decreases workers - w,
    {
        let range = ranges[w];
        let lo = range.0;
        let hi = range.1;
        proof {
            assert(lo as int == cur);
        }
        let ghost names_pre = it@;
        let ghost vs_pre = local_views(locals@);
        let mut acc = LocalAcc::new();
        process_chunk(data, lo, hi, &mut it, &mut acc);
        let ghost o_w = scan_obs(data@, lo as int, hi as int);
        locals.push(acc);
        proof {
            let names_new = it@;
            let vs_new = local_views(locals@);
            let t_w = acc@;
            assert(vs_new.drop_last() =~= vs_pre);
            assert(vs_new.last() == t_w);
            // the interner after this range is the fold of the combined list
            lemma_feed_names_concat(Seq::<Seq<u8>>::empty(), obs_cat, o_w);
            assert(names_new == feed_names(Seq::<Seq<u8>>::empty(), obs_cat + o_w));
            // closed form of the fresh local table
            assert(forall|i: int| stat_wf(#[trigger] stat_at(Seq::<StatModel>::empty(), i)));
            lemma_feed_table_closed(names_pre, Seq::<StatModel>::empty(), o_w);
            lemma_feed_names_prefix(names_pre, o_w);
            lemma_feed_names_distinct(names_pre, o_w);
            assert(t_w.len() <= names_new.len());
            assert forall|id: int| 0 <= id < names_new.len() implies #[trigger] stat_at(t_w, id)
                == key_stat(o_w, names_new[id]) by {
                lemma_key_stat_wf(o_w, names_new[id]);
                lemma_combine_empty(key_stat(o_w, names_new[id]));
            }
            // counts of this range are bounded by its width
            lemma_scan_obs_len(data@, lo as int, hi as int);
            assert(tables_wf(vs_pre)) by {
                assert(forall|j: int, i: int|
                    0 <= j < vs_pre.len() ==> stat_wf(#[trigger] stat_at(vs_pre[j], i)));
            }
            // each id's merged statistic after this range
            assert forall|id: int| 0 <= id < names_new.len() implies merged(vs_new, id)
                == key_stat(obs_cat + o_w, names_new[id]) by {
                let k = names_new[id];
                lemma_key_stat_concat(obs_cat, o_w, k);
                lemma_key_stat_wf(obs_cat, k);
                lemma_key_stat_wf(o_w, k);
                lemma_merged_wf(vs_pre, id);
                if id < names_pre.len() {
                    assert(k == names_pre[id]);
                    assert(merged(vs_pre, id) == key_stat(obs_cat, k));
                } else {
                    lemma_merged_all_empty(vs_pre, id);
                    lemma_feed_names_complete(Seq::<Seq<u8>>::empty(), obs_cat);
                    assert(forall|x: int|
                        0 <= x < obs_cat.len() ==> (#[trigger] obs_cat[x]).key != k) by {
                        assert(forall|x: int|
                            0 <= x < obs_cat.len() ==> names_contain(
                                names_pre,
                                (#[trigger] obs_cat[x]).key,
                            ));
                        assert forall|x: int| 0 <= x < obs_cat.len() implies (
                        #[trigger] obs_cat[x]).key != k by {
                            if obs_cat[x].key == k {
                                let i = choose|i: int|
                                    0 <= i < names_pre.len() && names_pre[i] == k;
                                assert(names_new[i] == k);
                            }
                        }
                    }
                    lemma_key_stat_absent(obs_cat, k);
                    lemma_combine_empty(key_stat(o_w, k));
                }
            }
            // count bound for every id
            assert forall|id: int| merged(vs_new, id).count * 2 <= hi as int by {
                lemma_merged_wf(vs_pre, id);
                if 0 <= id < names_new.len() {
                    lemma_key_stat_count(o_w, names_new[id]);
                    assert(stat_at(t_w, id).count <= o_w.len());
                } else {
                    assert(stat_at(t_w, id) == empty_stat());
                }
                assert(merged(vs_new, id).count == merged(vs_pre, id).count + stat_at(
                    t_w,
                    id,
                ).count);
            }
            // the concatenated observations are the scan of the covered prefix
            if chunkable(data@) {
                if lo == 0 {
                    assert(obs_cat =~= Seq::<Obs>::empty());
                    assert(obs_cat + o_w =~= o_w);
                } else if lo == n {
                    assert(hi == n);
                    assert(o_w =~= Seq::<Obs>::empty());
                    assert(obs_cat + o_w =~= obs_cat);
                } else {
                    assert(line_start(data@, lo as int));
                    lemma_scan_split(data@, 0, lo as int, hi as int);
                }
                assert(obs_cat + o_w == scan_obs(data@, 0, hi as int));
            }
            obs_cat = obs_cat + o_w;
            cur = hi as int;
        }
        w = w + 1;
    }
    let n_ids = it.len();
    proof {
        assert(cur == n);
        assert(tables_wf(local_views(locals@))) by {
            assert(forall|j: int, i: int|
                0 <= j < local_views(locals@).len() ==> stat_wf(
                    #[trigger] stat_at(local_views(locals@)[j], i),
                ));
        }
        assert forall|id: int| merged(local_views(locals@), id).count <= u64::MAX by {
            assert(merged(local_views(locals@), id).count * 2 <= n);
        }
    }
    let global = merge(&locals, n_ids);
    let names = it.into_names();
    Summary { names, stats: global }
}

} // verus!
