use vstd::prelude::*;
use crate::accum::{LocalAcc, stat_at};
use crate::stat::{
    Stat, StatModel, empty_stat, combine, stat_wf, lemma_combine_wf, lemma_combine_empty,
};

verus! {

/// The merge of the statistics stored for `id` across a list of local
/// tables, folded left to right, with the empty statistic as the start.
pub open spec fn merged(ls: Seq<Seq<StatModel>>, id: int) -> StatModel
    decreases ls.len(),
{
    if ls.len() == 0 {
        empty_stat()
    } else {
        combine(merged(ls.drop_last(), id), stat_at(ls.last(), id))
    }
}

/// Every statistic of every table is well formed.
pub open spec fn tables_wf(ls: Seq<Seq<StatModel>>) -> bool {
    forall|j: int, i: int| 0 <= j < ls.len() ==> stat_wf(#[trigger] stat_at(ls[j], i))
}

/// The views of a list of local accumulators.
pub open spec fn local_views(ls: Seq<LocalAcc>) -> Seq<Seq<StatModel>> {
    Seq::new(ls.len(), |j: int| ls[j]@)
}

pub proof fn lemma_merged_wf(ls: Seq<Seq<StatModel>>, id: int)
    requires
        tables_wf(ls),
    ensures
        stat_wf(merged(ls, id)),
    decreases ls.len(),
{
    if ls.len() > 0 {
        assert(tables_wf(ls.drop_last())) by {
            assert(forall|j: int, i: int|
                0 <= j < ls.len() - 1 ==> stat_at(ls.drop_last()[j], i) == stat_at(ls[j], i));
        }
        lemma_merged_wf(ls.drop_last(), id);
        assert(stat_wf(stat_at(ls.last(), id)));
        lemma_combine_wf(merged(ls.drop_last(), id), stat_at(ls.last(), id));
    }
}

/// Taking one more table into the fold merges exactly that table's entry.
pub proof fn lemma_merged_take_succ(ls: Seq<Seq<StatModel>>, id: int, j: int)
    requires
        0 <= j < ls.len(),
    ensures
        merged(ls.take(j + 1), id) == combine(merged(ls.take(j), id), stat_at(ls[j], id)),
{
    assert(ls.take(j + 1).drop_last() =~= ls.take(j));
    assert(ls.take(j + 1).last() == ls[j]);
}

/// A prefix of the fold never holds more observations than the whole fold:
/// counts only grow as tables are merged in.
pub proof fn lemma_merged_prefix_bound(ls: Seq<Seq<StatModel>>, id: int, j: int)
    requires
        tables_wf(ls),
        0 <= j < ls.len(),
    ensures
        merged(ls.take(j), id).count + stat_at(ls[j], id).count <= merged(ls, id).count,
    decreases ls.len(),
{
    assert(tables_wf(ls.drop_last())) by {
        assert(forall|jj: int, i: int|
            0 <= jj < ls.len() - 1 ==> stat_at(ls.drop_last()[jj], i) == stat_at(ls[jj], i));
    }
    lemma_merged_wf(ls.drop_last(), id);
    lemma_merged_wf(ls, id);
    if j == ls.len() - 1 {
        assert(ls.take(j) =~= ls.drop_last());
    } else {
        lemma_merged_prefix_bound(ls.drop_last(), id, j);
        assert(ls.drop_last().take(j) =~= ls.take(j));
        assert(ls.drop_last()[j] == ls[j]);
        assert(stat_wf(stat_at(ls.last(), id)));
    }
}

/// An identifier that no table covers merges to nothing.
pub proof fn lemma_merged_all_empty(ls: Seq<Seq<StatModel>>, id: int)
    requires
        forall|j: int| 0 <= j < ls.len() ==> (#[trigger] ls[j]).len() <= id,
    ensures
        merged(ls, id) == empty_stat(),
    decreases ls.len(),
{
    if ls.len() > 0 {
        lemma_merged_all_empty(ls.drop_last(), id);
        assert(stat_at(ls.last(), id) == empty_stat());
    }
}

/// Merge all local accumulators into one global table of `n_ids`
/// identifiers, by the combine rule: min of mins, max of maxes, sum of sums,
/// sum of counts; identifiers absent from a local table contribute nothing.
pub fn merge(locals: &Vec<LocalAcc>, n_ids: usize) -> (r: Vec<Stat>)
    requires
        forall|j: int| 0 <= j < locals@.len() ==> (#[trigger] locals@[j]).wf(),
        forall|j: int| 0 <= j < locals@.len() ==> (#[trigger] locals@[j])@.len() <= n_ids,
        forall|id: int| merged(local_views(locals@), id).count <= u64::MAX,
    ensures
        r@.len() == n_ids,
        forall|id: int|
            0 <= id < n_ids ==> (#[trigger] r@[id])@ == merged(local_views(locals@), id),
        forall|id: int| 0 <= id < n_ids ==> stat_wf((#[trigger] r@[id])@),
{
    let ghost vs = local_views(locals@);
    proof {
        assert(tables_wf(vs)) by {
            assert(forall|j: int, i: int|
                0 <= j < vs.len() ==> stat_wf(#[trigger] stat_at(vs[j], i)));
        }
    }
    let mut r: Vec<Stat> = Vec::new();
    while r.len() < n_ids
        invariant
            r@.len() <= n_ids,
            forall|id: int| 0 <= id < r@.len() ==> (#[trigger] r@[id])@ == empty_stat(),
        decreases n_ids - r.len(),
    {
        r.push(Stat::empty());
    }
    proof {
        assert(forall|id: int|
            0 <= id < n_ids ==> (#[trigger] r@[id])@ == merged(vs.take(0), id)) by {
            assert(vs.take(0) =~= Seq::<Seq<StatModel>>::empty());
        }
    }
    let mut j: usize = 0;
    while j < locals.len()
        invariant
            j <= locals@.len(),
            r@.len() == n_ids,
            vs == local_views(locals@),
            tables_wf(vs),
            forall|jj: int| 0 <= jj < locals@.len() ==> (#[trigger] locals@[jj]).wf(),
            forall|jj: int| 0 <= jj < locals@.len() ==> (#[trigger] locals@[jj])@.len() <= n_ids,
            forall|id: int| merged(vs, id).count <= u64::MAX,
            forall|id: int|
                0 <= id < n_ids ==> (#[trigger] r@[id])@ == merged(vs.take(j as int), id),
        decreases locals@.len() - j,
    {
        let local = &locals[j];
        let n_local = local.len();
        let mut id: usize = 0;
        while id < n_local
            invariant
                j < locals@.len(),
                id <= n_local == locals@[j as int]@.len(),
                n_local <= n_ids,
                r@.len() == n_ids,
                vs == local_views(locals@),
                tables_wf(vs),
                locals@[j as int].wf(),
                local == &locals@[j as int],
                forall|idx: int| merged(vs, idx).count <= u64::MAX,
                forall|idx: int|
                    0 <= idx < id ==> (#[trigger] r@[idx])@ == merged(vs.take(j as int + 1), idx),
                forall|idx: int|
                    id <= idx < n_ids ==> (#[trigger] r@[idx])@ == merged(vs.take(j as int), idx),
            decreases n_local - id,
        {
            let st = local.stat_of(id);
            let mut g = r[id];
            proof {
                lemma_merged_wf(vs.take(j as int), id as int);
                lemma_merged_prefix_bound(vs, id as int, j as int);
                lemma_merged_wf(vs, id as int);
                assert(stat_at(vs[j as int], id as int) == st@);
            }
            g.merge_from(&st);
            r[id] = g;
            proof {
                lemma_merged_take_succ(vs, id as int, j as int);
            }
            id = id + 1;
        }
        proof {
            assert(forall|idx: int|
                n_local <= idx < n_ids ==> (#[trigger] r@[idx])@ == merged(
                    vs.take(j as int + 1),
                    idx,
                )) by {
                assert forall|idx: int| n_local <= idx < n_ids implies (#[trigger] r@[idx])@
                    == merged(vs.take(j as int + 1), idx) by {
                    lemma_merged_take_succ(vs, idx, j as int);
                    lemma_merged_wf(vs.take(j as int), idx);
                    assert(stat_at(vs[j as int], idx) == empty_stat());
                    lemma_combine_empty(merged(vs.take(j as int), idx));
                }
            }
        }
        j = j + 1;
    }
    proof {
        assert(vs.take(locals@.len() as int) =~= vs);
        assert forall|id: int| 0 <= id < n_ids implies stat_wf((#[trigger] r@[id])@) by {
            lemma_merged_wf(vs, id);
        }
    }
    r
}

} // verus!
