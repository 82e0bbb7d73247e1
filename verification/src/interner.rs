use vstd::prelude::*;
use vstd::slice::slice_to_vec;

verus! {

#[verifier::external_type_specification]
#[verifier::external_body]
#[verifier::reject_recursive_types(K)]
#[verifier::reject_recursive_types(V)]
#[verifier::reject_recursive_types(S)]
pub struct ExDashMap<K, V, S>(dashmap::DashMap<K, V, S>);

/// The forward map type: concurrent lookup from owned key bytes to
/// identifiers.
pub type Forward = dashmap::DashMap<Vec<u8>, usize>;

/// The entries that a forward map holds, as a mathematical map from key bytes
/// to identifiers.
pub uninterp spec fn dm_contents(m: Forward) -> Map<Seq<u8>, usize>;

/// Relies on dashmap::DashMap::with_capacity: a freshly created map holds no
/// entries.
#[verifier::external_body]
fn dm_new() -> (created: Forward)
    ensures
        (match created { c => dm_contents(c) == Map::<Seq<u8>, usize>::empty() }),
{
    dashmap::DashMap::with_capacity(1024)
}

/// Relies on dashmap::DashMap::get: it returns the value stored under the
/// exact key bytes, or `None` if no entry has those bytes as its key.
#[verifier::external_body]
fn dm_get(m: &Forward, key: &[u8]) -> (r: Option<usize>)
    ensures
        r == (if dm_contents(*m).dom().contains(key@) {
            Some(dm_contents(*m)[key@])
        } else {
            None::<usize>
        }),
{
    match m.get(key) {
        Some(entry) => Some(*entry),
        None => None,
    }
}

/// Relies on dashmap::DashMap::insert: it stores `v` under `k`, replacing any
/// older entry with the same key bytes and leaving every other entry as it
/// was, and returns the replaced value if there was one.
#[verifier::external_body]
fn dm_insert(m: &mut Forward, k: Vec<u8>, v: usize) -> (r: Option<usize>)
    ensures
        dm_contents(*final(m)) == dm_contents(*old(m)).insert(k@, v),
        r == (if dm_contents(*old(m)).dom().contains(k@) {
            Some(dm_contents(*old(m))[k@])
        } else {
            None::<usize>
        }),
{
    m.insert(k, v)
}

/// Does the sequence of interned keys already hold `k`?
pub open spec fn names_contain(names: Seq<Seq<u8>>, k: Seq<u8>) -> bool {
    exists|i: int| 0 <= i < names.len() && names[i] == k
}

/// Assigns a small dense identifier to each distinct key: an owned copy of
/// the key bytes sits at index `id` of `names`, and the forward map, shared
/// for concurrent lookup, maps the key bytes back to `id`.
pub struct Interner {
    names: Vec<Vec<u8>>,
    forward: Forward,
}

impl View for Interner {
    type V = Seq<Seq<u8>>;

    closed spec fn view(&self) -> Seq<Seq<u8>> {
        self.names.deep_view()
    }
}

/// What the forward map answers for key bytes `k`: the identifier stored
/// under `k`, if any.
pub closed spec fn fwd_lookup(it: &Interner, k: Seq<u8>) -> Option<int> {
    if dm_contents(it.forward).dom().contains(k) {
        Some(dm_contents(it.forward)[k] as int)
    } else {
        None
    }
}

impl Interner {
    /// The interner's invariant: interned keys are pairwise distinct, and the
    /// reverse sequence and the forward map agree in both directions.
    pub closed spec fn wf(&self) -> bool {
        &&& (forall|i: int, j: int| 0 <= i < j < self@.len() ==> self@[i] != self@[j])
        &&& (forall|i: int|
            0 <= i < self@.len() ==> fwd_lookup(self, #[trigger] self@[i]) == Some(i))
        &&& (forall|k: Seq<u8>|
            #[trigger] dm_contents(self.forward).dom().contains(k) ==> {
                let id = dm_contents(self.forward)[k] as int;
                0 <= id < self@.len() && self@[id] == k
            })
    }

    /// A fresh interner with no keys.
    pub fn new() -> (r: Interner)
        ensures
            r.wf(),
            r@ == Seq::<Seq<u8>>::empty(),
    {
        let r = Interner { names: Vec::new(), forward: dm_new() };
        proof {
            assert(r@ =~= Seq::<Seq<u8>>::empty());
        }
        r
    }

    /// Resolve key bytes to their identifier, assigning the next free one on
    /// first sight. The same bytes always resolve to the same identifier, and
    /// a fresh key is appended to the reverse sequence, so identifiers stay
    /// dense and in first-seen order.
    pub fn get_or_add(&mut self, key: &[u8]) -> (id: usize)
        requires
            old(self).wf(),
        ensures
            final(self).wf(),
            id < final(self)@.len(),
            final(self)@[id as int] == key@,
            (if names_contain(old(self)@, key@) {
                final(self)@ == old(self)@
            } else {
                final(self)@ == old(self)@.push(key@) && id == old(self)@.len()
            }),
            forall|j: int| 0 <= j < old(self)@.len() && old(self)@[j] == key@ ==> id == j,
    {
        match dm_get(&self.forward, key) {
            Some(id) => {
                proof {
                    assert(names_contain(self@, key@));
                }
                id
            },
            None => {
                let id = self.names.len();
                let owned = slice_to_vec(key);
                self.names.push(owned);
                let owned_for_map = slice_to_vec(key);
                dm_insert(&mut self.forward, owned_for_map, id);
                proof {
                    let pre = old(self)@;
                    assert(!names_contain(pre, key@)) by {
                        assert(forall|i: int|
                            0 <= i < pre.len() ==> fwd_lookup(old(self), #[trigger] pre[i]) == Some(
                                i,
                            ));
                    }
                    assert(self@ =~~= pre.push(key@));
                }
                id
            },
        }
    }

    /// How many distinct keys have been interned.
    pub fn len(&self) -> (r: usize)
        ensures
            r == self@.len(),
    {
        self.names.len()
    }

    /// Give up the interner and keep only the reverse mapping, for the
    /// reporting phase.
    pub fn into_names(self) -> (r: Vec<Vec<u8>>)
        ensures
            r.deep_view() == self@,
    {
        self.names
    }

    /// The interned keys, indexed by identifier: the stable snapshot used for
    /// reporting once all workers are done.
    pub fn names(&self) -> (r: &Vec<Vec<u8>>)
        ensures
            r.deep_view() == self@,
    {
        &self.names
    }
}

/// After any amount of interning, identifiers and keys are in bijection:
/// distinct identifiers name distinct keys, and looking a key up through the
/// forward map gives back the identifier it sits under in `names`.
pub proof fn lemma_interner_bijection(it: &Interner)
    requires
        it.wf(),
    ensures
        forall|i: int, j: int| 0 <= i < j < it@.len() ==> it@[i] != it@[j],
        forall|i: int| 0 <= i < it@.len() ==> fwd_lookup(it, #[trigger] it@[i]) == Some(i),
{
}

} // verus!
