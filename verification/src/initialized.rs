//! The instances that a resolution constructed, each to be taken out once.
use vstd::prelude::*;
use std::collections::HashMap;
use vstd::std_specs::iter::IteratorSpec;
use crate::cache::Cache;

verus! {

broadcast use vstd::std_specs::hash::group_hash_axioms;

/// Everything that a resolution constructed. Take an instance out with
/// [`InitializedTree::take`]; it is handed out once and is gone afterwards.
pub struct InitializedTree<V> {
    tree: HashMap<u64, V>,
    cache: Option<Cache>,
    cache_was_correct: bool,
    order: Ghost<Seq<u64>>,
}

impl<V> View for InitializedTree<V> {
    type V = Map<u64, V>;

    /// The instances that have not been taken yet, by identity.
    closed spec fn view(&self) -> Map<u64, V> {
        self.tree@
    }
}

impl<V> Default for InitializedTree<V> {
    /// A container with no instance and no cache.
    fn default() -> (empty: Self)
        ensures
            empty@ == Map::<u64, V>::empty(),
            empty.cache() is None,
            !empty.was_correct(),
            empty.order() == Seq::<u64>::empty(),
    {
        InitializedTree {
            tree: HashMap::new(),
            cache: None,
            cache_was_correct: false,
            order: Ghost(Seq::empty()),
        }
    }
}

/// Taking the instance of `id` out of `held`: what is handed out, and what is
/// left.
pub open spec fn taken<V>(held: Map<u64, V>, id: u64) -> (Option<V>, Map<u64, V>) {
    (
        if held.contains_key(id) {
            Some(held[id])
        } else {
            None
        },
        held.remove(id),
    )
}

impl<V> InitializedTree<V> {
    /// The steps of the cache that this resolution recorded, if it recorded
    /// one and the cache has not been taken.
    pub closed spec fn cache(self) -> Option<Seq<usize>> {
        match self.cache {
            Some(cache) => Some(cache@),
            None => None,
        }
    }

    /// Whether the resolution only had to follow the cache that was loaded.
    pub closed spec fn was_correct(self) -> bool {
        self.cache_was_correct
    }

    /// The identities in the order in which the resolution constructed them.
    pub closed spec fn order(self) -> Seq<u64> {
        self.order@
    }

    /// Puts the outcome of a resolution together.
    pub(crate) fn assemble(
        tree: HashMap<u64, V>,
        cache: Option<Cache>,
        cache_was_correct: bool,
        Ghost(order): Ghost<Seq<u64>>,
    ) -> (done: Self)
        ensures
            done@ == tree@,
            done.cache() == (match cache {
                Some(c) => Some(c@),
                None => None,
            }),
            done.was_correct() == cache_was_correct,
            done.order() == order,
    {
        InitializedTree { tree, cache, cache_was_correct, order: Ghost(order) }
    }

    /// Removes the instance of component `id` and returns it. Gives `None` if
    /// the component was never constructed or its instance was taken before.
    pub fn take(&mut self, id: u64) -> (instance: Option<V>)
        ensures
            (instance, final(self)@) == taken(old(self)@, id),
            final(self).cache() == old(self).cache(),
            final(self).was_correct() == old(self).was_correct(),
            final(self).order() == old(self).order(),
    {
        self.take_by_type_id(id)
    }

    /// Removes the instance of the component whose identity is `t`, which the
    /// caller learned at run time, and returns it.
    pub fn take_by_type_id(&mut self, t: u64) -> (instance: Option<V>)
        ensures
            (instance, final(self)@) == taken(old(self)@, t),
            final(self).cache() == old(self).cache(),
            final(self).was_correct() == old(self).was_correct(),
            final(self).order() == old(self).order(),
    {
        self.tree.remove(&t)
    }

    /// Hands out every instance that is left, paired with its identity, in no
    /// particular order.
    pub fn take_all(self) -> (all: Vec<(u64, V)>)
        ensures
            all@.len() == self@.dom().len(),
            forall|i: int|
                0 <= i < all@.len() ==> self@.contains_key((#[trigger] all@[i]).0)
                    && self@[all@[i].0] == all@[i].1,
            forall|i: int, j: int| 0 <= i < j < all@.len() ==> all@[i].0 != all@[j].0,
            forall|id: u64|
                self@.contains_key(id) ==> exists|i: int|
                    0 <= i < all@.len() && (#[trigger] all@[i]).0 == id,
    {
        let mut tree = self.tree;
        let mut ids: Vec<u64> = Vec::new();
        for id in it: tree.keys()
            invariant
                ids@.len() == it.index(),
                forall|i: int| 0 <= i < ids@.len() ==> ids@[i] == *it.seq()[i],
        {
            ids.push(*id);
        }
        proof {
            let keys = vstd::std_specs::hash::spec_keys_iter(&tree).remaining();
            assert(ids@ =~= keys.unref());
            assert forall|k: int| 0 <= k < ids@.len() implies self@.contains_key(
                #[trigger] ids@[k],
            ) by {
                assert(ids@.to_set().contains(ids@[k]));
            }
            assert(ids@.to_set() == self@.dom());
        }
        let mut all: Vec<(u64, V)> = Vec::new();
        let mut i: usize = 0;
        while i < ids.len()
            invariant
                i <= ids@.len(),
                ids@.no_duplicates(),
                ids@.len() == self@.dom().len(),
                ids@.to_set() == self@.dom(),
                forall|k: int| 0 <= k < ids@.len() ==> self@.contains_key(#[trigger] ids@[k]),
                all@.len() == i,
                forall|k: int|
                    0 <= k < i ==> (#[trigger] all@[k]).0 == ids@[k] && self@[ids@[k]]
                        == all@[k].1,
                forall|id: u64| #[trigger]
                    tree@.contains_key(id) <==> self@.contains_key(id) && !crate::engine::lent(
                        ids@,
                        i as int,
                        id,
                    ),
                forall|id: u64| tree@.contains_key(id) ==> #[trigger] tree@[id] == self@[id],
            decreases ids@.len() - i,
        {
            let id: u64 = ids[i];
            assert(tree@.contains_key(id));
            match tree.remove(&id) {
                Some(instance) => {
                    all.push((id, instance));
                },
                None => {},
            }
            i += 1;
        }
        proof {
            assert forall|id: u64| self@.contains_key(id) implies exists|i: int|
                0 <= i < all@.len() && (#[trigger] all@[i]).0 == id by {
                assert(ids@.to_set().contains(id));
                let k = choose|k: int| 0 <= k < ids@.len() && ids@[k] == id;
                assert(all@[k].0 == id);
            }
        }
        all
    }

    /// Hands out the cache that the resolution recorded, if caching was
    /// enabled and the cache has not been taken yet.
    pub fn take_cache(&mut self) -> (cache: Option<Cache>)
        ensures
            old(self).cache() == (match cache {
                Some(c) => Some(c@),
                None => None,
            }),
            final(self).cache() is None,
            final(self)@ == old(self)@,
            final(self).was_correct() == old(self).was_correct(),
            final(self).order() == old(self).order(),
    {
        self.cache.take()
    }

    /// Whether a cache was loaded and proved right at every step, so that the
    /// resolution had nothing left to find out.
    pub fn cache_was_correct(&self) -> (correct: bool)
        ensures
            correct == self.was_correct(),
    {
        self.cache_was_correct
    }
}

} // verus!
