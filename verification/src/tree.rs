//! The tree of components that are to be constructed.
use vstd::prelude::*;
use std::marker::PhantomData;
use crate::cache::Cache;
use crate::collector::{deep_deps_list, defs_of};
use crate::component::{
    collect, def_of, deps_of, depth_ok, direct_deps_in, lemma_collect, lemma_declared, stable,
    tail_closed, Init,
};
use crate::dedup::{has_id, is_first_of, lemma_sorted_unique, sort_dedup, sorted_unique};
use crate::error::InitError;
use crate::initialized::InitializedTree;
use crate::internal::{
    get_type_names, ids_of, joined, names_of, views_of, DefView, TypeInitDef, MAX_TREE_DEPTH,
};
use crate::resolution::{names_conflict, Resolution};
use crate::schedule::{
    all_built, all_ready, arises, carried_out, completes, construction_order, declined_since,
    lemma_decline_refutes, lemma_replay_reachable, lemma_some_pending_is_ready,
    lemma_sweep_counts, quiet_since, replay, schedule, sound, stalled, steps_of, sweeps,
    well_behaved, Call, Progress,
};

verus! {

/// The components that were asked for, with everything that they depend on.
///
/// `V` is the family of components: the type that holds their instances and
/// says, through [`Init`], how they depend on each other and how they are
/// constructed.
pub struct InitTree<V: Init> {
    uninitialized: Vec<TypeInitDef>,
    cache: Option<Cache>,
    max_depth: u32,
    family: PhantomData<V>,
}

/// `locked` names what is left pending after calls from which instances
/// arise and after which nothing more can be constructed: at least one
/// component, each of which either lacks the instance of a direct dependency
/// or had its constructor decline since the last construction.
pub open spec fn names_stuck<V: Init>(slots: Seq<DefView>, locked: Seq<char>) -> bool {
    exists|calls: Seq<Call>, held: Map<u64, V>|
        {
            &&& #[trigger] arises::<V>(slots, calls, held)
            &&& stalled(slots, calls)
            &&& replay(slots, steps_of(calls)) matches Some(end)
            &&& end.pending.len() > 0
            &&& locked == joined(names_of(end.pending), ", "@)
        }
}

impl<V: Init> InitTree<V> {
    /// Where the family is stable: every registered descriptor is the one
    /// that the family declares; every direct dependency of a registered
    /// component is registered too; and every dependency chain fits the depth
    /// ceiling.
    #[verifier::type_invariant]
    pub closed spec fn wf(self) -> bool {
        stable::<V>() ==> {
            &&& views_of(self.uninitialized@) == defs_of::<V>(self.registered())
            &&& tail_closed::<V>(self.registered(), 0, self.max_depth as nat)
        }
    }

    /// The identities that were registered, in the order of registration. An
    /// identity occurs once for each time that it was registered or reached
    /// as a dependency.
    pub closed spec fn registered(self) -> Seq<u64> {
        ids_of(views_of(self.uninitialized@))
    }

    /// The identities that are to be constructed.
    pub open spec fn ids(self) -> Set<u64> {
        self.registered().to_set()
    }

    /// The pending descriptors as resolution starts: one for each identity, in
    /// ascending order of identity. The steps of a cache speak of positions in
    /// this sequence.
    pub open spec fn slots(self) -> Seq<DefView> {
        sorted_unique(defs_of::<V>(self.registered()))
    }

    /// The steps of the cache that is loaded, if caching is enabled.
    pub closed spec fn cache(self) -> Option<Seq<usize>> {
        match self.cache {
            Some(cache) => Some(cache@),
            None => None,
        }
    }

    /// The depth at which a dependency chain is refused.
    pub closed spec fn ceiling(self) -> nat {
        self.max_depth as nat
    }

    /// With a stable family, the pending descriptors of a well-formed tree are
    /// sound, and they represent exactly the registered identities.
    pub proof fn lemma_slots_sound(self)
        requires
            self.wf(),
            stable::<V>(),
        ensures
            sound::<V>(self.slots(), self.ceiling()),
            forall|id: u64| has_id(self.slots(), id) <==> self.ids().contains(id),
    {
        let registered = self.registered();
        let defs = defs_of::<V>(registered);
        let slots = self.slots();
        lemma_sorted_unique(defs);
        assert forall|k: int| 0 <= k < slots.len() implies #[trigger] slots[k] == def_of::<V>(
            slots[k].id,
        ) && depth_ok::<V>(slots[k].id, self.ceiling()) && registered.contains(slots[k].id) by {
            assert(is_first_of(defs, slots[k]));
            let i = choose|i: int|
                0 <= i < defs.len() && #[trigger] defs[i] == slots[k] && forall|n: int|
                    0 <= n < i ==> (#[trigger] defs[n]).id != slots[k].id;
            assert(defs[i] == def_of::<V>(registered[i]));
            assert(depth_ok::<V>(registered[i], self.ceiling()));
        }
        assert forall|i: int, j: int|
            0 <= i < slots.len() && 0 <= j < slots[i].deps.len() implies has_id(
            slots,
            #[trigger] slots[i].deps[j],
        ) by {
            assert(slots[i] == def_of::<V>(slots[i].id));
            assert(registered.contains(slots[i].id));
            let m = choose|m: int| 0 <= m < registered.len() && registered[m] == slots[i].id;
            assert(direct_deps_in::<V>(registered[m], registered));
            let dep = deps_of::<V>(registered[m])[j];
            assert(registered.contains(dep));
            let n = choose|n: int| 0 <= n < registered.len() && registered[n] == dep;
            assert(defs[n].id == dep);
            assert(has_id(slots, defs[n].id));
        }
        assert forall|id: u64| has_id(slots, id) <==> self.ids().contains(id) by {
            if has_id(slots, id) {
                let k = choose|k: int| 0 <= k < slots.len() && #[trigger] slots[k].id == id;
                assert(registered.contains(slots[k].id));
            }
            if registered.contains(id) {
                let n = choose|n: int| 0 <= n < registered.len() && registered[n] == id;
                assert(defs[n].id == id);
                assert(has_id(slots, defs[n].id));
            }
        }
    }

    /// An empty list of descriptors registers nothing and agrees with every
    /// family.
    proof fn lemma_nothing_registered()
        ensures
            ids_of(views_of(Seq::<TypeInitDef>::empty())) == Seq::<u64>::empty(),
            views_of(Seq::<TypeInitDef>::empty()) == defs_of::<V>(Seq::<u64>::empty()),
    {
        assert(ids_of(views_of(Seq::<TypeInitDef>::empty())) =~= Seq::<u64>::empty());
        assert(views_of(Seq::<TypeInitDef>::empty()) =~= defs_of::<V>(Seq::<u64>::empty()));
    }

    /// A tree with nothing registered, caching disabled and the default depth
    /// ceiling.
    pub fn new() -> (tree: Self)
        ensures
            tree.registered() == Seq::<u64>::empty(),
            tree.cache() is None,
            tree.ceiling() == MAX_TREE_DEPTH,
    {
        Self::with_max_depth(MAX_TREE_DEPTH)
    }

    /// A tree with nothing registered and caching disabled, which refuses
    /// dependency chains that reach `max_depth`.
    pub fn with_max_depth(max_depth: u32) -> (tree: Self)
        ensures
            tree.registered() == Seq::<u64>::empty(),
            tree.cache() is None,
            tree.ceiling() == max_depth,
    {
        proof {
            Self::lemma_nothing_registered();
        }
        InitTree { uninitialized: Vec::new(), cache: None, max_depth, family: PhantomData }
    }

    /// Enables or disables caching. Enabling it keeps a cache that is already
    /// loaded and starts with an empty one otherwise; disabling it drops the
    /// cache.
    pub fn enable_caching(&mut self, enabled: bool)
        ensures
            final(self).cache() == (if !enabled {
                None
            } else if old(self).cache() is Some {
                old(self).cache()
            } else {
                Some(Seq::<usize>::empty())
            }),
            final(self).registered() == old(self).registered(),
            final(self).ceiling() == old(self).ceiling(),
    {
        proof {
            use_type_invariant(&*self);
        }
        if enabled {
            if self.cache.is_none() {
                self.cache = Some(Cache::default());
            }
        } else {
            self.cache = None;
        }
    }

    /// Loads `cache` and returns the cache that was loaded before, if any.
    /// This enables caching.
    pub fn load_cache(&mut self, cache: Cache) -> (prior: Option<Cache>)
        ensures
            final(self).cache() == Some(cache@),
            old(self).cache() == (match prior {
                Some(c) => Some(c@),
                None => None,
            }),
            final(self).registered() == old(self).registered(),
            final(self).ceiling() == old(self).ceiling(),
    {
        proof {
            use_type_invariant(&*self);
        }
        let mut slot = Some(cache);
        std::mem::swap(&mut slot, &mut self.cache);
        slot
    }

    /// Registers component `id` and everything that it depends on.
    ///
    /// A failure leaves the tree as it was and names what had been collected.
    /// With a stable family, registration fails exactly when a dependency
    /// chain from `id` reaches the depth ceiling, which every chain through a
    /// cycle does, and a success registers `id` followed by what the collector
    /// accumulates from it.
    pub fn add(&mut self, id: u64) -> (r: Result<(), InitError>)
        ensures
            final(self).cache() == old(self).cache(),
            final(self).ceiling() == old(self).ceiling(),
            r is Err ==> final(self).registered() == old(self).registered(),
            r matches Err(e) ==> e is DependencyTooDeep,
            stable::<V>() ==> old(self).registers(id, *final(self), r),
    {
        proof {
            use_type_invariant(&*self);
        }
        let ghost before = self.registered();
        let ghost ceiling = self.ceiling();
        let mut pending: Vec<TypeInitDef> = Vec::new();
        proof {
            Self::lemma_nothing_registered();
        }
        std::mem::swap(&mut pending, &mut self.uninitialized);
        let ghost held = pending@;
        let kept: usize = pending.len();
        let root = V::self_def(id);
        pending.push(root);
        let ghost start = ids_of(views_of(pending@));
        assert(start =~= before.push(id));
        let r = deep_deps_list::<V>(id, &mut pending, 0, self.max_depth);
        let ghost out = ids_of(views_of(pending@));
        let ghost collected = views_of(pending@);
        proof {
            if stable::<V>() {
                lemma_declared::<V>(id, root);
                lemma_collect::<V>(id, ceiling, start);
                assert(views_of(pending@) =~= defs_of::<V>(out)) by {
                    assert forall|i: int| 0 <= i < pending@.len() implies views_of(pending@)[i]
                        == defs_of::<V>(out)[i] by {
                        if i < kept {
                            assert(pending@[i] == held[i]);
                            assert(views_of(held)[i] == defs_of::<V>(before)[i]);
                        } else if i == kept {
                            assert(pending@[i]@ == def_of::<V>(id));
                        } else {
                            assert(views_of(pending@)[i] == def_of::<V>(views_of(pending@)[i].id));
                        }
                    }
                }
            }
        }
        match r {
            Ok(()) => {
                proof {
                    if stable::<V>() {
                        assert forall|k: int| 0 <= k < out.len() implies depth_ok::<V>(
                            #[trigger] out[k],
                            ceiling,
                        ) && direct_deps_in::<V>(out[k], out) by {
                            if k < kept {
                                assert(out[k] == before[k]);
                                crate::component::lemma_extends_keeps::<V>(before[k], before, out);
                            } else if k == kept {
                                assert(out[k] == start[k]);
                            }
                        }
                    }
                }
                self.uninitialized = pending;
                Ok(())
            },
            Err(e) => {
                pending.truncate(kept);
                assert(pending@ =~= held);
                self.uninitialized = pending;
                Err(e)
            },
        }
    }

    /// What registering `id` with a stable family comes to: `r` is the outcome
    /// and `after` the tree that is left.
    ///
    /// It succeeds exactly when every dependency chain from `id` fits the
    /// depth ceiling, and then `after` has registered `id` and, behind it,
    /// what the collector accumulates from `id`. Otherwise the failure names
    /// everything that was registered or collected when the collector gave
    /// up.
    pub open spec fn registers(self, id: u64, after: Self, r: Result<(), InitError>) -> bool {
        let walk = collect::<V>(id, self.ceiling(), self.registered().push(id));
        &&& r is Ok <==> depth_ok::<V>(id, self.ceiling())
        &&& r is Ok ==> after.registered() == walk.0
        &&& r matches Err(e) ==> (e matches InitError::DependencyTooDeep { tree } && tree@
            == joined(names_of(defs_of::<V>(walk.0)), ", "@))
    }

    /// What a resolution of this tree may come to.
    ///
    /// A success holds an instance for exactly the registered identities.
    /// The instances are what arises from the calls of constructors that were
    /// made: each constructor was handed the instances of its direct
    /// dependencies as they were at that time, and what it answered is kept
    /// under its identity. The calls that answered with an instance are the
    /// steps taken: they construct each component once, every component after
    /// all its direct dependencies, and leave nothing pending. A cache is held
    /// exactly when caching was enabled, and it records these steps. The
    /// loaded cache counts as correct only if the resolution followed it to
    /// the end and had nothing left to do; the cache is then unchanged.
    ///
    /// A failure for want of progress names the components that are left
    /// pending when nothing more can be constructed: each of them lacks the
    /// instance of a direct dependency or had its constructor decline since
    /// the last construction. A conflict names a pending component that lists
    /// one dependency twice.
    ///
    /// Resolution succeeds whenever every constructor accepts the handles
    /// that it can ever be given and no component lists a dependency twice;
    /// the steps that it takes are then those of [`schedule`], and no
    /// constructor is called but for these steps. And where the constructors
    /// accept and the steps of the loaded cache can be carried out to the end,
    /// the cache is found correct.
    ///
    /// All of this is said of a stable family.
    pub open spec fn resolves_to(self, r: Result<InitializedTree<V>, InitError>) -> bool {
        &&& match r {
            Ok(done) => {
                &&& done@.dom() == self.ids()
                &&& construction_order::<V>(done.order(), self.ids())
                &&& self.cache() is Some <==> done.cache() is Some
                &&& exists|calls: Seq<Call>|
                    {
                        &&& #[trigger] arises::<V>(self.slots(), calls, done@)
                        &&& carried_out(self.slots(), steps_of(calls), done.order())
                        &&& done.cache() matches Some(recorded) ==> recorded == steps_of(calls)
                    }
                &&& done.was_correct() ==> self.cache() is Some && done.cache() == self.cache()
            },
            Err(InitError::UnresolvedDependencies { locked }) => {
                &&& names_stuck::<V>(self.slots(), locked@)
                &&& !all_ready::<V>(self.slots())
            },
            Err(InitError::ConcurrentBorrowConflict { name }) => names_conflict(
                self.slots(),
                name@,
            ),
            Err(InitError::DependencyTooDeep { .. }) => false,
        }
        &&& well_behaved::<V>(self.slots()) ==> (r matches Ok(done) && carried_out(
            self.slots(),
            schedule(self.slots(), self.cache()),
            done.order(),
        ) && arises::<V>(
            self.slots(),
            all_built(schedule(self.slots(), self.cache())),
            done@,
        ) && (done.cache() matches Some(recorded) ==> recorded == schedule(
            self.slots(),
            self.cache(),
        )))
        &&& (self.cache() matches Some(steps) && completes(self.slots(), steps)) && all_ready::<V>(
            self.slots(),
        ) ==> (r matches Ok(done) && done.was_correct())
    }

    /// Constructs every registered component, each one after all its direct
    /// dependencies, and hands the instances over.
    ///
    /// The pending descriptors are first put in ascending order of identity,
    /// one for each identity. If a cache is loaded, its steps are followed as
    /// far as each of them constructs a component. Then the pending
    /// descriptors are swept, again and again, until a sweep constructs
    /// nothing. Whatever is still pending then cannot be resolved.
    pub fn init(self) -> (r: Result<InitializedTree<V>, InitError>)
        ensures
            !(r matches Err(InitError::DependencyTooDeep { .. })),
            stable::<V>() ==> self.resolves_to(r),
    {
        proof {
            use_type_invariant(&self);
            if stable::<V>() {
                self.lemma_slots_sound();
            }
        }
        let ghost ceiling = self.ceiling();
        let ghost ids = self.ids();
        let ghost loaded_steps = self.cache();
        let InitTree { uninitialized, cache, max_depth, family } = self;
        let pending = sort_dedup(uninitialized);
        let ghost slots = views_of(pending@);
        let ghost promised = stable::<V>() && (loaded_steps matches Some(steps) && completes(
            slots,
            steps,
        )) && all_ready::<V>(slots);
        let ghost dependable = well_behaved::<V>(slots);
        let ghost start = Progress { pending: slots, order: Seq::empty() };
        let caching = cache.is_some();
        let mut state: Resolution<V> = Resolution::start(pending, caching);
        assert(state.progress() == start);
        assert(state.calls@ =~= all_built(state.run@));
        let mut followed = false;
        match cache {
            Some(loaded) => {
                match state.follow(&loaded, Ghost(slots)) {
                    Ok(complete) => {
                        followed = complete;
                    },
                    Err(name) => {
                        return Err(InitError::ConcurrentBorrowConflict { name });
                    },
                }
            },
            None => {},
        }
        let ghost after_cache = state.run@;
        let ghost resumed = state.progress();
        let ghost mut cut: int = state.calls@.len() as int;
        assert(followed ==> loaded_steps == Some(after_cache));
        assert(dependable ==> sweeps(resumed, after_cache).1 == schedule(slots, loaded_steps));
        assert(promised ==> followed && state.pending@.len() == 0) by {
            if promised {
                assert(views_of(state.pending@).len() == 0);
            }
        }
        let mut progress: usize = match state.init_cycle(Ghost(slots)) {
            Ok(count) => count,
            Err(name) => {
                return Err(InitError::ConcurrentBorrowConflict { name });
            },
        };
        let correct = caching && followed && progress == 0;
        proof {
            lemma_sweep_counts(resumed, 0, after_cache);
        }
        while progress > 0
            invariant
                dependable == well_behaved::<V>(slots),
                dependable ==> state.calls@ == all_built(state.run@),
                dependable && progress > 0 ==> sweeps(state.progress(), state.run@).1 == schedule(
                    slots,
                    loaded_steps,
                ),
                dependable && progress == 0 ==> state.run@ == schedule(slots, loaded_steps),
                stable::<V>() ==> sound::<V>(slots, ceiling) && slots == self.slots(),
                promised == (stable::<V>() && (loaded_steps matches Some(steps) && completes(
                    slots,
                    steps,
                )) && all_ready::<V>(slots)),
                loaded_steps == self.cache(),
                promised ==> correct,
                state.tracks(slots),
                state.caching == caching,
                correct ==> state.run@ == after_cache,
                correct ==> progress == 0,
                progress == 0 ==> quiet_since(state.calls@, cut) && forall|i: int|
                    0 <= i < state.pending@.len() ==> !crate::engine::ready(
                        #[trigger] views_of(state.pending@)[i],
                        state.order@.to_set(),
                    ) || declined_since(state.calls@, cut, i),
            decreases state.pending@.len() + (if progress > 0 { 1int } else { 0int }),
        {
            proof {
                lemma_sweep_counts(state.progress(), 0, state.run@);
                cut = state.calls@.len() as int;
            }
            progress = match state.init_cycle(Ghost(slots)) {
                Ok(count) => count,
                Err(name) => {
                    return Err(InitError::ConcurrentBorrowConflict { name });
                },
            };
        }
        if state.pending.len() > 0 {
            let locked = get_type_names(&state.pending);
            proof {
                let stuck = views_of(state.pending@);
                assert(locked@ == joined(names_of(stuck), ", "@));
                assert(replay(slots, steps_of(state.calls@)) == Some(state.progress()));
                assert(stalled(slots, state.calls@));
                assert(names_stuck::<V>(slots, locked@));
                if stable::<V>() {
                    lemma_some_pending_is_ready::<V>(slots, ceiling, state.run@);
                    let i = choose|i: int|
                        0 <= i < stuck.len() && crate::engine::ready(
                            #[trigger] stuck[i],
                            state.order@.to_set(),
                        );
                    assert(declined_since(state.calls@, cut, i));
                    let p = choose|p: int|
                        cut <= p < state.calls@.len() && 0 <= p && #[trigger] state.calls@[p].slot
                            == i;
                    lemma_decline_refutes::<V>(slots, state.calls@, state.initialized@, p);
                }
            }
            return Err(InitError::UnresolvedDependencies { locked });
        }
        proof {
            assert(views_of(state.pending@) =~= Seq::<DefView>::empty());
            if stable::<V>() {
                lemma_replay_reachable::<V>(slots, ceiling, state.run@);
                assert(state.order@.to_set() =~= ids) by {
                    assert forall|id: u64| state.order@.to_set().contains(id) == ids.contains(
                        id,
                    ) by {
                        assert(has_id(slots, id) <==> ids.contains(id));
                        assert(!has_id(views_of(state.pending@), id));
                    }
                }
            }
        }
        assert(carried_out(slots, steps_of(state.calls@), state.order@));
        let Resolution { pending: _, initialized, caching: _, trace, run, order, calls } = state;
        let record = if caching {
            Some(Cache::from_steps(trace))
        } else {
            None
        };
        Ok(InitializedTree::assemble(initialized, record, correct, Ghost(order@)))
    }
}

impl<V: Init> Clone for InitTree<V> {
    /// A tree with the same registrations, cache and depth ceiling.
    fn clone(&self) -> (copy: Self)
        ensures
            copy.registered() == self.registered(),
            copy.cache() == self.cache(),
            copy.ceiling() == self.ceiling(),
    {
        proof {
            use_type_invariant(self);
        }
        let mut uninitialized: Vec<TypeInitDef> = Vec::new();
        let mut i: usize = 0;
        while i < self.uninitialized.len()
            invariant
                i <= self.uninitialized@.len(),
                uninitialized@.len() == i,
                forall|k: int|
                    0 <= k < i ==> (#[trigger] uninitialized@[k])@ == self.uninitialized@[k]@,
            decreases self.uninitialized@.len() - i,
        {
            uninitialized.push(self.uninitialized[i].clone());
            i += 1;
        }
        let cache = match &self.cache {
            Some(cache) => Some(cache.clone()),
            None => None,
        };
        assert(views_of(uninitialized@) =~= views_of(self.uninitialized@));
        InitTree { uninitialized, cache, max_depth: self.max_depth, family: PhantomData }
    }
}

impl<V: Init> Default for InitTree<V> {
    /// A tree with nothing registered, caching disabled and the default depth
    /// ceiling.
    fn default() -> (tree: Self)
        ensures
            tree.registered() == Seq::<u64>::empty(),
            tree.cache() is None,
            tree.ceiling() == MAX_TREE_DEPTH,
    {
        InitTree::new()
    }
}

} // verus!
