//! The state of a resolution in progress and the sweeps that advance it.
use vstd::prelude::*;
use std::collections::HashMap;
use crate::cache::Cache;
use crate::component::Init;
use crate::engine::{
    accepts, attempt, grantable, handles_of, lemma_clashes_when_ready, ready, Attempt,
};
use crate::internal::{views_of, DefView, TypeInitDef};
use crate::schedule::{
    advance, all_built, all_ready, arises, called_with, declined_since, follow, last_call,
    lemma_replay_prefix, lemma_replay_within, quiet_since, replay, steps_of, sweep, vacate,
    well_behaved, Call, Progress,
};

verus! {

broadcast use vstd::std_specs::hash::group_hash_axioms;

/// Some pending descriptor names one dependency twice, and `name` is the
/// display name of such a descriptor.
pub open spec fn names_conflict(slots: Seq<DefView>, name: Seq<char>) -> bool {
    exists|k: int|
        0 <= k < slots.len() && !(#[trigger] slots[k]).deps.no_duplicates() && slots[k].name == name
}

/// What became of the attempt on one slot.
pub(crate) enum Step {
    /// The component was constructed and has left the pending descriptors.
    Built,
    /// The component stays pending.
    NotReady,
    /// The component asks for two handles to one instance; this is its name.
    Conflict(String),
}

/// A resolution in progress.
pub(crate) struct Resolution<V: Init> {
    /// The descriptors that are still to be constructed, slot by slot.
    pub(crate) pending: Vec<TypeInitDef>,
    /// The instances constructed so far.
    pub(crate) initialized: HashMap<u64, V>,
    /// Whether the steps are recorded for a cache.
    pub(crate) caching: bool,
    /// The recorded steps.
    pub(crate) trace: Vec<usize>,
    /// The slot of every step taken so far.
    pub(crate) run: Ghost<Seq<usize>>,
    /// The identities constructed so far, in order.
    pub(crate) order: Ghost<Seq<u64>>,
    /// Every call of a constructor so far.
    pub(crate) calls: Ghost<Seq<Call>>,
}

impl<V: Init> Resolution<V> {
    /// The pending descriptors and the construction order so far.
    pub(crate) open spec fn progress(self) -> Progress {
        Progress { pending: views_of(self.pending@), order: self.order@ }
    }

    /// The state is what carrying out `run` on `slots` leaves behind; the
    /// instances are what arises from the calls made, of which `run` holds
    /// the steps; and the steps are recorded where caching is enabled.
    pub(crate) open spec fn tracks(self, slots: Seq<DefView>) -> bool {
        &&& replay(slots, self.run@) == Some(self.progress())
        &&& self.initialized@.dom() == self.order@.to_set()
        &&& self.caching ==> self.trace@ == self.run@
        &&& steps_of(self.calls@) == self.run@
        &&& arises::<V>(slots, self.calls@, self.initialized@)
    }

    /// The state at the start: everything pending, nothing constructed.
    pub(crate) fn start(pending: Vec<TypeInitDef>, caching: bool) -> (fresh: Self)
        ensures
            fresh.tracks(views_of(pending@)),
            fresh.pending == pending,
            fresh.caching == caching,
            fresh.run@ == Seq::<usize>::empty(),
            fresh.calls@ == Seq::<Call>::empty(),
    {
        let fresh = Resolution {
            pending,
            initialized: HashMap::new(),
            caching,
            trace: Vec::new(),
            run: Ghost(Seq::empty()),
            order: Ghost(Seq::empty()),
            calls: Ghost(Seq::empty()),
        };
        assert(fresh.initialized@.dom() =~= fresh.order@.to_set());
        fresh
    }

    /// Whether every direct dependency of the descriptor in `slot` has an
    /// instance.
    pub(crate) fn deps_built(&self, slot: usize) -> (all: bool)
        requires
            slot < self.pending@.len(),
        ensures
            all == ready(self.pending@[slot as int]@, self.initialized@.dom()),
    {
        let def = &self.pending[slot];
        let mut j: usize = 0;
        while j < def.deps.len()
            invariant
                slot < self.pending@.len(),
                j <= def.deps@.len(),
                def == self.pending@[slot as int],
                forall|i: int|
                    0 <= i < j ==> self.initialized@.dom().contains(#[trigger] def.deps@[i]),
            decreases def.deps@.len() - j,
        {
            let dep: u64 = def.deps[j];
            if !self.initialized.contains_key(&dep) {
                assert(!self.initialized@.dom().contains(def@.deps[j as int]));
                return false;
            }
            j += 1;
        }
        true
    }

    /// Tries to construct the component in `slot`. Where each of its direct
    /// dependencies has an instance and none is listed twice, its constructor
    /// is called and the call is noted. If the constructor answers with an
    /// instance, the instance is kept under the identity of the component,
    /// the descriptor leaves its slot, which the last pending descriptor
    /// takes over, and the step is recorded. If it declines, the component
    /// stays pending. Where the constructor is not called, nothing changes.
    pub(crate) fn construct(&mut self, slot: usize, Ghost(slots): Ghost<Seq<DefView>>) -> (step:
        Step)
        requires
            old(self).tracks(slots),
            slot < old(self).pending@.len(),
        ensures
            final(self).tracks(slots),
            final(self).caching == old(self).caching,
            step is Built <==> final(self).run@ == old(self).run@.push(slot),
            step is Built ==> final(self).pending@.len() + 1 == old(self).pending@.len(),
            step is Built ==> final(self).progress() == advance(old(self).progress(), slot as int)
                && ready(old(self).pending@[slot as int]@, old(self).order@.to_set()),
            step is Built ==> final(self).calls@ == old(self).calls@.push(
                Call { slot, built: true },
            ),
            !(step is Built) ==> final(self).run@ == old(self).run@ && final(self).pending
                == old(self).pending && final(self).order@ == old(self).order@,
            final(self).initialized@.dom() == (if step is Built {
                old(self).initialized@.dom().insert(old(self).pending@[slot as int].id)
            } else {
                old(self).initialized@.dom()
            }),
            step is NotReady ==> final(self).calls@ == (if grantable(
                old(self).pending@[slot as int]@,
                old(self).initialized@.dom(),
            ) {
                old(self).calls@.push(Call { slot, built: false })
            } else {
                old(self).calls@
            }),
            step matches Step::Conflict(name) ==> names_conflict(slots, name@) && final(self).calls@
                == old(self).calls@,
            !(step is Conflict) && ready(
                old(self).pending@[slot as int]@,
                old(self).initialized@.dom(),
            ) ==> grantable(old(self).pending@[slot as int]@, old(self).initialized@.dom()),
            grantable(old(self).pending@[slot as int]@, old(self).initialized@.dom()) && accepts::<
                V,
            >(
                old(self).pending@[slot as int].id,
                handles_of(old(self).initialized@, old(self).pending@[slot as int].deps@),
            ) ==> step is Built,
    {
        let ghost before = self.progress();
        let ghost held = self.initialized@;
        let ghost built = self.initialized@.dom();
        let ghost earlier = self.calls@;
        let ghost def_view = self.pending@[slot as int]@;
        proof {
            lemma_replay_within(slots, self.run@);
            assert(replay(slots, self.run@)->0 == before);
            assert(slots.contains(before.pending[slot as int]));
            assert(def_view == before.pending[slot as int]);
            if ready(before.pending[slot as int], built) {
                lemma_clashes_when_ready(before.pending[slot as int], built);
            }
        }
        let outcome = attempt(&self.pending[slot], &mut self.initialized);
        let ghost mid = self.initialized@;
        match outcome {
            Attempt::Built(instance) => {
                let def = self.pending.swap_remove(slot);
                self.initialized.insert(def.id, instance);
                if self.caching {
                    self.trace.push(slot);
                }
                proof {
                    let taken = self.run@;
                    self.run@ = taken.push(slot);
                    self.order@ = before.order.push(def.id);
                    self.calls@ = earlier.push(Call { slot, built: true });
                    assert(self.run@.drop_last() =~= taken);
                    assert(self.calls@.drop_last() =~= earlier);
                    assert(views_of(self.pending@) =~= vacate(before.pending, slot as int));
                    assert(self.progress() == advance(before, slot as int));
                    assert(self.initialized@.dom() =~= self.order@.to_set()) by {
                        assert forall|id: u64| #[trigger]
                            built.insert(def.id).contains(id) == self.order@.to_set().contains(
                                id,
                            ) by {
                            if self.order@.contains(id) {
                                let m = choose|m: int|
                                    0 <= m < self.order@.len() && self.order@[m] == id;
                                if m < before.order.len() {
                                    assert(before.order[m] == id);
                                    assert(before.order.contains(id));
                                }
                            }
                            if before.order.contains(id) {
                                let m = choose|m: int|
                                    0 <= m < before.order.len() && before.order[m] == id;
                                assert(self.order@[m] == id);
                            }
                            if id == def.id {
                                assert(self.order@[before.order.len() as int] == id);
                            }
                        }
                    }
                    assert(called_with::<V>(
                        def_view,
                        true,
                        held,
                        mid,
                        Some(instance),
                        self.initialized@,
                    ));
                    assert(last_call::<V>(slots, self.calls@, held, self.initialized@));
                }
                Step::Built
            },
            Attempt::NotReady => {
                proof {
                    assert(self.run@.push(slot).len() != self.run@.len());
                    if grantable(def_view, built) {
                        self.calls@ = earlier.push(Call { slot, built: false });
                        assert(self.calls@.drop_last() =~= earlier);
                        assert(called_with::<V>(
                            def_view,
                            false,
                            held,
                            mid,
                            None,
                            self.initialized@,
                        ));
                        assert(last_call::<V>(slots, self.calls@, held, self.initialized@));
                    }
                }
                Step::NotReady
            },
            Attempt::Conflict => {
                proof {
                    assert(self.run@.push(slot).len() != self.run@.len());
                    let s = choose|s: int|
                        0 <= s < slots.len() && slots[s] == before.pending[slot as int];
                    assert(!slots[s].deps.no_duplicates()) by {
                        crate::engine::lemma_clash_repeats(slots[s].deps, built);
                    }
                }
                Step::Conflict(self.pending[slot].name.clone())
            },
        }
    }

    /// Follows `loaded` step by step as long as each step constructs the
    /// component in its slot, and says whether it could follow to the end. It
    /// stops at the first step whose slot is empty or whose component is not
    /// ready.
    pub(crate) fn follow(&mut self, loaded: &Cache, Ghost(slots): Ghost<Seq<DefView>>) -> (r:
        Result<bool, String>)
        requires
            old(self).tracks(slots),
            old(self).run@ == Seq::<usize>::empty(),
            old(self).calls@ == Seq::<Call>::empty(),
        ensures
            final(self).tracks(slots),
            final(self).caching == old(self).caching,
            r matches Ok(complete) ==> (complete ==> final(self).run@ == loaded@),
            r matches Err(name) ==> names_conflict(slots, name@),
            replay(slots, loaded@) is Some && all_ready::<V>(slots) ==> r == Ok::<bool, String>(
                true,
            ),
            well_behaved::<V>(slots) ==> r is Ok && (final(self).progress(), final(self).run@, r->Ok_0)
                == follow(old(self).progress(), loaded@, 0, old(self).run@) && final(self).calls@
                == all_built(final(self).run@),
    {
        let ghost dependable = well_behaved::<V>(slots);
        let ghost promised = replay(slots, loaded@) is Some && all_ready::<V>(slots);
        let mut k: usize = 0;
        let mut complete = true;
        assert(self.run@ =~= loaded@.take(0));
        assert(self.calls@ =~= all_built(self.run@));
        while complete && k < loaded.len()
            invariant
                self.tracks(slots),
                self.caching == old(self).caching,
                k <= loaded@.len(),
                complete ==> self.run@ == loaded@.take(k as int),
                promised == (replay(slots, loaded@) is Some && all_ready::<V>(slots)),
                promised ==> complete,
                dependable == well_behaved::<V>(slots),
                dependable ==> self.calls@ == all_built(self.run@),
                dependable && complete ==> follow(self.progress(), loaded@, k as int, self.run@)
                    == follow(old(self).progress(), loaded@, 0, old(self).run@),
                dependable && !complete ==> (self.progress(), self.run@, false) == follow(
                    old(self).progress(),
                    loaded@,
                    0,
                    old(self).run@,
                ),
            decreases loaded@.len() - k + (if complete { 1int } else { 0int }),
        {
            let slot = loaded.step(k);
            let ghost here = self.progress();
            proof {
                lemma_replay_within(slots, self.run@);
                assert(replay(slots, self.run@)->0 == here);
                if slot < self.pending@.len() {
                    assert(slots.contains(here.pending[slot as int]));
                    assert(here.pending[slot as int] == self.pending@[slot as int]@);
                }
                assert(loaded@.take(k + 1).drop_last() =~= loaded@.take(k as int));
                assert(loaded@.take(k + 1).last() == slot);
                if promised {
                    lemma_replay_prefix(slots, loaded@, k + 1);
                    assert(slot < self.pending@.len());
                }
            }
            if slot >= self.pending.len() {
                complete = false;
            } else {
                match self.construct(slot, Ghost(slots)) {
                    Step::Built => {
                        assert(self.run@ =~= loaded@.take(k + 1));
                        assert(dependable ==> self.calls@ =~= all_built(self.run@));
                        k += 1;
                    },
                    Step::NotReady => {
                        complete = false;
                    },
                    Step::Conflict(name) => {
                        return Err(name);
                    },
                }
            }
        }
        proof {
            if complete {
                assert(loaded@.take(k as int) =~= loaded@);
            }
        }
        Ok(complete)
    }

    /// One sweep over the pending descriptors, from the first slot to the
    /// last: constructs every component whose direct dependencies all have
    /// instances and whose constructor accepts, and counts them. A slot that
    /// was vacated is looked at again, since another descriptor has moved
    /// into it. A component whose constructor declines stays pending and is
    /// not counted.
    pub(crate) fn init_cycle(&mut self, Ghost(slots): Ghost<Seq<DefView>>) -> (r: Result<
        usize,
        String,
    >)
        requires
            old(self).tracks(slots),
        ensures
            final(self).tracks(slots),
            final(self).caching == old(self).caching,
            old(self).run@.len() <= final(self).run@.len(),
            final(self).run@.take(old(self).run@.len() as int) == old(self).run@,
            old(self).calls@.len() <= final(self).calls@.len(),
            final(self).calls@.take(old(self).calls@.len() as int) == old(self).calls@,
            forall|id: u64|
                old(self).initialized@.contains_key(id) ==> final(self).initialized@.contains_key(
                    id,
                ),
            r matches Ok(count) ==> count + final(self).pending@.len() == old(self).pending@.len(),
            r matches Ok(count) ==> final(self).run@.len() == old(self).run@.len() + count,
            r matches Ok(count) ==> (count == 0 ==> final(self).run@ == old(self).run@
                && final(self).pending == old(self).pending
                && final(self).order@ == old(self).order@),
            r matches Ok(count) ==> (count == 0 ==> quiet_since(
                final(self).calls@,
                old(self).calls@.len() as int,
            ) && forall|i: int|
                0 <= i < final(self).pending@.len() ==> !ready(
                    #[trigger] views_of(final(self).pending@)[i],
                    final(self).order@.to_set(),
                ) || declined_since(final(self).calls@, old(self).calls@.len() as int, i)),
            well_behaved::<V>(slots) ==> r is Ok && (final(self).progress(), final(self).run@)
                == sweep(old(self).progress(), 0, old(self).run@),
            well_behaved::<V>(slots) && old(self).calls@ == all_built(old(self).run@)
                ==> final(self).calls@ == all_built(final(self).run@),
            r matches Err(name) ==> names_conflict(slots, name@) && old(self).pending@.len() > 0,
    {
        let mut count: usize = 0;
        let mut i: usize = 0;
        let ghost cut = self.calls@.len() as int;
        let ghost first = self.run@.len() as int;
        assert(self.pending@.len() == self.pending.len() <= usize::MAX);
        assert(self.run@.take(first) =~= self.run@);
        assert(self.calls@.take(cut) =~= self.calls@);
        while i < self.pending.len()
            invariant
                self.tracks(slots),
                self.caching == old(self).caching,
                i <= self.pending@.len(),
                count + self.pending@.len() == old(self).pending@.len(),
                old(self).pending@.len() <= usize::MAX,
                cut == old(self).calls@.len(),
                first == old(self).run@.len(),
                first <= self.run@.len(),
                self.run@.take(first) == old(self).run@,
                cut <= self.calls@.len(),
                self.calls@.take(cut) == old(self).calls@,
                forall|id: u64|
                    old(self).initialized@.contains_key(id) ==> self.initialized@.contains_key(id),
                self.run@.len() == first + count,
                count == 0 ==> self.run@ == old(self).run@ && self.pending == old(self).pending
                    && self.order@ == old(self).order@,
                count == 0 ==> quiet_since(self.calls@, cut) && forall|k: int|
                    0 <= k < i ==> !ready(
                        #[trigger] views_of(self.pending@)[k],
                        self.order@.to_set(),
                    ) || declined_since(self.calls@, cut, k),
                well_behaved::<V>(slots) ==> sweep(self.progress(), i as int, self.run@) == sweep(
                    old(self).progress(),
                    0,
                    old(self).run@,
                ),
                well_behaved::<V>(slots) && old(self).calls@ == all_built(old(self).run@)
                    ==> self.calls@ == all_built(self.run@),
            decreases self.pending@.len() - i,
        {
            let ghost waiting = views_of(self.pending@);
            let ghost noted = self.calls@;
            let ghost taken = self.run@;
            proof {
                lemma_replay_within(slots, self.run@);
                assert(replay(slots, self.run@)->0 == self.progress());
                assert(slots.contains((replay(slots, self.run@)->0).pending[i as int]));
                assert(waiting[i as int] == self.pending@[i as int]@);
            }
            if self.deps_built(i) {
                match self.construct(i, Ghost(slots)) {
                    Step::Built => {
                        proof {
                            assert(self.run@.take(first) =~= old(self).run@) by {
                                assert(taken.take(first) == old(self).run@);
                            }
                            assert(self.calls@.take(cut) =~= old(self).calls@) by {
                                assert(noted.take(cut) == old(self).calls@);
                            }
                            assert(all_built(taken).push(Call { slot: i, built: true })
                                =~= all_built(taken.push(i)));
                        }
                        count += 1;
                    },
                    Step::NotReady => {
                        proof {
                            assert(views_of(self.pending@) == waiting);
                            assert(self.calls@.take(cut) =~= old(self).calls@) by {
                                assert(noted.take(cut) == old(self).calls@);
                            }
                            if count == 0 {
                                assert(self.calls@ == noted.push(Call { slot: i, built: false }));
                                assert(self.calls@[noted.len() as int].slot == i);
                                assert(declined_since(self.calls@, cut, i as int));
                                assert forall|k: int| 0 <= k < i implies !ready(
                                    #[trigger] views_of(self.pending@)[k],
                                    self.order@.to_set(),
                                ) || declined_since(self.calls@, cut, k) by {
                                    if declined_since(noted, cut, k) {
                                        let p = choose|p: int|
                                            cut <= p < noted.len() && 0 <= p && #[trigger] noted[p].slot
                                                == k;
                                        assert(self.calls@[p] == noted[p]);
                                    }
                                }
                                assert(quiet_since(self.calls@, cut)) by {
                                    assert forall|p: int| cut <= p < self.calls@.len() implies !(
                                    #[trigger] self.calls@[p]).built by {
                                        if p < noted.len() {
                                            assert(self.calls@[p] == noted[p]);
                                        }
                                    }
                                }
                            }
                        }
                        i += 1;
                    },
                    Step::Conflict(name) => {
                        return Err(name);
                    },
                }
            } else {
                i += 1;
            }
        }
        Ok(count)
    }
}

} // verus!
