//! What holds of the library as a whole, across its operations.
//!
//! Each statement speaks of the outcomes that the contracts of the operations
//! admit: of what [`InitTree::add`] registers and of what [`InitTree::init`]
//! resolves to, both of which are promised of a stable family.
use vstd::prelude::*;
use crate::collector::defs_of;
use crate::component::{always_ready, def_of, deps_of, depth_ok, Init};
use crate::dedup::{has_id, is_first_of, lemma_ascending_unique, lemma_sorted_unique};
use crate::error::InitError;
use crate::initialized::{taken, InitializedTree};
use crate::internal::DefView;
use crate::engine::{accepts, constructs, handles_of};
use crate::resolution::names_conflict;
use crate::schedule::{
    all_built, all_ready, arises, called_with, carried_out, completes, declared, last_call,
    lemma_constructed_had_distinct_deps, lemma_proper_suffices, proper_handles, replay, schedule,
    steps_of, well_behaved, Call,
};
use crate::tree::InitTree;

verus! {

/// An instance is handed out once: whatever the first take of an identity
/// gave, a second take of the same identity gives nothing.
pub proof fn lemma_take_hands_out_once<V>(held: Map<u64, V>, id: u64)
    ensures
        taken(taken(held, id).1, id).0 is None,
        taken(taken(held, id).1, id).1 == taken(held, id).1,
{
    assert(held.remove(id).remove(id) =~= held.remove(id));
}

/// Taking one identity leaves every other instance where it was.
pub proof fn lemma_take_leaves_others<V>(held: Map<u64, V>, id: u64, other: u64)
    requires
        other != id,
    ensures
        taken(taken(held, id).1, other).0 == taken(held, other).0,
{
}

/// Where every constructor accepts the handles that it can ever be given and
/// no component lists a dependency twice, resolution succeeds, and the first
/// take of every registered identity gives its instance.
///
/// The tree itself sees to the rest: it only ever holds components whose
/// dependency chains fit the ceiling, which excludes every cycle, together
/// with everything that they depend on.
pub proof fn lemma_resolution_succeeds<V: Init>(
    tree: InitTree<V>,
    r: Result<InitializedTree<V>, InitError>,
    id: u64,
)
    requires
        tree.resolves_to(r),
        well_behaved::<V>(tree.slots()),
        tree.ids().contains(id),
    ensures
        r is Ok,
        taken(r->Ok_0@, id).0 is Some,
        taken(taken(r->Ok_0@, id).1, id).0 is None,
{
    lemma_take_hands_out_once(r->Ok_0@, id);
}

/// A successful resolution constructs every registered identity exactly once,
/// however often and along however many chains it was registered.
pub proof fn lemma_constructed_once<V: Init>(
    tree: InitTree<V>,
    done: InitializedTree<V>,
    id: u64,
)
    requires
        tree.resolves_to(Ok(done)),
        tree.ids().contains(id),
    ensures
        exists|k: int|
            0 <= k < done.order().len() && #[trigger] done.order()[k] == id && forall|other: int|
                0 <= other < done.order().len() && done.order()[other] == id ==> other == k,
{
    let order = done.order();
    assert(order.to_set().contains(id));
    let k = choose|k: int| 0 <= k < order.len() && order[k] == id;
    assert(order[k] == id);
}

/// Where every constructor accepts the handles that it can ever be given, a
/// component that lists one dependency twice makes resolution fail with a
/// conflict that names such a component.
pub proof fn lemma_conflict_is_reported<V: Init>(
    tree: InitTree<V>,
    r: Result<InitializedTree<V>, InitError>,
    k: int,
)
    requires
        tree.resolves_to(r),
        all_ready::<V>(tree.slots()),
        0 <= k < tree.slots().len(),
        !tree.slots()[k].deps.no_duplicates(),
    ensures
        r matches Err(InitError::ConcurrentBorrowConflict { name }) && names_conflict(
            tree.slots(),
            name@,
        ),
{
    if r is Ok {
        let done = r->Ok_0;
        let calls = choose|calls: Seq<Call>|
            {
                &&& #[trigger] arises::<V>(tree.slots(), calls, done@)
                &&& carried_out(tree.slots(), steps_of(calls), done.order())
                &&& done.cache() matches Some(recorded) ==> recorded == steps_of(calls)
            };
        lemma_constructed_had_distinct_deps(tree.slots(), steps_of(calls));
        let slot = tree.slots()[k];
        assert(Seq::<DefView>::empty().contains(slot) || slot.deps.no_duplicates());
    }
}

/// A component that names itself among its direct dependencies fits no
/// budget, so registering it always fails, whatever else is registered.
pub proof fn lemma_self_dependency_refused<V: Init>(id: u64, budget: nat)
    requires
        deps_of::<V>(id).contains(id),
    ensures
        !depth_ok::<V>(id, budget),
    decreases budget,
{
    if budget > 0 {
        lemma_self_dependency_refused::<V>(id, (budget - 1) as nat);
        let j = choose|j: int| 0 <= j < deps_of::<V>(id).len() && deps_of::<V>(id)[j] == id;
        assert(deps_of::<V>(id)[j] == id);
    }
}

/// Two components that name each other among their direct dependencies fit no
/// budget, so registering either always fails.
pub proof fn lemma_mutual_dependency_refused<V: Init>(first: u64, second: u64, budget: nat)
    requires
        deps_of::<V>(first).contains(second),
        deps_of::<V>(second).contains(first),
    ensures
        !depth_ok::<V>(first, budget),
        !depth_ok::<V>(second, budget),
    decreases budget,
{
    if budget > 0 {
        lemma_mutual_dependency_refused::<V>(first, second, (budget - 1) as nat);
        let j = choose|j: int|
            0 <= j < deps_of::<V>(first).len() && deps_of::<V>(first)[j] == second;
        assert(deps_of::<V>(first)[j] == second);
        let k = choose|k: int|
            0 <= k < deps_of::<V>(second).len() && deps_of::<V>(second)[k] == first;
        assert(deps_of::<V>(second)[k] == first);
    }
}

/// Registering a component that names itself among its direct dependencies
/// fails because the chain is too deep, whatever the tree holds already and
/// whatever its depth ceiling is.
pub proof fn lemma_self_dependency_fails<V: Init>(
    tree: InitTree<V>,
    id: u64,
    after: InitTree<V>,
    r: Result<(), InitError>,
)
    requires
        tree.registers(id, after, r),
        deps_of::<V>(id).contains(id),
    ensures
        r matches Err(e) && e is DependencyTooDeep,
{
    lemma_self_dependency_refused::<V>(id, tree.ceiling());
}

/// Registering either of two components that name each other among their
/// direct dependencies fails because the chain is too deep.
pub proof fn lemma_mutual_dependency_fails<V: Init>(
    tree: InitTree<V>,
    id: u64,
    other: u64,
    after: InitTree<V>,
    r: Result<(), InitError>,
)
    requires
        tree.registers(id, after, r),
        deps_of::<V>(id).contains(other),
        deps_of::<V>(other).contains(id),
    ensures
        r matches Err(e) && e is DependencyTooDeep,
{
    lemma_mutual_dependency_refused::<V>(id, other, tree.ceiling());
}

/// A component that depends on one that fits no budget fits no budget
/// either: a cycle anywhere below a component has its registration refused.
pub proof fn lemma_dependent_refused<V: Init>(id: u64, dep: u64, budget: nat)
    requires
        deps_of::<V>(id).contains(dep),
        forall|smaller: nat| !depth_ok::<V>(dep, smaller),
    ensures
        !depth_ok::<V>(id, budget),
{
    if budget > 0 {
        let j = choose|j: int| 0 <= j < deps_of::<V>(id).len() && deps_of::<V>(id)[j] == dep;
        assert(deps_of::<V>(id)[j] == dep);
        assert(!depth_ok::<V>(dep, (budget - 1) as nat));
    }
}

/// The pending descriptors depend on which identities were registered, not on
/// the order or the number of the registrations. Since a resolution depends on
/// the tree through its pending descriptors and its cache alone, two trees
/// that register the same identities resolve alike.
pub proof fn lemma_registration_order_is_irrelevant<V: Init>(
    first: InitTree<V>,
    second: InitTree<V>,
)
    requires
        first.ids() == second.ids(),
    ensures
        first.slots() == second.slots(),
        first.cache() == second.cache() ==> forall|r: Result<InitializedTree<V>, InitError>|
            first.resolves_to(r) == second.resolves_to(r),
{
    let a = first.slots();
    let b = second.slots();
    lemma_slots_represent::<V>(first.registered());
    lemma_slots_represent::<V>(second.registered());
    assert(a == crate::dedup::sorted_unique(defs_of::<V>(first.registered())));
    assert(b == crate::dedup::sorted_unique(defs_of::<V>(second.registered())));
    assert forall|id: u64| has_id(a, id) <==> has_id(b, id) by {
        assert(first.ids().contains(id) == second.ids().contains(id));
        assert(has_id(a, id) <==> first.registered().to_set().contains(id));
        assert(has_id(b, id) <==> second.registered().to_set().contains(id));
    }
    assert forall|i: int, j: int|
        0 <= i < a.len() && 0 <= j < b.len() && a[i].id == b[j].id implies a[i] == b[j] by {
        assert(a[i] == def_of::<V>(a[i].id));
        assert(b[j] == def_of::<V>(b[j].id));
    }
    lemma_ascending_unique(a, b);
}

/// The pending descriptors of `registered` ascend, each is the descriptor
/// that the family declares, and they represent exactly the registered
/// identities.
pub proof fn lemma_slots_represent<V: Init>(registered: Seq<u64>)
    ensures
        crate::dedup::strictly_ascending(crate::dedup::sorted_unique(defs_of::<V>(registered))),
        forall|k: int|
            0 <= k < crate::dedup::sorted_unique(defs_of::<V>(registered)).len() ==> (
            #[trigger] crate::dedup::sorted_unique(defs_of::<V>(registered))[k]) == def_of::<V>(
                crate::dedup::sorted_unique(defs_of::<V>(registered))[k].id,
            ),
        forall|id: u64|
            has_id(crate::dedup::sorted_unique(defs_of::<V>(registered)), id)
                <==> registered.to_set().contains(id),
{
    let defs = defs_of::<V>(registered);
    let slots = crate::dedup::sorted_unique(defs);
    lemma_sorted_unique(defs);
    assert forall|k: int| 0 <= k < slots.len() implies (#[trigger] slots[k]) == def_of::<V>(
        slots[k].id,
    ) && registered.contains(slots[k].id) by {
        assert(is_first_of(defs, slots[k]));
        let i = choose|i: int|
            0 <= i < defs.len() && #[trigger] defs[i] == slots[k] && forall|n: int|
                0 <= n < i ==> (#[trigger] defs[n]).id != slots[k].id;
        assert(defs[i] == def_of::<V>(registered[i]));
    }
    assert forall|id: u64| has_id(slots, id) <==> registered.to_set().contains(id) by {
        if has_id(slots, id) {
            let k = choose|k: int| 0 <= k < slots.len() && #[trigger] slots[k].id == id;
            assert(registered.contains(slots[k].id));
        }
        if registered.contains(id) {
            let n = choose|n: int| 0 <= n < registered.len() && registered[n] == id;
            assert(defs[n].id == id);
            assert(has_id(slots, defs[n].id));
        }
    }
}

/// A cache that a resolution recorded is found correct when it is loaded for
/// the same identities again, and the second resolution constructs the same
/// components, provided that every constructor accepts the handles that it
/// can ever be given.
pub proof fn lemma_cache_round_trip<V: Init>(
    first: InitTree<V>,
    recorded: InitializedTree<V>,
    second: InitTree<V>,
    r: Result<InitializedTree<V>, InitError>,
)
    requires
        first.cache() is Some,
        first.resolves_to(Ok(recorded)),
        second.ids() == first.ids(),
        second.cache() == recorded.cache(),
        second.resolves_to(r),
        all_ready::<V>(first.slots()),
    ensures
        r is Ok,
        (r->Ok_0).was_correct(),
        (r->Ok_0)@.dom() == recorded@.dom(),
        (r->Ok_0).cache() == recorded.cache(),
{
    lemma_registration_order_is_irrelevant(first, second);
    let calls = choose|calls: Seq<Call>|
        {
            &&& #[trigger] arises::<V>(first.slots(), calls, recorded@)
            &&& carried_out(first.slots(), steps_of(calls), recorded.order())
            &&& recorded.cache() matches Some(kept) ==> kept == steps_of(calls)
        };
    assert(completes(second.slots(), steps_of(calls)));
}

/// A loaded cache whose steps cannot be carried out to the end on the pending
/// descriptors, as the cache of another graph may be, is never found correct;
/// and resolution succeeds all the same where every constructor accepts the
/// handles that it can ever be given and no component lists a dependency
/// twice.
pub proof fn lemma_stale_cache_is_detected<V: Init>(
    tree: InitTree<V>,
    steps: Seq<usize>,
    r: Result<InitializedTree<V>, InitError>,
)
    requires
        tree.cache() == Some(steps),
        !completes(tree.slots(), steps),
        tree.resolves_to(r),
    ensures
        r matches Ok(done) ==> !done.was_correct(),
        well_behaved::<V>(tree.slots()) ==> r is Ok,
{
}

/// A family that promises that its constructors accept whatever instances
/// they are handed, as long as there is one for each direct dependency, has
/// constructors that accept the handles that they can ever be given.
pub proof fn lemma_always_ready_suffices<V: Init>(slots: Seq<DefView>)
    requires
        declared::<V>(slots),
        forall|k: int| 0 <= k < slots.len() ==> always_ready::<V>((#[trigger] slots[k]).id),
    ensures
        all_ready::<V>(slots),
{
    let proper = |id: u64, v: V| true;
    assert forall|k: int, before: Seq<V>, answer: Option<V>, after: Seq<V>|
        0 <= k < slots.len() && proper_handles(proper, slots[k].deps, before)
            && #[trigger] constructs::<V>(slots[k].id, before, answer, after) implies proper_handles(
        proper,
        slots[k].deps,
        after,
    ) && (answer matches Some(instance) ==> proper(slots[k].id, instance)) by {
        let (handed, back) = choose|handed: Vec<V>, back: Vec<V>|
            handed@ == before && back@ == after && #[trigger] call_ensures(
                V::init,
                (slots[k].id, handed),
                (answer, back),
            );
        assert(back@.len() == handed@.len());
    }
    assert forall|k: int, before: Seq<V>|
        0 <= k < slots.len() && #[trigger] proper_handles(
            proper,
            slots[k].deps,
            before,
        ) implies accepts::<V>(slots[k].id, before) by {
        assert(slots[k] == def_of::<V>(slots[k].id));
        assert(always_ready::<V>(slots[k].id));
        assert forall|answer: Option<V>, after: Seq<V>| #[trigger]
            constructs::<V>(slots[k].id, before, answer, after) implies answer is Some by {
            let (handed, back) = choose|handed: Vec<V>, back: Vec<V>|
                handed@ == before && back@ == after && #[trigger] call_ensures(
                    V::init,
                    (slots[k].id, handed),
                    (answer, back),
                );
            assert(handed@.len() == deps_of::<V>(slots[k].id).len());
        }
    }
    lemma_proper_suffices::<V>(slots, proper);
}

/// The constructor of component `id` never answers with an instance.
pub open spec fn never_accepts<V: Init>(id: u64) -> bool {
    forall|before: Seq<V>, answer: Option<V>, after: Seq<V>| #[trigger]
        constructs::<V>(id, before, answer, after) ==> answer is None
}

/// A component whose constructor never answers with an instance stays
/// pending, whatever calls are made.
pub proof fn lemma_declining_stays_pending<V: Init>(
    slots: Seq<DefView>,
    calls: Seq<Call>,
    held: Map<u64, V>,
    k: int,
)
    requires
        arises::<V>(slots, calls, held),
        replay(slots, steps_of(calls)) is Some,
        0 <= k < slots.len(),
        never_accepts::<V>(slots[k].id),
    ensures
        (replay(slots, steps_of(calls))->0).pending.contains(slots[k]),
    decreases calls.len(),
{
    let end = replay(slots, steps_of(calls))->0;
    if calls.len() == 0 {
        assert(end.pending[k] == slots[k]);
    } else {
        let earlier = calls.drop_last();
        let prev = choose|prev: Map<u64, V>|
            arises::<V>(slots, earlier, prev) && #[trigger] last_call::<V>(slots, calls, prev, held);
        lemma_declining_stays_pending::<V>(slots, earlier, prev, k);
        let now = replay(slots, steps_of(earlier))->0;
        let slot = calls.last().slot as int;
        let def = now.pending[slot];
        let (mid, answer) = choose|mid: Map<u64, V>, answer: Option<V>| #[trigger]
            called_with::<V>(def, calls.last().built, prev, mid, answer, held);
        if calls.last().built {
            assert(steps_of(calls).drop_last() =~= steps_of(earlier));
            assert(end == crate::schedule::advance(now, slot));
            assert(def.id != slots[k].id);
            let m = choose|m: int| 0 <= m < now.pending.len() && now.pending[m] == slots[k];
            if m == now.pending.len() - 1 {
                assert(end.pending[slot] == slots[k]);
            } else {
                assert(end.pending[m] == slots[k]);
            }
        }
    }
}

/// A component whose constructor never answers with an instance makes
/// resolution fail; and where no component lists a dependency twice, the
/// failure is the one for want of progress.
pub proof fn lemma_never_accepting_fails<V: Init>(
    tree: InitTree<V>,
    r: Result<InitializedTree<V>, InitError>,
    k: int,
)
    requires
        tree.resolves_to(r),
        0 <= k < tree.slots().len(),
        never_accepts::<V>(tree.slots()[k].id),
    ensures
        r is Err,
        (forall|i: int|
            0 <= i < tree.slots().len() ==> (#[trigger] tree.slots()[i]).deps.no_duplicates())
            ==> (r matches Err(e) && e is UnresolvedDependencies),
{
    if r is Ok {
        let done = r->Ok_0;
        let calls = choose|calls: Seq<Call>|
            {
                &&& #[trigger] arises::<V>(tree.slots(), calls, done@)
                &&& carried_out(tree.slots(), steps_of(calls), done.order())
                &&& done.cache() matches Some(recorded) ==> recorded == steps_of(calls)
            };
        lemma_declining_stays_pending::<V>(tree.slots(), calls, done@, k);
    }
}

/// The constructors of the family answer alike when they are handed the
/// same instances.
pub open spec fn deterministic<V: Init>() -> bool {
    forall|id: u64, before: Seq<V>, a1: Option<V>, after1: Seq<V>, a2: Option<V>, after2: Seq<V>|
        #![trigger constructs::<V>(id, before, a1, after1), constructs::<V>(id, before, a2, after2)]
        constructs::<V>(id, before, a1, after1) && constructs::<V>(id, before, a2, after2) ==> a1
            == a2 && after1 == after2
}

/// With constructors that answer alike when handed the same instances, the
/// calls made determine the instances that arise.
pub proof fn lemma_calls_determine_instances<V: Init>(
    slots: Seq<DefView>,
    calls: Seq<Call>,
    one: Map<u64, V>,
    other: Map<u64, V>,
)
    requires
        deterministic::<V>(),
        arises::<V>(slots, calls, one),
        arises::<V>(slots, calls, other),
    ensures
        one == other,
    decreases calls.len(),
{
    if calls.len() > 0 {
        let earlier = calls.drop_last();
        let prev1 = choose|prev: Map<u64, V>|
            arises::<V>(slots, earlier, prev) && #[trigger] last_call::<V>(slots, calls, prev, one);
        let prev2 = choose|prev: Map<u64, V>|
            arises::<V>(slots, earlier, prev) && #[trigger] last_call::<V>(slots, calls, prev, other);
        lemma_calls_determine_instances::<V>(slots, earlier, prev1, prev2);
        let now = replay(slots, steps_of(earlier))->0;
        let def = now.pending[calls.last().slot as int];
        let (mid1, answer1) = choose|mid: Map<u64, V>, answer: Option<V>| #[trigger]
            called_with::<V>(def, calls.last().built, prev1, mid, answer, one);
        let (mid2, answer2) = choose|mid: Map<u64, V>, answer: Option<V>| #[trigger]
            called_with::<V>(def, calls.last().built, prev2, mid, answer, other);
        let before = handles_of(prev1, def.deps);
        assert(constructs::<V>(def.id, before, answer1, handles_of(mid1, def.deps)));
        assert(constructs::<V>(def.id, before, answer2, handles_of(mid2, def.deps)));
        assert(mid1 =~= mid2) by {
            assert forall|id: u64| mid1.contains_key(id) implies mid1[id] == mid2[id] by {
                if def.deps.contains(id) {
                    let j = choose|j: int| 0 <= j < def.deps.len() && def.deps[j] == id;
                    assert(handles_of(mid1, def.deps)[j] == mid1[id]);
                    assert(handles_of(mid2, def.deps)[j] == mid2[id]);
                }
            }
        }
    }
}

/// Two trees that register the same identities and load the same cache, in
/// whatever order the registrations were made, resolve to the same instances,
/// where the constructors answer alike when handed the same instances, accept
/// the handles that they can ever be given, and list no dependency twice.
pub proof fn lemma_same_instances<V: Init>(
    first: InitTree<V>,
    one: Result<InitializedTree<V>, InitError>,
    second: InitTree<V>,
    other: Result<InitializedTree<V>, InitError>,
)
    requires
        first.resolves_to(one),
        second.resolves_to(other),
        first.ids() == second.ids(),
        first.cache() == second.cache(),
        well_behaved::<V>(first.slots()),
        deterministic::<V>(),
    ensures
        one is Ok,
        other is Ok,
        (one->Ok_0)@ == (other->Ok_0)@,
        (one->Ok_0).cache() == (other->Ok_0).cache(),
{
    lemma_registration_order_is_irrelevant(first, second);
    let slots = first.slots();
    let calls = all_built(schedule(slots, first.cache()));
    lemma_calls_determine_instances::<V>(slots, calls, (one->Ok_0)@, (other->Ok_0)@);
}

/// A cache that a resolution recorded, loaded for the same identities again,
/// leads to the same instances by the same calls, where the constructors
/// answer alike when handed the same instances, accept the handles that they
/// can ever be given, and list no dependency twice. No constructor is called
/// but once for each component.
pub proof fn lemma_cache_round_trip_instances<V: Init>(
    first: InitTree<V>,
    recorded: InitializedTree<V>,
    second: InitTree<V>,
    r: Result<InitializedTree<V>, InitError>,
)
    requires
        first.cache() is Some,
        first.resolves_to(Ok(recorded)),
        second.ids() == first.ids(),
        second.cache() == recorded.cache(),
        second.resolves_to(r),
        well_behaved::<V>(first.slots()),
        deterministic::<V>(),
    ensures
        r is Ok,
        (r->Ok_0).was_correct(),
        (r->Ok_0)@ == recorded@,
        arises::<V>(second.slots(), all_built(recorded.cache()->0), (r->Ok_0)@),
        all_built(recorded.cache()->0).len() == second.slots().len(),
{
    lemma_cache_round_trip(first, recorded, second, r);
    lemma_registration_order_is_irrelevant(first, second);
    let slots = first.slots();
    let kept = recorded.cache()->0;
    assert(kept == schedule(slots, first.cache()));
    assert(kept == schedule(slots, second.cache()));
    lemma_calls_determine_instances::<V>(slots, all_built(kept), (r->Ok_0)@, recorded@);
    crate::schedule::lemma_replay_reachable_counts(slots, kept);
}

} // verus!
