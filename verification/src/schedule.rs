//! Construction schedules: which pending slot is constructed at each step, and
//! what a schedule leaves behind when it is carried out.
use vstd::prelude::*;
use crate::component::{def_of, deps_of, depth_ok, Init};
use crate::dedup::{has_id, strictly_ascending};
use crate::engine::{accepts, constructs, grantable, handles_of, lent, ready};
use crate::internal::DefView;

verus! {

/// How far a resolution has come: the descriptors that are still pending, slot
/// by slot, and the identities constructed so far, in the order of their
/// construction.
pub ghost struct Progress {
    pub pending: Seq<DefView>,
    pub order: Seq<u64>,
}

/// `pending` after the descriptor in `slot` has left: the last descriptor
/// moves into the slot and the sequence loses its last position.
pub open spec fn vacate(pending: Seq<DefView>, slot: int) -> Seq<DefView> {
    pending.update(slot, pending.last()).drop_last()
}

/// The state after constructing the descriptor in `slot`.
pub open spec fn advance(before: Progress, slot: int) -> Progress {
    Progress {
        pending: vacate(before.pending, slot),
        order: before.order.push(before.pending[slot].id),
    }
}

/// Carries out `steps` on the pending descriptors `slots`, starting with
/// nothing constructed. Each step names a slot; it is carried out if the slot
/// holds a descriptor whose constructor can be given its handles. The result
/// is `None` as soon as one step cannot be carried out.
pub open spec fn replay(slots: Seq<DefView>, steps: Seq<usize>) -> Option<Progress>
    decreases steps.len(),
{
    if steps.len() == 0 {
        Some(Progress { pending: slots, order: Seq::empty() })
    } else {
        match replay(slots, steps.drop_last()) {
            Some(before) => {
                let slot = steps.last() as int;
                if slot < before.pending.len() && grantable(
                    before.pending[slot],
                    before.order.to_set(),
                ) {
                    Some(advance(before, slot))
                } else {
                    None
                }
            },
            None => None,
        }
    }
}

/// `steps` can be carried out on `slots` from the first to the last and leaves
/// nothing pending.
pub open spec fn completes(slots: Seq<DefView>, steps: Seq<usize>) -> bool {
    replay(slots, steps) matches Some(end) && end.pending.len() == 0
}

/// Carrying out `steps` on `slots` constructs the components in the order
/// `order` and leaves nothing pending.
pub open spec fn carried_out(slots: Seq<DefView>, steps: Seq<usize>, order: Seq<u64>) -> bool {
    replay(slots, steps) == Some(Progress { pending: Seq::empty(), order })
}

/// One sweep over the pending descriptors from slot `at` on, where every
/// constructor accepts: a component whose direct dependencies all have
/// instances is constructed, and its slot, into which the last pending
/// descriptor has moved, is looked at again; any other slot is passed over.
/// The result is the state that the sweep leaves and `taken` with the steps of
/// the sweep behind it.
pub open spec fn sweep(now: Progress, at: int, taken: Seq<usize>) -> (Progress, Seq<usize>)
    decreases now.pending.len(), now.pending.len() - at,
{
    if at < 0 || at >= now.pending.len() {
        (now, taken)
    } else if ready(now.pending[at], now.order.to_set()) {
        sweep(advance(now, at), at, taken.push(at as usize))
    } else {
        sweep(now, at + 1, taken)
    }
}

/// A sweep takes one step for each descriptor that leaves.
pub proof fn lemma_sweep_counts(now: Progress, at: int, taken: Seq<usize>)
    ensures
        sweep(now, at, taken).0.pending.len() + sweep(now, at, taken).1.len() == now.pending.len()
            + taken.len(),
        sweep(now, at, taken).1.len() >= taken.len(),
    decreases now.pending.len(), now.pending.len() - at,
{
    if at < 0 || at >= now.pending.len() {
    } else if ready(now.pending[at], now.order.to_set()) {
        lemma_sweep_counts(advance(now, at), at, taken.push(at as usize));
    } else {
        lemma_sweep_counts(now, at + 1, taken);
    }
}

/// A sweep takes no step exactly when no descriptor from slot `at` on has
/// instances for all its direct dependencies; and then it changes nothing.
pub proof fn lemma_sweep_idle(now: Progress, at: int, taken: Seq<usize>)
    requires
        0 <= at,
    ensures
        sweep(now, at, taken).1.len() == taken.len() <==> (forall|i: int|
            at <= i < now.pending.len() ==> !ready(#[trigger] now.pending[i], now.order.to_set())),
        sweep(now, at, taken).1.len() == taken.len() ==> sweep(now, at, taken) == (now, taken),
    decreases now.pending.len(), now.pending.len() - at,
{
    if at >= now.pending.len() {
    } else if ready(now.pending[at], now.order.to_set()) {
        lemma_sweep_counts(advance(now, at), at, taken.push(at as usize));
    } else {
        lemma_sweep_idle(now, at + 1, taken);
        assert forall|i: int| at <= i < now.pending.len() implies (!ready(
            #[trigger] now.pending[i],
            now.order.to_set(),
        ) <==> (i == at || !ready(now.pending[i], now.order.to_set()))) by {}
    }
}

/// Sweep after sweep, until one constructs nothing, where every constructor
/// accepts: the state that is left, and `taken` with the steps of all the
/// sweeps behind it.
pub open spec fn sweeps(now: Progress, taken: Seq<usize>) -> (Progress, Seq<usize>)
    decreases now.pending.len(),
{
    let swept = sweep(now, 0, taken);
    if swept.1.len() <= taken.len() {
        swept
    } else {
        proof {
            lemma_sweep_counts(now, 0, taken);
        }
        sweeps(swept.0, swept.1)
    }
}

/// Following the steps `loaded[k..]` where every constructor accepts: each
/// step is carried out if its slot holds a descriptor whose direct
/// dependencies all have instances, and the first step that cannot be carried
/// out ends it. The result is the state that is left, `taken` with the steps
/// that were carried out behind it, and whether all steps were carried out.
pub open spec fn follow(now: Progress, loaded: Seq<usize>, k: int, taken: Seq<usize>) -> (
    Progress,
    Seq<usize>,
    bool,
)
    decreases loaded.len() - k,
{
    if k < 0 || k >= loaded.len() {
        (now, taken, true)
    } else if loaded[k] < now.pending.len() && ready(
        now.pending[loaded[k] as int],
        now.order.to_set(),
    ) {
        follow(advance(now, loaded[k] as int), loaded, k + 1, taken.push(loaded[k]))
    } else {
        (now, taken, false)
    }
}

/// The steps by which the pending descriptors `slots` are resolved where
/// every constructor accepts: the steps of the loaded cache as far as they
/// can be followed, and then sweep after sweep.
pub open spec fn schedule(slots: Seq<DefView>, loaded: Option<Seq<usize>>) -> Seq<usize> {
    let start = Progress { pending: slots, order: Seq::empty() };
    let followed = match loaded {
        Some(steps) => follow(start, steps, 0, Seq::empty()),
        None => (start, Seq::empty(), false),
    };
    sweeps(followed.0, followed.1).1
}

/// One call of a constructor: for the component in which slot, and whether it
/// answered with an instance.
pub ghost struct Call {
    pub slot: usize,
    pub built: bool,
}

/// The steps among `calls`: the slots of the calls that answered with an
/// instance, in order.
pub open spec fn steps_of(calls: Seq<Call>) -> Seq<usize>
    decreases calls.len(),
{
    if calls.len() == 0 {
        Seq::empty()
    } else if calls.last().built {
        steps_of(calls.drop_last()).push(calls.last().slot)
    } else {
        steps_of(calls.drop_last())
    }
}

/// The calls that carry out `steps` with every constructor accepting.
pub open spec fn all_built(steps: Seq<usize>) -> Seq<Call> {
    Seq::new(steps.len(), |i: int| Call { slot: steps[i], built: true })
}

/// One call of the constructor of `def` turns the instances `prev` into
/// `next`: the constructor is handed the instances of its direct dependencies
/// as `prev` holds them, in the order of the descriptor; what it leaves in the
/// handles goes back under their identities; every other instance stays as it
/// is; and an instance that it answers with is kept under the identity of
/// `def`, which `built` says it did.
pub open spec fn called<V: Init>(
    def: DefView,
    built: bool,
    prev: Map<u64, V>,
    next: Map<u64, V>,
) -> bool {
    exists|mid: Map<u64, V>, answer: Option<V>| #[trigger]
        called_with::<V>(def, built, prev, mid, answer, next)
}

/// The call of [`called`], where the constructor answers `answer` and `mid`
/// holds the instances as the handles come back.
pub open spec fn called_with<V: Init>(
    def: DefView,
    built: bool,
    prev: Map<u64, V>,
    mid: Map<u64, V>,
    answer: Option<V>,
    next: Map<u64, V>,
) -> bool {
    &&& grantable(def, prev.dom())
    &&& constructs::<V>(def.id, handles_of(prev, def.deps), answer, handles_of(mid, def.deps))
    &&& mid.dom() == prev.dom()
    &&& forall|k: u64| prev.contains_key(k) && !def.deps.contains(k) ==> mid[k] == prev[k]
    &&& match answer {
        Some(instance) => built && next == mid.insert(def.id, instance),
        None => !built && next == mid,
    }
}

/// The instances `held` can arise from `calls` on the pending descriptors
/// `slots`: nothing is held before the first call, and each call is made on a
/// slot that holds a descriptor at that time and turns the instances held
/// before it into those held after it.
pub open spec fn arises<V: Init>(slots: Seq<DefView>, calls: Seq<Call>, held: Map<u64, V>) -> bool
    decreases calls.len(),
{
    if calls.len() == 0 {
        held == Map::<u64, V>::empty()
    } else {
        exists|prev: Map<u64, V>|
            arises::<V>(slots, calls.drop_last(), prev) && #[trigger] last_call::<V>(
                slots,
                calls,
                prev,
                held,
            )
    }
}

/// The last of `calls` is made on a slot that holds a descriptor after the
/// calls before it, and turns the instances `prev` into `held`.
pub open spec fn last_call<V: Init>(
    slots: Seq<DefView>,
    calls: Seq<Call>,
    prev: Map<u64, V>,
    held: Map<u64, V>,
) -> bool {
    &&& calls.len() > 0
    &&& replay(slots, steps_of(calls.drop_last())) matches Some(now)
    &&& calls.last().slot < now.pending.len()
    &&& called::<V>(now.pending[calls.last().slot as int], calls.last().built, prev, held)
}

/// Every constructor accepts the handles that it can ever be given: whatever
/// instances arise from calls on `slots`, a pending component whose
/// dependencies all have instances is constructed when its turn comes.
pub open spec fn all_ready<V: Init>(slots: Seq<DefView>) -> bool {
    forall|calls: Seq<Call>, held: Map<u64, V>| #[trigger]
        arises::<V>(slots, calls, held) ==> (replay(slots, steps_of(calls)) matches Some(now)
            ==> forall|i: int|
            0 <= i < now.pending.len() && grantable(#[trigger] now.pending[i], held.dom())
                ==> accepts::<V>(now.pending[i].id, handles_of(held, now.pending[i].deps)))
}

/// No pending component lists a dependency twice, and every constructor
/// accepts the handles that it can ever be given.
pub open spec fn well_behaved<V: Init>(slots: Seq<DefView>) -> bool {
    all_ready::<V>(slots) && forall|k: int|
        0 <= k < slots.len() ==> (#[trigger] slots[k]).deps.no_duplicates()
}

/// The constructor of the component in `slot` declined in one of
/// `calls[cut..]`.
pub open spec fn declined_since(calls: Seq<Call>, cut: int, slot: int) -> bool {
    exists|p: int| cut <= p < calls.len() && 0 <= p && #[trigger] calls[p].slot == slot
}

/// None of `calls[cut..]` answered with an instance.
pub open spec fn quiet_since(calls: Seq<Call>, cut: int) -> bool {
    0 <= cut <= calls.len() && forall|p: int| cut <= p < calls.len() ==> !(#[trigger] calls[p]).built
}

/// Nothing more can be constructed after `calls`: since the last construction
/// every pending component that has instances for all its direct dependencies
/// has had its constructor called, and the constructor declined.
pub open spec fn stalled(slots: Seq<DefView>, calls: Seq<Call>) -> bool {
    replay(slots, steps_of(calls)) matches Some(end) && exists|cut: int|
        {
            &&& #[trigger] quiet_since(calls, cut)
            &&& forall|i: int|
                0 <= i < end.pending.len() ==> !ready(#[trigger] end.pending[i], end.order.to_set())
                    || declined_since(calls, cut, i)
        }
}

/// A constructor that declined, anywhere among calls from which instances
/// arise, shows that not every constructor accepts what it is given.
pub proof fn lemma_decline_refutes<V: Init>(
    slots: Seq<DefView>,
    calls: Seq<Call>,
    held: Map<u64, V>,
    p: int,
)
    requires
        arises::<V>(slots, calls, held),
        0 <= p < calls.len(),
        !calls[p].built,
    ensures
        !all_ready::<V>(slots),
    decreases calls.len(),
{
    let earlier = calls.drop_last();
    let prev = choose|prev: Map<u64, V>|
        arises::<V>(slots, earlier, prev) && #[trigger] last_call::<V>(slots, calls, prev, held);
    if p < calls.len() - 1 {
        assert(earlier[p] == calls[p]);
        lemma_decline_refutes::<V>(slots, earlier, prev, p);
    } else {
        let now = replay(slots, steps_of(earlier))->0;
        let def = now.pending[calls.last().slot as int];
        let (mid, answer) = choose|mid: Map<u64, V>, answer: Option<V>| #[trigger]
            called_with::<V>(def, calls.last().built, prev, mid, answer, held);
        assert(answer is None);
        assert(!accepts::<V>(def.id, handles_of(prev, def.deps)));
    }
}

/// `handles` holds one instance for each of `deps`, and each is as `proper`
/// wants an instance of that component to be.
pub open spec fn proper_handles<V>(
    proper: spec_fn(u64, V) -> bool,
    deps: Seq<u64>,
    handles: Seq<V>,
) -> bool {
    handles.len() == deps.len() && forall|j: int|
        0 <= j < deps.len() ==> proper(deps[j], #[trigger] handles[j])
}

/// The constructors of `slots` keep `proper`: handed proper instances, each
/// leaves them proper, and what it answers with is proper for its component.
pub open spec fn keeps_proper<V: Init>(
    slots: Seq<DefView>,
    proper: spec_fn(u64, V) -> bool,
) -> bool {
    forall|k: int, before: Seq<V>, answer: Option<V>, after: Seq<V>|
        0 <= k < slots.len() && proper_handles(proper, slots[k].deps, before)
            && #[trigger] constructs::<V>(slots[k].id, before, answer, after) ==> proper_handles(
            proper,
            slots[k].deps,
            after,
        ) && (answer matches Some(instance) ==> proper(slots[k].id, instance))
}

/// The constructors of `slots` accept whenever they are handed proper
/// instances.
pub open spec fn accepts_proper<V: Init>(
    slots: Seq<DefView>,
    proper: spec_fn(u64, V) -> bool,
) -> bool {
    forall|k: int, before: Seq<V>|
        0 <= k < slots.len() && #[trigger] proper_handles(proper, slots[k].deps, before)
            ==> accepts::<V>(slots[k].id, before)
}

/// Where the constructors keep `proper`, every instance that arises is
/// proper for its component.
pub proof fn lemma_arises_proper<V: Init>(
    slots: Seq<DefView>,
    proper: spec_fn(u64, V) -> bool,
    calls: Seq<Call>,
    held: Map<u64, V>,
)
    requires
        keeps_proper::<V>(slots, proper),
        arises::<V>(slots, calls, held),
    ensures
        forall|id: u64| held.contains_key(id) ==> proper(id, #[trigger] held[id]),
    decreases calls.len(),
{
    if calls.len() > 0 {
        let earlier = calls.drop_last();
        let prev = choose|prev: Map<u64, V>|
            arises::<V>(slots, earlier, prev) && #[trigger] last_call::<V>(slots, calls, prev, held);
        lemma_arises_proper::<V>(slots, proper, earlier, prev);
        let now = replay(slots, steps_of(earlier))->0;
        let def = now.pending[calls.last().slot as int];
        lemma_replay_within(slots, steps_of(earlier));
        assert(slots.contains(def));
        let k = choose|k: int| 0 <= k < slots.len() && slots[k] == def;
        let (mid, answer) = choose|mid: Map<u64, V>, answer: Option<V>| #[trigger]
            called_with::<V>(def, calls.last().built, prev, mid, answer, held);
        let before = handles_of(prev, def.deps);
        let after = handles_of(mid, def.deps);
        assert(proper_handles(proper, slots[k].deps, before)) by {
            assert forall|j: int| 0 <= j < def.deps.len() implies proper(
                def.deps[j],
                #[trigger] before[j],
            ) by {
                assert(prev.dom().contains(def.deps[j]));
            }
        }
        assert(constructs::<V>(slots[k].id, before, answer, after));
        assert(proper_handles(proper, def.deps, after));
        assert forall|id: u64| mid.contains_key(id) implies proper(id, #[trigger] mid[id]) by {
            if def.deps.contains(id) {
                let j = choose|j: int| 0 <= j < def.deps.len() && def.deps[j] == id;
                assert(after[j] == mid[id]);
            } else {
                assert(prev.dom().contains(id));
            }
        }
    }
}

/// Where the constructors keep `proper` and accept proper instances, every
/// constructor accepts the handles that it can ever be given.
pub proof fn lemma_proper_suffices<V: Init>(slots: Seq<DefView>, proper: spec_fn(u64, V) -> bool)
    requires
        keeps_proper::<V>(slots, proper),
        accepts_proper::<V>(slots, proper),
    ensures
        all_ready::<V>(slots),
{
    assert forall|calls: Seq<Call>, held: Map<u64, V>| #[trigger]
        arises::<V>(slots, calls, held) implies (replay(slots, steps_of(calls)) matches Some(now)
        ==> forall|i: int|
        0 <= i < now.pending.len() && grantable(#[trigger] now.pending[i], held.dom())
            ==> accepts::<V>(now.pending[i].id, handles_of(held, now.pending[i].deps))) by {
        if replay(slots, steps_of(calls)) is Some {
            let now = replay(slots, steps_of(calls))->0;
            lemma_arises_proper::<V>(slots, proper, calls, held);
            lemma_replay_within(slots, steps_of(calls));
            assert forall|i: int|
                0 <= i < now.pending.len() && grantable(
                    #[trigger] now.pending[i],
                    held.dom(),
                ) implies accepts::<V>(now.pending[i].id, handles_of(held, now.pending[i].deps)) by {
                let def = now.pending[i];
                assert(slots.contains(def));
                let k = choose|k: int| 0 <= k < slots.len() && slots[k] == def;
                let before = handles_of(held, def.deps);
                assert(proper_handles(proper, slots[k].deps, before)) by {
                    assert forall|j: int| 0 <= j < def.deps.len() implies proper(
                        def.deps[j],
                        #[trigger] before[j],
                    ) by {
                        assert(held.dom().contains(def.deps[j]));
                    }
                }
            }
        }
    }
}

/// Every identity of `order` comes after all its direct dependencies.
pub open spec fn respects_dependencies<V: Init>(order: Seq<u64>) -> bool {
    forall|k: int, j: int|
        0 <= k < order.len() && 0 <= j < deps_of::<V>(order[k]).len() ==> lent(
            order,
            k,
            #[trigger] deps_of::<V>(order[k])[j],
        )
}

/// `order` constructs each of `ids` exactly once and nothing else, every
/// component after all its direct dependencies.
pub open spec fn construction_order<V: Init>(order: Seq<u64>, ids: Set<u64>) -> bool {
    &&& order.no_duplicates()
    &&& order.to_set() == ids
    &&& respects_dependencies::<V>(order)
}

/// Each descriptor of `slots` is the one that the family `V` declares for its
/// identity.
pub open spec fn declared<V: Init>(slots: Seq<DefView>) -> bool {
    forall|i: int| 0 <= i < slots.len() ==> #[trigger] slots[i] == def_of::<V>(slots[i].id)
}

/// What resolution relies on in the pending descriptors: ascending distinct
/// identities; each descriptor is the one that the family declares; every
/// direct dependency is itself pending; and every dependency chain fits
/// `ceiling`.
pub open spec fn sound<V: Init>(slots: Seq<DefView>, ceiling: nat) -> bool {
    &&& strictly_ascending(slots)
    &&& declared::<V>(slots)
    &&& forall|i: int, j: int|
        0 <= i < slots.len() && 0 <= j < slots[i].deps.len() ==> has_id(
            slots,
            #[trigger] slots[i].deps[j],
        )
    &&& forall|i: int| 0 <= i < slots.len() ==> depth_ok::<V>((#[trigger] slots[i]).id, ceiling)
}

/// What holds of every state that a schedule reaches.
pub open spec fn reachable<V: Init>(slots: Seq<DefView>, steps: Seq<usize>, now: Progress) -> bool {
    &&& now.order.len() == steps.len()
    &&& now.pending.len() + steps.len() == slots.len()
    &&& forall|i: int| 0 <= i < now.pending.len() ==> slots.contains(#[trigger] now.pending[i])
    &&& forall|i: int, j: int|
        0 <= i < j < now.pending.len() ==> now.pending[i].id != now.pending[j].id
    &&& forall|i: int|
        0 <= i < now.pending.len() ==> !now.order.contains((#[trigger] now.pending[i]).id)
    &&& forall|id: u64|
        has_id(slots, id) <==> now.order.contains(id) || has_id(now.pending, id)
    &&& now.order.no_duplicates()
    &&& respects_dependencies::<V>(now.order)
}

/// A schedule that can be carried out stays within the pending descriptors:
/// what it has constructed and what is still pending are disjoint and together
/// make up `slots`; nothing is constructed twice; and nothing is constructed
/// before its direct dependencies.
pub proof fn lemma_replay_reachable<V: Init>(slots: Seq<DefView>, ceiling: nat, steps: Seq<usize>)
    requires
        sound::<V>(slots, ceiling),
        replay(slots, steps) is Some,
    ensures
        reachable::<V>(slots, steps, replay(slots, steps)->0),
    decreases steps.len(),
{
    let now = replay(slots, steps)->0;
    if steps.len() == 0 {
        assert forall|i: int| 0 <= i < now.pending.len() implies slots.contains(
            #[trigger] now.pending[i],
        ) by {
            assert(slots[i] == now.pending[i]);
        }
        assert forall|id: u64| has_id(slots, id) <==> now.order.contains(id) || has_id(
            now.pending,
            id,
        ) by {}
    } else {
        let earlier = steps.drop_last();
        let before = replay(slots, earlier)->0;
        let slot = steps.last() as int;
        lemma_replay_reachable::<V>(slots, ceiling, earlier);
        let built = before.pending[slot];
        let last = before.pending.len() - 1;
        assert(now == advance(before, slot));
        assert forall|i: int| 0 <= i < now.pending.len() implies #[trigger] now.pending[i] == (if i
            == slot {
            before.pending[last]
        } else {
            before.pending[i]
        }) by {}
        assert forall|i: int| 0 <= i < now.pending.len() implies slots.contains(
            #[trigger] now.pending[i],
        ) by {
            if i == slot {
                assert(slots.contains(before.pending[last]));
            } else {
                assert(slots.contains(before.pending[i]));
            }
        }
        assert forall|i: int, j: int| 0 <= i < j < now.pending.len() implies now.pending[i].id
            != now.pending[j].id by {
            let a = if i == slot { last } else { i };
            let b = if j == slot { last } else { j };
            assert(now.pending[i] == before.pending[a]);
            assert(now.pending[j] == before.pending[b]);
            if a < b {
                assert(before.pending[a].id != before.pending[b].id);
            } else {
                assert(before.pending[b].id != before.pending[a].id);
            }
        }
        assert forall|i: int| 0 <= i < now.pending.len() implies !now.order.contains(
            (#[trigger] now.pending[i]).id,
        ) by {
            let a = if i == slot { last } else { i };
            assert(now.pending[i] == before.pending[a]);
            assert(!before.order.contains(before.pending[a].id));
            if a < slot {
                assert(before.pending[a].id != before.pending[slot].id);
            } else {
                assert(before.pending[slot].id != before.pending[a].id);
            }
            if now.order.contains(now.pending[i].id) {
                let m = choose|m: int|
                    0 <= m < now.order.len() && now.order[m] == now.pending[i].id;
                if m < before.order.len() {
                    assert(before.order[m] == now.order[m]);
                }
            }
        }
        assert forall|id: u64| has_id(slots, id) <==> now.order.contains(id) || has_id(
            now.pending,
            id,
        ) by {
            if now.order.contains(id) {
                let m = choose|m: int| 0 <= m < now.order.len() && now.order[m] == id;
                if m < before.order.len() {
                    assert(before.order[m] == id);
                } else {
                    assert(before.pending[slot].id == id);
                    assert(has_id(before.pending, id));
                }
            }
            if has_id(now.pending, id) {
                let i = choose|i: int|
                    0 <= i < now.pending.len() && #[trigger] now.pending[i].id == id;
                let a = if i == slot { last } else { i };
                assert(before.pending[a].id == id);
                assert(has_id(before.pending, id));
            }
            if has_id(slots, id) {
                if before.order.contains(id) {
                    let m = choose|m: int| 0 <= m < before.order.len() && before.order[m] == id;
                    assert(now.order[m] == id);
                } else {
                    assert(has_id(before.pending, id));
                    let a = choose|a: int|
                        0 <= a < before.pending.len() && #[trigger] before.pending[a].id == id;
                    if a == slot {
                        assert(now.order[before.order.len() as int] == id);
                    } else if a == last {
                        assert(now.pending[slot].id == id);
                    } else {
                        assert(now.pending[a].id == id);
                    }
                }
            }
        }
        assert(now.order.no_duplicates()) by {
            assert(!before.order.contains(built.id));
            assert forall|a: int, b: int|
                0 <= a < now.order.len() && 0 <= b < now.order.len() && a != b implies now.order[a]
                != now.order[b] by {
                if a < before.order.len() && b < before.order.len() {
                    assert(before.order[a] != before.order[b]);
                } else if a < before.order.len() {
                    assert(before.order[a] == now.order[a]);
                } else {
                    assert(before.order[b] == now.order[b]);
                }
            }
        }
        assert forall|k: int, j: int|
            0 <= k < now.order.len() && 0 <= j < deps_of::<V>(now.order[k]).len() implies lent(
            now.order,
            k,
            #[trigger] deps_of::<V>(now.order[k])[j],
        ) by {
            let dep = deps_of::<V>(now.order[k])[j];
            if k < before.order.len() {
                assert(now.order[k] == before.order[k]);
                assert(lent(before.order, k, dep));
                let i = choose|i: int|
                    0 <= i < k && i < before.order.len() && #[trigger] before.order[i] == dep;
                assert(now.order[i] == dep);
            } else {
                assert(slots.contains(built));
                let s = choose|s: int| 0 <= s < slots.len() && slots[s] == built;
                assert(slots[s] == def_of::<V>(slots[s].id));
                assert(built.deps[j] == dep);
                assert(before.order.to_set().contains(dep));
                let i = choose|i: int| 0 <= i < before.order.len() && before.order[i] == dep;
                assert(now.order[i] == dep);
            }
        }
    }
}

/// What a schedule leaves pending is taken from the pending descriptors that
/// it started with.
pub proof fn lemma_replay_within(slots: Seq<DefView>, steps: Seq<usize>)
    requires
        replay(slots, steps) is Some,
    ensures
        forall|i: int|
            0 <= i < (replay(slots, steps)->0).pending.len() ==> slots.contains(
                #[trigger] (replay(slots, steps)->0).pending[i],
            ),
    decreases steps.len(),
{
    let now = replay(slots, steps)->0;
    if steps.len() == 0 {
        assert forall|i: int| 0 <= i < now.pending.len() implies slots.contains(
            #[trigger] now.pending[i],
        ) by {
            assert(slots[i] == now.pending[i]);
        }
    } else {
        let before = replay(slots, steps.drop_last())->0;
        let slot = steps.last() as int;
        lemma_replay_within(slots, steps.drop_last());
        assert(now == advance(before, slot));
        assert forall|i: int| 0 <= i < now.pending.len() implies slots.contains(
            #[trigger] now.pending[i],
        ) by {
            if i == slot {
                assert(slots.contains(before.pending[before.pending.len() - 1]));
            } else {
                assert(slots.contains(before.pending[i]));
            }
        }
    }
}

/// Whatever a schedule has constructed lists no dependency twice: of every
/// descriptor of `slots`, either it is still pending or its handles could be
/// granted.
pub proof fn lemma_constructed_had_distinct_deps(slots: Seq<DefView>, steps: Seq<usize>)
    requires
        replay(slots, steps) is Some,
    ensures
        forall|k: int|
            0 <= k < slots.len() ==> (replay(slots, steps)->0).pending.contains(#[trigger] slots[k])
                || slots[k].deps.no_duplicates(),
    decreases steps.len(),
{
    let now = replay(slots, steps)->0;
    if steps.len() == 0 {
        assert forall|k: int| 0 <= k < slots.len() implies now.pending.contains(
            #[trigger] slots[k],
        ) by {
            assert(now.pending[k] == slots[k]);
        }
    } else {
        let before = replay(slots, steps.drop_last())->0;
        let slot = steps.last() as int;
        let last = before.pending.len() - 1;
        lemma_constructed_had_distinct_deps(slots, steps.drop_last());
        assert(now == advance(before, slot));
        assert forall|k: int| 0 <= k < slots.len() implies now.pending.contains(
            #[trigger] slots[k],
        ) || slots[k].deps.no_duplicates() by {
            if before.pending.contains(slots[k]) {
                let m = choose|m: int|
                    0 <= m < before.pending.len() && before.pending[m] == slots[k];
                if m == slot {
                } else if m == last {
                    assert(now.pending[slot] == slots[k]);
                } else {
                    assert(now.pending[m] == slots[k]);
                }
            }
        }
    }
}

/// A schedule takes one step for each descriptor that leaves.
pub proof fn lemma_replay_reachable_counts(slots: Seq<DefView>, steps: Seq<usize>)
    requires
        replay(slots, steps) is Some,
    ensures
        (replay(slots, steps)->0).pending.len() + steps.len() == slots.len(),
    decreases steps.len(),
{
    if steps.len() > 0 {
        lemma_replay_reachable_counts(slots, steps.drop_last());
    }
}

/// A schedule that can be carried out can be carried out up to any of its
/// steps.
pub proof fn lemma_replay_prefix(slots: Seq<DefView>, steps: Seq<usize>, n: int)
    requires
        replay(slots, steps) is Some,
        0 <= n <= steps.len(),
    ensures
        replay(slots, steps.take(n)) is Some,
    decreases steps.len(),
{
    if n == steps.len() {
        assert(steps.take(n) =~= steps);
    } else {
        lemma_replay_prefix(slots, steps.drop_last(), n);
        assert(steps.drop_last().take(n) =~= steps.take(n));
    }
}

/// While something is pending, some pending descriptor has all its direct
/// dependencies constructed: a chain of unmet dependencies would otherwise
/// descend without end.
pub proof fn lemma_some_pending_is_ready<V: Init>(
    slots: Seq<DefView>,
    ceiling: nat,
    steps: Seq<usize>,
)
    requires
        sound::<V>(slots, ceiling),
        replay(slots, steps) matches Some(now) && now.pending.len() > 0,
    ensures
        exists|i: int|
            0 <= i < (replay(slots, steps)->0).pending.len() && ready(
                #[trigger] (replay(slots, steps)->0).pending[i],
                (replay(slots, steps)->0).order.to_set(),
            ),
{
    let now = replay(slots, steps)->0;
    lemma_replay_reachable::<V>(slots, ceiling, steps);
    assert(slots.contains(now.pending[0]));
    let s = choose|s: int| 0 <= s < slots.len() && slots[s] == now.pending[0];
    assert(depth_ok::<V>(slots[s].id, ceiling));
    lemma_descend::<V>(slots, ceiling, steps, 0, ceiling);
}

/// From a pending descriptor whose chains fit `budget`, following unmet
/// dependencies reaches a pending descriptor that is ready.
proof fn lemma_descend<V: Init>(
    slots: Seq<DefView>,
    ceiling: nat,
    steps: Seq<usize>,
    at: int,
    budget: nat,
)
    requires
        sound::<V>(slots, ceiling),
        replay(slots, steps) is Some,
        reachable::<V>(slots, steps, replay(slots, steps)->0),
        0 <= at < (replay(slots, steps)->0).pending.len(),
        depth_ok::<V>((replay(slots, steps)->0).pending[at].id, budget),
    ensures
        exists|i: int|
            0 <= i < (replay(slots, steps)->0).pending.len() && ready(
                #[trigger] (replay(slots, steps)->0).pending[i],
                (replay(slots, steps)->0).order.to_set(),
            ),
    decreases budget,
{
    let now = replay(slots, steps)->0;
    let def = now.pending[at];
    if !ready(def, now.order.to_set()) {
        let j = choose|j: int|
            0 <= j < def.deps.len() && !now.order.to_set().contains(#[trigger] def.deps[j]);
        let dep = def.deps[j];
        assert(slots.contains(def));
        let s = choose|s: int| 0 <= s < slots.len() && slots[s] == def;
        assert(slots[s] == def_of::<V>(slots[s].id));
        assert(has_id(slots, slots[s].deps[j]));
        assert(has_id(now.pending, dep));
        let next = choose|next: int|
            0 <= next < now.pending.len() && #[trigger] now.pending[next].id == dep;
        assert(deps_of::<V>(def.id)[j] == dep);
        assert(depth_ok::<V>(dep, (budget - 1) as nat));
        lemma_descend::<V>(slots, ceiling, steps, next, (budget - 1) as nat);
    }
}

} // verus!
