//! Collects everything that a component depends on, directly or through other
//! components, and refuses chains that reach the depth ceiling.
use vstd::prelude::*;
use crate::component::{
    collect, collect_each, def_of, deps_of, depth_ok, lemma_collect, lemma_declared, stable, Init,
};
use crate::error::InitError;
use crate::internal::{get_type_names, ids_of, joined, names_of, views_of, DefView, TypeInitDef};

verus! {

/// The number of levels that a visit at `call_depth` may still descend under
/// the ceiling `max_depth`.
pub open spec fn budget_left(call_depth: u32, max_depth: u32) -> nat {
    if call_depth < max_depth {
        (max_depth - call_depth) as nat
    } else {
        0
    }
}

/// The descriptors that the family `V` declares for `ids`, in order.
pub open spec fn defs_of<V: Init>(ids: Seq<u64>) -> Seq<DefView> {
    Seq::new(ids.len(), |i: int| def_of::<V>(ids[i]))
}

/// The descriptors of the direct dependencies of component `id`, in the order
/// in which the component declares them, where the family is stable.
pub fn deps_list<V: Init>(id: u64) -> (defs: Vec<TypeInitDef>)
    ensures
        stable::<V>() ==> views_of(defs@) == defs_of::<V>(deps_of::<V>(id)),
{
    let own = V::self_def(id);
    let mut defs: Vec<TypeInitDef> = Vec::new();
    let mut j: usize = 0;
    while j < own.deps.len()
        invariant
            j <= own.deps.len(),
            defs@.len() == j,
            stable::<V>() ==> forall|i: int|
                0 <= i < j ==> (#[trigger] defs@[i])@ == def_of::<V>(own.deps@[i]),
        decreases own.deps.len() - j,
    {
        let dep: u64 = own.deps[j];
        let def = V::self_def(dep);
        proof {
            if stable::<V>() {
                lemma_declared::<V>(dep, def);
            }
        }
        defs.push(def);
        j += 1;
    }
    proof {
        if stable::<V>() {
            lemma_declared::<V>(id, own);
            assert(views_of(defs@) =~= defs_of::<V>(deps_of::<V>(id)));
        }
    }
    defs
}

/// Appends to `t` the descriptor of everything that component `id` depends
/// on, directly or through other components: first its direct dependencies,
/// then what each of them depends on, in turn. A component reached along
/// several chains is appended once for each.
///
/// `call_depth` counts the levels above this visit. A visit at `max_depth` or
/// deeper fails at once, and the failure names everything that `t` holds at
/// that point. Where the family is stable, the collection succeeds exactly
/// when every chain from `id` fits the levels that are left.
pub fn deep_deps_list<V: Init>(
    id: u64,
    t: &mut Vec<TypeInitDef>,
    call_depth: u32,
    max_depth: u32,
) -> (r: Result<(), InitError>)
    ensures
        old(t)@.len() <= final(t)@.len(),
        forall|i: int| 0 <= i < old(t)@.len() ==> final(t)@[i] == old(t)@[i],
        r matches Err(e) ==> (e matches InitError::DependencyTooDeep { tree } && tree@ == joined(
            names_of(views_of(final(t)@)),
            ", "@,
        )),
        stable::<V>() ==> collected::<V>(
            id,
            budget_left(call_depth, max_depth),
            views_of(old(t)@),
            views_of(final(t)@),
            r is Ok,
        ),
    decreases budget_left(call_depth, max_depth),
{
    let ghost budget = budget_left(call_depth, max_depth);
    let ghost before = ids_of(views_of(t@));
    proof {
        lemma_collect::<V>(id, budget, before);
    }
    if call_depth >= max_depth {
        let tree = get_type_names(t);
        return Err(InitError::DependencyTooDeep { tree });
    }
    let first: usize = t.len();
    let mut direct = deps_list::<V>(id);
    let count: usize = direct.len();
    let ghost appended = direct@;
    t.append(&mut direct);
    let ghost below = (budget - 1) as nat;
    let ghost start = ids_of(views_of(t@));
    proof {
        if stable::<V>() {
            assert(views_of(appended).len() == appended.len());
            assert(defs_of::<V>(deps_of::<V>(id)).len() == deps_of::<V>(id).len());
            assert forall|i: int| first <= i < t@.len() implies (#[trigger] t@[i])@ == def_of::<V>(
                t@[i].id,
            ) && t@[i].id == deps_of::<V>(id)[i - first] by {
                let k = i - first;
                assert(t@[i] == appended[k]);
                assert(views_of(appended)[k] == appended[k]@);
                assert(defs_of::<V>(deps_of::<V>(id))[k] == def_of::<V>(deps_of::<V>(id)[k]));
            }
            assert(start =~= before + deps_of::<V>(id));
            assert(collect::<V>(id, budget, before) == collect_each::<V>(
                deps_of::<V>(id),
                0,
                below,
                start,
            ));
        }
    }
    let mut j: usize = 0;
    while j < count
        invariant
            j <= count,
            first == old(t)@.len(),
            first + count <= t@.len(),
            forall|i: int| 0 <= i < first ==> t@[i] == old(t)@[i],
            call_depth < max_depth,
            budget == budget_left(call_depth, max_depth),
            before == ids_of(views_of(old(t)@)),
            below == budget_left((call_depth + 1) as u32, max_depth),
            stable::<V>() ==> {
                &&& count == deps_of::<V>(id).len()
                &&& forall|i: int|
                    0 <= i < count ==> (#[trigger] t@[first + i]).id == deps_of::<V>(id)[i]
                &&& forall|i: int|
                    first <= i < t@.len() ==> (#[trigger] t@[i])@ == def_of::<V>(t@[i].id)
                &&& collect_each::<V>(deps_of::<V>(id), j as int, below, ids_of(views_of(t@)))
                    == collect::<V>(id, budget, before)
                &&& depth_ok::<V>(id, budget) == collect::<V>(id, budget, before).1
            },
        decreases count - j,
    {
        assert(first + j < t@.len() == t.len() <= usize::MAX);
        let dep: u64 = t[first + j].id;
        let ghost acc = ids_of(views_of(t@));
        let ghost held = t@;
        proof {
            lemma_collect::<V>(dep, below, acc);
        }
        match deep_deps_list::<V>(dep, t, call_depth + 1, max_depth) {
            Ok(()) => {},
            Err(e) => {
                proof {
                    if stable::<V>() {
                        assert(collect_each::<V>(deps_of::<V>(id), j as int, below, acc)
                            == collect::<V>(dep, below, acc));
                    }
                }
                return Err(e);
            },
        }
        proof {
            if stable::<V>() {
                assert(collect_each::<V>(deps_of::<V>(id), j as int, below, acc)
                    == collect_each::<V>(deps_of::<V>(id), j + 1, below, ids_of(views_of(t@))));
                assert forall|i: int| 0 <= i < count implies (#[trigger] t@[first + i]).id
                    == deps_of::<V>(id)[i] by {
                    assert(t@[first + i] == held[first + i]);
                }
                assert forall|i: int| first <= i < t@.len() implies (#[trigger] t@[i])@
                    == def_of::<V>(t@[i].id) by {
                    if i < held.len() {
                        assert(t@[i] == held[i]);
                    } else {
                        assert(views_of(t@)[i] == def_of::<V>(views_of(t@)[i].id));
                    }
                }
            }
        }
        j += 1;
    }
    Ok(())
}

/// What the collector has done with a stable family: it has turned `before`
/// into `after` by appending what it accumulates from `id` with `budget`
/// levels left, each descriptor as the family declares it, and it has
/// completed, as `done` says, exactly if every chain from `id` fits the budget.
pub open spec fn collected<V: Init>(
    id: u64,
    budget: nat,
    before: Seq<DefView>,
    after: Seq<DefView>,
    done: bool,
) -> bool {
    &&& ids_of(after) == collect::<V>(id, budget, ids_of(before)).0
    &&& forall|i: int| before.len() <= i < after.len() ==> #[trigger] after[i] == def_of::<V>(
        after[i].id,
    )
    &&& done <==> depth_ok::<V>(id, budget)
}

} // verus!
