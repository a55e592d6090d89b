//! The contract between a family of components and the engine, and the
//! dependency graph that such a family declares.
use vstd::prelude::*;
use crate::internal::{DefView, TypeInitDef};

verus! {

/// Implemented by the type that holds the instances of a family of components.
///
/// The family says, for every identity, which component it is, and constructs
/// an instance on request. What the engine promises, it promises of a family
/// that is stable: asked twice for the descriptor of one identity, it gives
/// the same content (see [`stable`]).
pub trait Init: Sized {
    /// The descriptor of component `id`: its direct dependencies, in the order
    /// in which its constructor receives their handles, and its display name.
    fn self_def(id: u64) -> (def: TypeInitDef)
        ensures
            def.id == id,
    ;

    /// Constructs component `id`. `handles` holds the instances of its direct
    /// dependencies, one for each entry of its descriptor and in that order.
    /// The constructor owns them for the time of the call; it may change them
    /// and hands them back, as many as it received and in the same order,
    /// beside its answer. `None` means that the component is not ready yet.
    fn init(id: u64, handles: Vec<Self>) -> (built: (Option<Self>, Vec<Self>))
        ensures
            built.1@.len() == handles@.len(),
    ;
}

/// The family `V` may answer a request for the descriptor of `id` with `def`.
pub open spec fn declares<V: Init>(id: u64, def: TypeInitDef) -> bool {
    call_ensures(V::self_def, (id,), def)
}

/// Whatever the family `V` answers to a request for the descriptor of one
/// identity has the same content.
pub open spec fn stable<V: Init>() -> bool {
    forall|id: u64, a: TypeInitDef, b: TypeInitDef|
        #![trigger declares::<V>(id, a), declares::<V>(id, b)]
        declares::<V>(id, a) && declares::<V>(id, b) ==> a@ == b@
}

/// The descriptor that the family `V` declares for component `id`.
pub open spec fn def_of<V: Init>(id: u64) -> DefView {
    let def = choose|def: TypeInitDef| declares::<V>(id, def);
    DefView { id, deps: def.deps@, name: def.name@ }
}

/// The direct dependencies that the family `V` declares for component `id`,
/// in the order in which its constructor receives their handles.
pub open spec fn deps_of<V: Init>(id: u64) -> Seq<u64> {
    def_of::<V>(id).deps
}

/// The constructor of component `id` never declines when it is handed one
/// instance for each of its direct dependencies, whatever the instances.
pub open spec fn always_ready<V: Init>(id: u64) -> bool {
    forall|handles: Vec<V>, built: (Option<V>, Vec<V>)|
        handles@.len() == deps_of::<V>(id).len() && #[trigger] call_ensures(
            V::init,
            (id, handles),
            built,
        ) ==> built.0 is Some
}

/// What a stable family answers is the descriptor that it declares.
pub proof fn lemma_declared<V: Init>(id: u64, def: TypeInitDef)
    requires
        stable::<V>(),
        declares::<V>(id, def),
    ensures
        def@ == def_of::<V>(id),
{
    let chosen = choose|other: TypeInitDef| declares::<V>(id, other);
    assert(declares::<V>(id, chosen));
    assert(chosen@ == def@);
}

/// Every dependency chain that starts at `id` has fewer than `budget + 1`
/// components: `id` itself counts, so no chain fits a budget of zero.
pub open spec fn depth_ok<V: Init>(id: u64, budget: nat) -> bool
    decreases budget,
{
    budget > 0 && forall|j: int|
        0 <= j < deps_of::<V>(id).len() ==> depth_ok::<V>(
            #[trigger] deps_of::<V>(id)[j],
            (budget - 1) as nat,
        )
}

/// What the collector has accumulated after visiting `id` with `budget` levels
/// left, starting from `acc`, and whether it completed. It appends the direct
/// dependencies of `id` and then visits each of them in turn; it stops at the
/// first visit that has no budget left.
pub open spec fn collect<V: Init>(id: u64, budget: nat, acc: Seq<u64>) -> (Seq<u64>, bool)
    decreases budget, 0nat,
{
    if budget == 0 {
        (acc, false)
    } else {
        collect_each::<V>(deps_of::<V>(id), 0, (budget - 1) as nat, acc + deps_of::<V>(id))
    }
}

/// The visits of `deps[from..]`, one after the other, each with `budget`
/// levels left.
pub open spec fn collect_each<V: Init>(deps: Seq<u64>, from: int, budget: nat, acc: Seq<u64>) -> (
    Seq<u64>,
    bool,
)
    decreases budget, 1 + deps.len() - from,
{
    if from < 0 || from >= deps.len() {
        (acc, true)
    } else {
        let visited = collect::<V>(deps[from], budget, acc);
        if visited.1 {
            collect_each::<V>(deps, from + 1, budget, visited.0)
        } else {
            visited
        }
    }
}

/// A larger budget admits whatever a smaller one admits.
pub proof fn lemma_depth_ok_monotone<V: Init>(id: u64, small: nat, large: nat)
    requires
        depth_ok::<V>(id, small),
        small <= large,
    ensures
        depth_ok::<V>(id, large),
    decreases small,
{
    assert forall|j: int| 0 <= j < deps_of::<V>(id).len() implies depth_ok::<V>(
        #[trigger] deps_of::<V>(id)[j],
        (large - 1) as nat,
    ) by {
        lemma_depth_ok_monotone::<V>(deps_of::<V>(id)[j], (small - 1) as nat, (large - 1) as nat);
    }
}

/// Every identity of `out` from position `from` on has all its direct
/// dependencies somewhere in `out` and fits `budget`.
pub open spec fn tail_closed<V: Init>(out: Seq<u64>, from: int, budget: nat) -> bool {
    forall|k: int|
        from <= k < out.len() ==> depth_ok::<V>(#[trigger] out[k], budget) && direct_deps_in::<V>(
            out[k],
            out,
        )
}

/// All direct dependencies of `id` occur in `out`.
pub open spec fn direct_deps_in<V: Init>(id: u64, out: Seq<u64>) -> bool {
    forall|j: int| 0 <= j < deps_of::<V>(id).len() ==> out.contains(#[trigger] deps_of::<V>(id)[j])
}

/// `acc` is the beginning of `out`.
pub open spec fn extends(out: Seq<u64>, acc: Seq<u64>) -> bool {
    acc.len() <= out.len() && forall|m: int| 0 <= m < acc.len() ==> out[m] == acc[m]
}

pub proof fn lemma_extends_keeps<V: Init>(id: u64, acc: Seq<u64>, out: Seq<u64>)
    requires
        extends(out, acc),
        direct_deps_in::<V>(id, acc),
    ensures
        direct_deps_in::<V>(id, out),
{
    assert forall|j: int| 0 <= j < deps_of::<V>(id).len() implies out.contains(
        #[trigger] deps_of::<V>(id)[j],
    ) by {
        let dep = deps_of::<V>(id)[j];
        let m = choose|m: int| 0 <= m < acc.len() && acc[m] == dep;
        assert(out[m] == dep);
    }
}

/// The collector completes from `id` exactly when every dependency chain from
/// `id` fits the budget. It only ever appends; and when it completes, what it
/// appended holds the direct dependencies of `id` and is closed under direct
/// dependencies.
pub proof fn lemma_collect<V: Init>(id: u64, budget: nat, acc: Seq<u64>)
    ensures
        collect::<V>(id, budget, acc).1 <==> depth_ok::<V>(id, budget),
        extends(collect::<V>(id, budget, acc).0, acc),
        collect::<V>(id, budget, acc).1 ==> direct_deps_in::<V>(
            id,
            collect::<V>(id, budget, acc).0,
        ),
        collect::<V>(id, budget, acc).1 ==> tail_closed::<V>(
            collect::<V>(id, budget, acc).0,
            acc.len() as int,
            budget,
        ),
    decreases budget, 0nat,
{
    if budget > 0 {
        let deps = deps_of::<V>(id);
        let start = acc + deps;
        let below = (budget - 1) as nat;
        lemma_collect_each::<V>(deps, 0, below, start);
        let out = collect_each::<V>(deps, 0, below, start).0;
        assert forall|m: int| 0 <= m < acc.len() implies out[m] == acc[m] by {
            assert(out[m] == start[m]);
        }
        if collect::<V>(id, budget, acc).1 {
            assert forall|j: int| 0 <= j < deps.len() implies out.contains(#[trigger] deps[j]) by {
                assert(out[acc.len() + j] == start[acc.len() + j]);
                assert(start[acc.len() + j] == deps[j]);
            }
            assert forall|k: int| acc.len() <= k < out.len() implies depth_ok::<V>(
                #[trigger] out[k],
                budget,
            ) && direct_deps_in::<V>(out[k], out) by {
                if k < start.len() {
                    let j = k - acc.len();
                    assert(out[k] == start[k]);
                    assert(out[k] == deps[j]);
                    lemma_depth_ok_monotone::<V>(deps[j], below, budget);
                } else {
                    lemma_depth_ok_monotone::<V>(out[k], below, budget);
                }
            }
        }
    }
}

/// The visits of `deps[from..]` complete exactly when each of them fits the
/// budget; then the direct dependencies of each are in the result, and what
/// was appended is closed under direct dependencies.
pub proof fn lemma_collect_each<V: Init>(deps: Seq<u64>, from: int, budget: nat, acc: Seq<u64>)
    requires
        0 <= from,
    ensures
        collect_each::<V>(deps, from, budget, acc).1 <==> (forall|i: int|
            from <= i < deps.len() ==> depth_ok::<V>(#[trigger] deps[i], budget)),
        extends(collect_each::<V>(deps, from, budget, acc).0, acc),
        collect_each::<V>(deps, from, budget, acc).1 ==> (forall|i: int|
            from <= i < deps.len() ==> direct_deps_in::<V>(
                #[trigger] deps[i],
                collect_each::<V>(deps, from, budget, acc).0,
            )),
        collect_each::<V>(deps, from, budget, acc).1 ==> tail_closed::<V>(
            collect_each::<V>(deps, from, budget, acc).0,
            acc.len() as int,
            budget,
        ),
    decreases budget, 1 + deps.len() - from,
{
    if from < deps.len() {
        let visited = collect::<V>(deps[from], budget, acc);
        lemma_collect::<V>(deps[from], budget, acc);
        if visited.1 {
            lemma_collect_each::<V>(deps, from + 1, budget, visited.0);
            let out = collect_each::<V>(deps, from + 1, budget, visited.0).0;
            assert forall|m: int| 0 <= m < acc.len() implies out[m] == acc[m] by {
                assert(out[m] == visited.0[m]);
            }
            if collect_each::<V>(deps, from, budget, acc).1 {
                assert forall|i: int| from <= i < deps.len() implies direct_deps_in::<V>(
                    #[trigger] deps[i],
                    out,
                ) by {
                    if i == from {
                        lemma_extends_keeps::<V>(deps[from], visited.0, out);
                    }
                }
                assert forall|k: int| acc.len() <= k < out.len() implies depth_ok::<V>(
                    #[trigger] out[k],
                    budget,
                ) && direct_deps_in::<V>(out[k], out) by {
                    if k < visited.0.len() {
                        assert(out[k] == visited.0[k]);
                        assert(depth_ok::<V>(visited.0[k], budget));
                        lemma_extends_keeps::<V>(visited.0[k], visited.0, out);
                    }
                }
            }
        } else {
            assert(!depth_ok::<V>(deps[from], budget));
        }
    }
}

} // verus!
