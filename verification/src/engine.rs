//! One construction step: handing the instances of a component's direct
//! dependencies to its constructor and taking them back.
use vstd::prelude::*;
use std::collections::HashMap;
use crate::component::Init;
use crate::internal::{DefView, TypeInitDef};

verus! {

broadcast use vstd::std_specs::hash::group_hash_axioms;

/// Every direct dependency of `def` has an instance among `built`.
pub open spec fn ready(def: DefView, built: Set<u64>) -> bool {
    forall|j: int| 0 <= j < def.deps.len() ==> built.contains(#[trigger] def.deps[j])
}

/// The constructor of `def` can be given one handle for each of its direct
/// dependencies: each has an instance, and none is asked for twice.
pub open spec fn grantable(def: DefView, built: Set<u64>) -> bool {
    ready(def, built) && def.deps.no_duplicates()
}

/// Handing out the handles for `deps` in order runs into a dependency that
/// was already handed out, before it runs into one that has no instance.
pub open spec fn clashes(deps: Seq<u64>, built: Set<u64>) -> bool {
    exists|j: int|
        0 <= j < deps.len() && (forall|i: int| 0 <= i < j ==> built.contains(#[trigger] deps[i]))
            && #[trigger] lent(deps, j, deps[j])
}

/// `id` is one of the first `n` entries of `deps`.
pub open spec fn lent(deps: Seq<u64>, n: int, id: u64) -> bool {
    exists|i: int| 0 <= i < n && i < deps.len() && #[trigger] deps[i] == id
}

/// Handles that clash name one dependency twice.
pub proof fn lemma_clash_repeats(deps: Seq<u64>, built: Set<u64>)
    requires
        clashes(deps, built),
    ensures
        !deps.no_duplicates(),
{
    let j = choose|j: int|
        0 <= j < deps.len() && (forall|i: int| 0 <= i < j ==> built.contains(#[trigger] deps[i]))
            && #[trigger] lent(deps, j, deps[j]);
    let i = choose|i: int| 0 <= i < j && i < deps.len() && #[trigger] deps[i] == deps[j];
    assert(deps[i] == deps[j] && i != j);
}

/// Where all dependencies have instances, the handles clash exactly when one
/// is asked for twice.
pub proof fn lemma_clashes_when_ready(def: DefView, built: Set<u64>)
    requires
        ready(def, built),
    ensures
        clashes(def.deps, built) <==> !def.deps.no_duplicates(),
{
    let deps = def.deps;
    if clashes(deps, built) {
        lemma_clash_repeats(deps, built);
    }
    if !deps.no_duplicates() {
        let (a, b) = choose|a: int, b: int|
            0 <= a < deps.len() && 0 <= b < deps.len() && a != b && deps[a] == deps[b];
        let i = if a < b { a } else { b };
        let j = if a < b { b } else { a };
        assert(deps[i] == deps[j]);
        assert(lent(deps, j, deps[j]));
    }
}

/// The instances that `held` keeps for `deps`, in the order of `deps`: the
/// handles that a constructor with these dependencies is given.
pub open spec fn handles_of<V>(held: Map<u64, V>, deps: Seq<u64>) -> Seq<V> {
    Seq::new(deps.len(), |i: int| held[deps[i]])
}

/// The constructor of component `id`, handed the instances `before`, may
/// answer `answer` and leave the instances as `after`.
pub open spec fn constructs<V: Init>(
    id: u64,
    before: Seq<V>,
    answer: Option<V>,
    after: Seq<V>,
) -> bool {
    exists|handed: Vec<V>, back: Vec<V>|
        handed@ == before && back@ == after && #[trigger] call_ensures(
            V::init,
            (id, handed),
            (answer, back),
        )
}

/// The constructor of component `id` never declines when it is handed the
/// instances `before`.
pub open spec fn accepts<V: Init>(id: u64, before: Seq<V>) -> bool {
    forall|answer: Option<V>, after: Seq<V>|
        #[trigger] constructs::<V>(id, before, answer, after) ==> answer is Some
}

/// What became of one attempt to construct a component.
pub enum Attempt<V> {
    /// The constructor returned this instance.
    Built(V),
    /// A dependency has no instance yet, or the constructor declined.
    NotReady,
    /// The component asks for two handles to one instance.
    Conflict,
}

/// `held` without the instances of the first `n` entries of `deps`.
pub open spec fn without<V>(held: Map<u64, V>, deps: Seq<u64>, n: int) -> Map<u64, V> {
    Map::new(|k: u64| held.contains_key(k) && !lent(deps, n, k), |k: u64| held[k])
}

/// `deps[from..to]` holds `id`.
pub open spec fn among(deps: Seq<u64>, from: int, to: int, id: u64) -> bool {
    exists|i: int| from <= i < to && 0 <= i < deps.len() && #[trigger] deps[i] == id
}

/// Puts the instances `handles`, which were taken out for the first entries of
/// `deps`, back under their identities.
fn give_back<V>(resolved: &mut HashMap<u64, V>, deps: &Vec<u64>, handles: Vec<V>)
    requires
        handles@.len() <= deps@.len(),
        forall|i: int| 0 <= i < handles@.len() ==> !lent(deps@, i, #[trigger] deps@[i]),
        forall|i: int|
            0 <= i < handles@.len() ==> !old(resolved)@.contains_key(#[trigger] deps@[i]),
    ensures
        forall|k: u64|
            final(resolved)@.contains_key(k) <==> old(resolved)@.contains_key(k) || lent(
                deps@,
                handles@.len() as int,
                k,
            ),
        forall|k: u64| old(resolved)@.contains_key(k) ==> final(resolved)@[k] == old(resolved)@[k],
        forall|i: int|
            0 <= i < handles@.len() ==> final(resolved)@[#[trigger] deps@[i]] == handles@[i],
{
    let ghost n = handles@.len() as int;
    let ghost given = handles@;
    let mut handles = handles;
    while handles.len() > 0
        invariant
            n <= deps@.len(),
            handles@.len() <= n,
            given.len() == n,
            forall|i: int| 0 <= i < handles@.len() ==> handles@[i] == given[i],
            forall|i: int| 0 <= i < n ==> !lent(deps@, i, #[trigger] deps@[i]),
            forall|i: int| 0 <= i < n ==> !old(resolved)@.contains_key(#[trigger] deps@[i]),
            forall|k: u64|
                resolved@.contains_key(k) <==> old(resolved)@.contains_key(k) || among(
                    deps@,
                    handles@.len() as int,
                    n,
                    k,
                ),
            forall|k: u64| old(resolved)@.contains_key(k) ==> resolved@[k] == old(resolved)@[k],
            forall|i: int| handles@.len() <= i < n ==> resolved@[#[trigger] deps@[i]] == given[i],
        decreases handles@.len(),
    {
        let ghost before = resolved@;
        let ghost m = handles@.len() as int;
        match handles.pop() {
            Some(instance) => {
                let dep: u64 = deps[handles.len()];
                resolved.insert(dep, instance);
                proof {
                    assert forall|k: u64|
                        resolved@.contains_key(k) <==> old(resolved)@.contains_key(k) || among(
                            deps@,
                            m - 1,
                            n,
                            k,
                        ) by {
                        if among(deps@, m - 1, n, k) && !among(deps@, m, n, k) {
                            let i = choose|i: int|
                                m - 1 <= i < n && 0 <= i < deps@.len() && #[trigger] deps@[i] == k;
                            assert(i == m - 1);
                        }
                        if among(deps@, m, n, k) {
                            let i = choose|i: int|
                                m <= i < n && 0 <= i < deps@.len() && #[trigger] deps@[i] == k;
                            assert(deps@[i] == k);
                        }
                        if k == dep {
                            assert(deps@[m - 1] == k);
                        }
                    }
                    assert forall|k: u64| old(resolved)@.contains_key(k) implies resolved@[k] == old(
                        resolved,
                    )@[k] by {
                        assert(!old(resolved)@.contains_key(deps@[m - 1]));
                    }
                    assert forall|i: int| m - 1 <= i < n implies resolved@[#[trigger] deps@[i]]
                        == given[i] by {
                        if i >= m {
                            assert(!lent(deps@, i, deps@[i]));
                            assert(deps@[m - 1] != deps@[i]);
                        }
                    }
                }
            },
            None => {},
        }
    }
    proof {
        assert forall|k: u64|
            resolved@.contains_key(k) <==> old(resolved)@.contains_key(k) || lent(deps@, n, k) by {
            if among(deps@, 0, n, k) {
                let i = choose|i: int|
                    0 <= i < n && 0 <= i < deps@.len() && #[trigger] deps@[i] == k;
                assert(deps@[i] == k);
            }
            if lent(deps@, n, k) {
                let i = choose|i: int| 0 <= i < n && i < deps@.len() && #[trigger] deps@[i] == k;
                assert(deps@[i] == k);
            }
        }
    }
}

/// Whether `id` is one of the first `n` entries of `deps`.
fn among_first(deps: &Vec<u64>, n: usize, id: u64) -> (found: bool)
    requires
        n <= deps@.len(),
    ensures
        found == lent(deps@, n as int, id),
{
    let mut i: usize = 0;
    while i < n
        invariant
            i <= n <= deps@.len(),
            !lent(deps@, i as int, id),
        decreases n - i,
    {
        if deps[i] == id {
            assert(lent(deps@, n as int, id));
            return true;
        }
        i += 1;
    }
    false
}

/// Tries to construct the component that `def` describes.
///
/// Takes the instance of each direct dependency out of `resolved`, in the
/// order of `def.deps`, hands them to the constructor and puts them back. A
/// dependency that was already taken out for this step is a conflict; one that
/// has no instance means that the component is not ready, and so does a
/// constructor that declines. Whatever the outcome, `resolved` holds the same
/// identities afterwards, and only the instances that the constructor was
/// handed can have changed.
///
/// Where every dependency has an instance and none is asked for twice, the
/// constructor is called: it is handed the instances that `resolved` holds for
/// `def.deps`, in that order, what it answers is the outcome, and what it
/// leaves in the handles is what `resolved` holds for them afterwards.
pub fn attempt<V: Init>(def: &TypeInitDef, resolved: &mut HashMap<u64, V>) -> (outcome: Attempt<V>)
    ensures
        final(resolved)@.dom() == old(resolved)@.dom(),
        forall|k: u64|
            old(resolved)@.contains_key(k) && !def.deps@.contains(k) ==> final(resolved)@[k] == old(
                resolved,
            )@[k],
        outcome is Conflict || !ready(def@, old(resolved)@.dom()) ==> final(resolved)@ == old(
            resolved,
        )@,
        outcome is Conflict <==> clashes(def.deps@, old(resolved)@.dom()),
        outcome is Built ==> grantable(def@, old(resolved)@.dom()),
        grantable(def@, old(resolved)@.dom()) ==> constructs::<V>(
            def.id,
            handles_of(old(resolved)@, def.deps@),
            match outcome {
                Attempt::Built(instance) => Some(instance),
                _ => None,
            },
            handles_of(final(resolved)@, def.deps@),
        ),
        grantable(def@, old(resolved)@.dom()) && accepts::<V>(
            def.id,
            handles_of(old(resolved)@, def.deps@),
        ) ==> outcome is Built,
{
    let ghost held = resolved@;
    let ghost all = resolved@.dom();
    let mut handles: Vec<V> = Vec::new();
    let mut j: usize = 0;
    assert(resolved@ =~= without(held, def.deps@, 0));
    while j < def.deps.len()
        invariant
            held == old(resolved)@,
            all == held.dom(),
            j <= def.deps@.len(),
            handles@.len() == j,
            forall|i: int| 0 <= i < j ==> all.contains(#[trigger] def.deps@[i]),
            forall|i: int| 0 <= i < j ==> !lent(def.deps@, i, #[trigger] def.deps@[i]),
            forall|i: int| 0 <= i < j ==> handles@[i] == held[#[trigger] def.deps@[i]],
            resolved@ == without(held, def.deps@, j as int),
        decreases def.deps@.len() - j,
    {
        let dep: u64 = def.deps[j];
        match resolved.remove(&dep) {
            Some(instance) => {
                handles.push(instance);
                assert(!lent(def.deps@, j as int, dep));
                assert(resolved@ =~= without(held, def.deps@, j + 1)) by {
                    assert forall|k: u64| #[trigger]
                        without(held, def.deps@, j as int).remove(dep).contains_key(k) == without(
                            held,
                            def.deps@,
                            j + 1,
                        ).contains_key(k) by {
                        if lent(def.deps@, j + 1, k) && !lent(def.deps@, j as int, k) {
                            let i = choose|i: int|
                                0 <= i < j + 1 && i < def.deps@.len() && #[trigger] def.deps@[i]
                                    == k;
                            assert(i == j);
                        }
                        if lent(def.deps@, j as int, k) {
                            let i = choose|i: int|
                                0 <= i < j && i < def.deps@.len() && #[trigger] def.deps@[i] == k;
                            assert(def.deps@[i] == k);
                        }
                        if k == dep {
                            assert(def.deps@[j as int] == dep);
                        }
                    }
                }
            },
            None => {
                assert(resolved@ =~= without(held, def.deps@, j as int));
                let twice = among_first(&def.deps, j, dep);
                proof {
                    assert forall|i: int| 0 <= i < j implies !resolved@.contains_key(
                        #[trigger] def.deps@[i],
                    ) by {
                        assert(lent(def.deps@, j as int, def.deps@[i]));
                    }
                }
                give_back(resolved, &def.deps, handles);
                proof {
                    assert(resolved@ =~= held) by {
                        assert forall|k: u64| resolved@.contains_key(k) == held.contains_key(k) by {
                            if lent(def.deps@, j as int, k) {
                                let i = choose|i: int|
                                    0 <= i < j && i < def.deps@.len() && #[trigger] def.deps@[i]
                                        == k;
                                assert(all.contains(def.deps@[i]));
                            }
                        }
                        assert forall|k: u64| held.contains_key(k) implies resolved@[k]
                            == held[k] by {
                            if lent(def.deps@, j as int, k) {
                                let i = choose|i: int|
                                    0 <= i < j && i < def.deps@.len() && #[trigger] def.deps@[i]
                                        == k;
                                assert(resolved@[def.deps@[i]] == held[def.deps@[i]]);
                            }
                        }
                    }
                    if twice {
                        assert(lent(def.deps@, j as int, def.deps@[j as int]));
                    } else {
                        assert(!all.contains(def.deps@[j as int]));
                        lemma_first_block(def.deps@, all, j as int);
                    }
                }
                if twice {
                    return Attempt::Conflict;
                } else {
                    return Attempt::NotReady;
                }
            },
        }
        j += 1;
    }
    proof {
        assert(ready(def@, all));
        assert(def.deps@.no_duplicates()) by {
            assert forall|a: int, b: int|
                0 <= a < def.deps@.len() && 0 <= b < def.deps@.len() && a != b implies def.deps@[a]
                != def.deps@[b] by {
                if def.deps@[a] == def.deps@[b] {
                    if a < b {
                        assert(lent(def.deps@, b, def.deps@[b]));
                    } else {
                        assert(lent(def.deps@, a, def.deps@[a]));
                    }
                }
            }
        }
        lemma_clashes_when_ready(def@, all);
    }
    let ghost before = handles@;
    assert(before =~= handles_of(held, def.deps@));
    let (instance, handles) = V::init(def.id, handles);
    let ghost after = handles@;
    assert(constructs::<V>(def.id, before, instance, after));
    let ghost lent_out = resolved@;
    proof {
        assert forall|i: int| 0 <= i < handles@.len() implies !resolved@.contains_key(
            #[trigger] def.deps@[i],
        ) by {
            assert(lent(def.deps@, j as int, def.deps@[i]));
        }
    }
    give_back(resolved, &def.deps, handles);
    proof {
        assert(resolved@.dom() =~= all) by {
            assert forall|k: u64| resolved@.contains_key(k) == all.contains(k) by {
                if lent(def.deps@, j as int, k) {
                    let i = choose|i: int|
                        0 <= i < j && i < def.deps@.len() && #[trigger] def.deps@[i] == k;
                    assert(all.contains(def.deps@[i]));
                }
            }
        }
        assert forall|k: u64| held.contains_key(k) && !def.deps@.contains(k) implies resolved@[k]
            == held[k] by {
            if lent(def.deps@, j as int, k) {
                let i = choose|i: int|
                    0 <= i < j && i < def.deps@.len() && #[trigger] def.deps@[i] == k;
                assert(def.deps@[i] == k);
            }
            assert(lent_out.contains_key(k));
        }
        assert(after =~= handles_of(resolved@, def.deps@));
    }
    match instance {
        Some(instance) => Attempt::Built(instance),
        None => Attempt::NotReady,
    }
}

/// Where the entries before `j` all have instances and none of them repeats,
/// and entry `j` has no instance, nothing clashes and not all is ready.
proof fn lemma_first_block(deps: Seq<u64>, built: Set<u64>, j: int)
    requires
        0 <= j < deps.len(),
        forall|i: int| 0 <= i < j ==> built.contains(#[trigger] deps[i]),
        forall|i: int| 0 <= i < j ==> !lent(deps, i, #[trigger] deps[i]),
        !built.contains(deps[j]),
    ensures
        !clashes(deps, built),
        !(forall|i: int| 0 <= i < deps.len() ==> built.contains(#[trigger] deps[i])),
{
    if clashes(deps, built) {
        let c = choose|c: int|
            0 <= c < deps.len() && (forall|i: int|
                0 <= i < c ==> built.contains(#[trigger] deps[i]))
                && #[trigger] lent(deps, c, deps[c]);
        if c > j {
            assert(built.contains(deps[j]));
        } else if c < j {
            assert(!lent(deps, c, deps[c]));
        } else {
            let i = choose|i: int| 0 <= i < c && i < deps.len() && #[trigger] deps[i] == deps[c];
            assert(built.contains(deps[i]));
        }
    }
}

} // verus!
