//! Puts the pending descriptors in ascending order of identity and keeps, of
//! several descriptors with one identity, the one that was registered first.
use vstd::prelude::*;
use crate::internal::{views_of, DefView, TypeInitDef};

verus! {

/// The identities of `defs` ascend strictly, so none occurs twice.
pub open spec fn strictly_ascending(defs: Seq<DefView>) -> bool {
    forall|i: int, j: int| 0 <= i < j < defs.len() ==> defs[i].id < defs[j].id
}

/// The number of leading descriptors of `defs` whose identity is below `id`.
pub open spec fn lower_bound(defs: Seq<DefView>, id: u64) -> int
    decreases defs.len(),
{
    if defs.len() == 0 || defs[0].id >= id {
        0
    } else {
        1 + lower_bound(defs.drop_first(), id)
    }
}

/// `sorted` with `def` put in its place, unless `sorted` already holds a
/// descriptor with that identity.
pub open spec fn place(sorted: Seq<DefView>, def: DefView) -> Seq<DefView> {
    let at = lower_bound(sorted, def.id);
    if at < sorted.len() && sorted[at].id == def.id {
        sorted
    } else {
        sorted.insert(at, def)
    }
}

/// The descriptors of `defs` in ascending order of identity, one for each
/// identity: the one that comes first in `defs`.
pub open spec fn sorted_unique(defs: Seq<DefView>) -> Seq<DefView>
    decreases defs.len(),
{
    if defs.len() == 0 {
        Seq::empty()
    } else {
        place(sorted_unique(defs.drop_last()), defs.last())
    }
}

/// `defs` holds a descriptor with identity `id`.
pub open spec fn has_id(defs: Seq<DefView>, id: u64) -> bool {
    exists|i: int| 0 <= i < defs.len() && #[trigger] defs[i].id == id
}

/// `def` is the first descriptor of `defs` with its identity.
pub open spec fn is_first_of(defs: Seq<DefView>, def: DefView) -> bool {
    exists|i: int|
        0 <= i < defs.len() && #[trigger] defs[i] == def && forall|k: int|
            0 <= k < i ==> (#[trigger] defs[k]).id != def.id
}

/// In an ascending sequence the lower bound of `id` is the one position with
/// smaller identities before it and none from it on.
pub proof fn lemma_lower_bound(sorted: Seq<DefView>, id: u64, at: int)
    requires
        strictly_ascending(sorted),
        0 <= at <= sorted.len(),
        forall|k: int| 0 <= k < at ==> (#[trigger] sorted[k]).id < id,
        at < sorted.len() ==> sorted[at].id >= id,
    ensures
        lower_bound(sorted, id) == at,
    decreases sorted.len(),
{
    if sorted.len() == 0 || sorted[0].id >= id {
        if at > 0 {
            assert(sorted[0].id < id);
        }
    } else {
        let rest = sorted.drop_first();
        assert(at > 0) by {
            if at == 0 {
                assert(sorted[at].id >= id);
            }
        }
        assert forall|k: int| 0 <= k < at - 1 implies (#[trigger] rest[k]).id < id by {
            assert(rest[k] == sorted[k + 1]);
        }
        assert(strictly_ascending(rest)) by {
            assert forall|i: int, j: int| 0 <= i < j < rest.len() implies rest[i].id
                < rest[j].id by {
                assert(rest[i] == sorted[i + 1]);
                assert(rest[j] == sorted[j + 1]);
            }
        }
        lemma_lower_bound(rest, id, at - 1);
    }
}

/// The lower bound lies within the sequence and separates the smaller
/// identities from the others.
pub proof fn lemma_lower_bound_splits(sorted: Seq<DefView>, id: u64)
    requires
        strictly_ascending(sorted),
    ensures
        0 <= lower_bound(sorted, id) <= sorted.len(),
        forall|k: int| 0 <= k < lower_bound(sorted, id) ==> (#[trigger] sorted[k]).id < id,
        forall|k: int|
            lower_bound(sorted, id) <= k < sorted.len() ==> (#[trigger] sorted[k]).id >= id,
    decreases sorted.len(),
{
    if sorted.len() == 0 || sorted[0].id >= id {
        assert forall|k: int| 0 <= k < sorted.len() implies (#[trigger] sorted[k]).id >= id by {
            if k > 0 {
                assert(sorted[0].id < sorted[k].id);
            }
        }
    } else {
        let rest = sorted.drop_first();
        assert(strictly_ascending(rest)) by {
            assert forall|i: int, j: int| 0 <= i < j < rest.len() implies rest[i].id
                < rest[j].id by {
                assert(rest[i] == sorted[i + 1]);
                assert(rest[j] == sorted[j + 1]);
            }
        }
        lemma_lower_bound_splits(rest, id);
        let at = lower_bound(sorted, id);
        assert forall|k: int| 0 <= k < at implies (#[trigger] sorted[k]).id < id by {
            if k > 0 {
                assert(rest[k - 1] == sorted[k]);
            }
        }
        assert forall|k: int| at <= k < sorted.len() implies (#[trigger] sorted[k]).id >= id by {
            assert(rest[k - 1] == sorted[k]);
        }
    }
}

/// Placing a descriptor keeps the order, keeps what was there, and adds the
/// descriptor exactly when its identity is new.
pub proof fn lemma_place(sorted: Seq<DefView>, def: DefView)
    requires
        strictly_ascending(sorted),
    ensures
        strictly_ascending(place(sorted, def)),
        forall|i: int| 0 <= i < sorted.len() ==> place(sorted, def).contains(#[trigger] sorted[i]),
        forall|i: int|
            0 <= i < place(sorted, def).len() ==> sorted.contains(#[trigger] place(sorted, def)[i])
                || (place(sorted, def)[i] == def && !has_id(sorted, def.id)),
        has_id(place(sorted, def), def.id),
        !has_id(sorted, def.id) ==> place(sorted, def).contains(def),
{
    lemma_lower_bound_splits(sorted, def.id);
    let at = lower_bound(sorted, def.id);
    let out = place(sorted, def);
    if at < sorted.len() && sorted[at].id == def.id {
        assert forall|i: int| 0 <= i < sorted.len() implies out.contains(#[trigger] sorted[i]) by {
            assert(out[i] == sorted[i]);
        }
        assert forall|i: int| 0 <= i < out.len() implies sorted.contains(#[trigger] out[i]) by {
            assert(sorted[i] == out[i]);
        }
        assert(out[at].id == def.id);
    } else {
        assert(!has_id(sorted, def.id)) by {
            if has_id(sorted, def.id) {
                let k = choose|k: int| 0 <= k < sorted.len() && #[trigger] sorted[k].id == def.id;
                if k < at {
                    assert(sorted[k].id < def.id);
                } else {
                    assert(sorted[k].id >= def.id);
                    if k > at {
                        assert(sorted[at].id < sorted[k].id);
                    }
                }
            }
        }
        assert forall|i: int, j: int| 0 <= i < j < out.len() implies out[i].id < out[j].id by {
            if j < at {
                assert(out[i] == sorted[i] && out[j] == sorted[j]);
            } else if j == at {
                assert(out[i] == sorted[i]);
            } else if i < at {
                assert(out[i] == sorted[i] && out[j] == sorted[j - 1]);
                assert(sorted[j - 1].id >= def.id);
            } else if i == at {
                assert(out[j] == sorted[j - 1]);
                assert(sorted[j - 1].id >= def.id);
            } else {
                assert(out[i] == sorted[i - 1] && out[j] == sorted[j - 1]);
            }
        }
        assert forall|i: int| 0 <= i < sorted.len() implies out.contains(#[trigger] sorted[i]) by {
            if i < at {
                assert(out[i] == sorted[i]);
            } else {
                assert(out[i + 1] == sorted[i]);
            }
        }
        assert forall|i: int| 0 <= i < out.len() implies sorted.contains(#[trigger] out[i]) || (
        out[i] == def && !has_id(sorted, def.id)) by {
            if i < at {
                assert(sorted[i] == out[i]);
            } else if i > at {
                assert(sorted[i - 1] == out[i]);
            }
        }
        assert(out[at] == def);
    }
}

/// The result is in strictly ascending order of identity; each of its
/// descriptors is the first of `defs` with its identity; and every identity of
/// `defs` is represented.
pub proof fn lemma_sorted_unique(defs: Seq<DefView>)
    ensures
        strictly_ascending(sorted_unique(defs)),
        forall|k: int|
            0 <= k < sorted_unique(defs).len() ==> is_first_of(
                defs,
                #[trigger] sorted_unique(defs)[k],
            ),
        forall|i: int| 0 <= i < defs.len() ==> has_id(sorted_unique(defs), (#[trigger] defs[i]).id),
    decreases defs.len(),
{
    if defs.len() > 0 {
        let front = defs.drop_last();
        let last = defs.last();
        let sorted = sorted_unique(front);
        let out = sorted_unique(defs);
        lemma_sorted_unique(front);
        lemma_place(sorted, last);
        assert forall|k: int| 0 <= k < out.len() implies is_first_of(defs, #[trigger] out[k]) by {
            if sorted.contains(out[k]) {
                let m = choose|m: int| 0 <= m < sorted.len() && sorted[m] == out[k];
                assert(is_first_of(front, sorted[m]));
                let i = choose|i: int|
                    0 <= i < front.len() && #[trigger] front[i] == out[k] && forall|n: int|
                        0 <= n < i ==> (#[trigger] front[n]).id != out[k].id;
                assert(defs[i] == out[k]);
                assert forall|n: int| 0 <= n < i implies (#[trigger] defs[n]).id != out[k].id by {
                    assert(front[n] == defs[n]);
                }
            } else {
                assert(out[k] == last && !has_id(sorted, last.id));
                let i = defs.len() - 1;
                assert(defs[i] == out[k]);
                assert forall|n: int| 0 <= n < i implies (#[trigger] defs[n]).id != out[k].id by {
                    assert(front[n] == defs[n]);
                    if defs[n].id == last.id {
                        assert(has_id(sorted, front[n].id));
                    }
                }
            }
        }
        assert forall|i: int| 0 <= i < defs.len() implies has_id(out, (#[trigger] defs[i]).id) by {
            if i < front.len() {
                assert(front[i] == defs[i]);
                assert(has_id(sorted, front[i].id));
                let m = choose|m: int|
                    0 <= m < sorted.len() && #[trigger] sorted[m].id == defs[i].id;
                assert(out.contains(sorted[m]));
                let n = choose|n: int| 0 <= n < out.len() && out[n] == sorted[m];
                assert(out[n].id == defs[i].id);
            }
        }
    }
}

/// Two ascending sequences that represent the same identities, and agree on
/// the descriptor of each, are one and the same sequence.
pub proof fn lemma_ascending_unique(a: Seq<DefView>, b: Seq<DefView>)
    requires
        strictly_ascending(a),
        strictly_ascending(b),
        forall|id: u64| has_id(a, id) <==> has_id(b, id),
        forall|i: int, j: int|
            0 <= i < a.len() && 0 <= j < b.len() && a[i].id == b[j].id ==> a[i] == b[j],
    ensures
        a == b,
    decreases a.len(),
{
    if a.len() == 0 {
        if b.len() > 0 {
            assert(has_id(b, b[0].id));
            assert(has_id(a, b[0].id));
        }
        assert(a =~= b);
    } else {
        let top = a.last();
        assert(has_id(a, a[a.len() - 1].id));
        assert(has_id(b, top.id));
        let j = choose|j: int| 0 <= j < b.len() && #[trigger] b[j].id == top.id;
        assert(has_id(b, b[b.len() - 1].id));
        assert(has_id(a, b.last().id));
        let i = choose|i: int| 0 <= i < a.len() && #[trigger] a[i].id == b.last().id;
        assert(j == b.len() - 1) by {
            if j < b.len() - 1 {
                assert(b[j].id < b[b.len() - 1].id);
                if i < a.len() - 1 {
                    assert(a[i].id < a[a.len() - 1].id);
                }
            }
        }
        assert(a[a.len() - 1] == b[j]);
        let a0 = a.drop_last();
        let b0 = b.drop_last();
        assert forall|id: u64| has_id(a0, id) <==> has_id(b0, id) by {
            if has_id(a0, id) {
                let m = choose|m: int| 0 <= m < a0.len() && #[trigger] a0[m].id == id;
                assert(a[m].id == id);
                assert(a[m].id < a[a.len() - 1].id);
                assert(has_id(a, a[m].id));
                let n = choose|n: int| 0 <= n < b.len() && #[trigger] b[n].id == id;
                assert(n < b.len() - 1);
                assert(b0[n].id == id);
            }
            if has_id(b0, id) {
                let n = choose|n: int| 0 <= n < b0.len() && #[trigger] b0[n].id == id;
                assert(b[n].id == id);
                assert(b[n].id < b[b.len() - 1].id);
                assert(has_id(b, b[n].id));
                let m = choose|m: int| 0 <= m < a.len() && #[trigger] a[m].id == id;
                assert(m < a.len() - 1);
                assert(a0[m].id == id);
            }
        }
        assert forall|m: int, n: int|
            0 <= m < a0.len() && 0 <= n < b0.len() && a0[m].id == b0[n].id implies a0[m]
            == b0[n] by {
            assert(a0[m] == a[m] && b0[n] == b[n]);
        }
        assert(strictly_ascending(a0)) by {
            assert forall|m: int, n: int| 0 <= m < n < a0.len() implies a0[m].id < a0[n].id by {
                assert(a0[m] == a[m] && a0[n] == a[n]);
            }
        }
        assert(strictly_ascending(b0)) by {
            assert forall|m: int, n: int| 0 <= m < n < b0.len() implies b0[m].id < b0[n].id by {
                assert(b0[m] == b[m] && b0[n] == b[n]);
            }
        }
        lemma_ascending_unique(a0, b0);
        assert(a =~= a0.push(a.last()));
        assert(b =~= b0.push(b.last()));
    }
}

/// Sorts `defs` by identity and drops every descriptor whose identity occurred
/// earlier in `defs`.
pub fn sort_dedup(defs: Vec<TypeInitDef>) -> (out: Vec<TypeInitDef>)
    ensures
        views_of(out@) == sorted_unique(views_of(defs@)),
{
    let ghost all = views_of(defs@);
    let mut reversed: Vec<TypeInitDef> = Vec::new();
    let mut rest = defs;
    while rest.len() > 0
        invariant
            rest@.len() + reversed@.len() == defs@.len(),
            forall|i: int| 0 <= i < rest@.len() ==> rest@[i] == defs@[i],
            forall|i: int|
                0 <= i < reversed@.len() ==> reversed@[i] == defs@[defs@.len() - 1 - i],
        decreases rest@.len(),
    {
        match rest.pop() {
            Some(def) => {
                reversed.push(def);
            },
            None => {},
        }
    }
    let mut out: Vec<TypeInitDef> = Vec::new();
    let ghost mut done: int = 0;
    assert(views_of(out@) =~= sorted_unique(all.take(0)));
    while reversed.len() > 0
        invariant
            all == views_of(defs@),
            0 <= done <= all.len(),
            reversed@.len() == all.len() - done,
            forall|i: int|
                0 <= i < reversed@.len() ==> reversed@[i] == defs@[defs@.len() - 1 - i],
            views_of(out@) == sorted_unique(all.take(done)),
        decreases reversed@.len(),
    {
        match reversed.pop() {
            Some(def) => {
                proof {
                    lemma_sorted_unique(all.take(done));
                    assert(all.take(done + 1).drop_last() =~= all.take(done));
                    assert(all.take(done + 1).last() == def@);
                }
                let ghost sorted = views_of(out@);
                let mut at: usize = 0;
                while at < out.len() && out[at].id < def.id
                    invariant
                        at <= out@.len(),
                        sorted == views_of(out@),
                        forall|k: int| 0 <= k < at ==> (#[trigger] sorted[k]).id < def.id,
                    decreases out@.len() - at,
                {
                    assert(sorted[at as int] == out@[at as int]@);
                    at += 1;
                }
                proof {
                    if at < out@.len() {
                        assert(sorted[at as int] == out@[at as int]@);
                    }
                    lemma_lower_bound(sorted, def.id, at as int);
                }
                if at < out.len() && out[at].id == def.id {
                } else {
                    out.insert(at, def);
                    assert(views_of(out@) =~= sorted.insert(at as int, def@));
                }
                proof {
                    done = done + 1;
                }
            },
            None => {},
        }
    }
    assert(all.take(done) =~= all);
    out
}

} // verus!
