use vstd::prelude::*;

use crate::ecs::component::{Component, ComponentTypeId};

verus! {

/// Component-type signatures are kept in strictly increasing order.
pub open spec fn strictly_sorted(s: Seq<ComponentTypeId>) -> bool {
    forall|i: int, j: int| 0 <= i < j < s.len() ==> s[i] < s[j]
}

/// The position of `t` in `sig` (meaningful when `sig` contains `t`).
pub open spec fn sig_index(sig: Seq<ComponentTypeId>, t: ComponentTypeId) -> int {
    choose|j: int| 0 <= j < sig.len() && sig[j] == t
}

/// The components of one row, keyed by type: `vals[j]` is the component of type `sig[j]`.
pub open spec fn row_map<A>(sig: Seq<ComponentTypeId>, vals: Seq<Component<A>>) -> Map<
    ComponentTypeId,
    Component<A>,
> {
    Map::new(|t: ComponentTypeId| sig.contains(t), |t: ComponentTypeId| vals[sig_index(sig, t)])
}

/// Where `t` goes in a sorted signature that does not contain it.
pub open spec fn insertion_point(sig: Seq<ComponentTypeId>, t: ComponentTypeId, p: int) -> bool {
    &&& 0 <= p <= sig.len()
    &&& forall|i: int| 0 <= i < p ==> sig[i] < t
    &&& forall|i: int| p <= i < sig.len() ==> sig[i] > t
}

pub proof fn lemma_sig_index(sig: Seq<ComponentTypeId>, j: int)
    requires
        strictly_sorted(sig),
        0 <= j < sig.len(),
    ensures
        sig_index(sig, sig[j]) == j,
{
    let k = sig_index(sig, sig[j]);
    assert(0 <= k < sig.len() && sig[k] == sig[j]);
}

pub proof fn lemma_sorted_insert(sig: Seq<ComponentTypeId>, t: ComponentTypeId, p: int)
    requires
        strictly_sorted(sig),
        insertion_point(sig, t, p),
    ensures
        strictly_sorted(sig.insert(p, t)),
        !sig.contains(t),
{
    let s2 = sig.insert(p, t);
    assert forall|i: int, j: int| 0 <= i < j < s2.len() implies s2[i] < s2[j] by {
        if j < p {
        } else if j == p {
        } else if i < p {
        } else if i == p {
        } else {
        }
    }
    if sig.contains(t) {
        let k = choose|k: int| 0 <= k < sig.len() && sig[k] == t;
        assert(k < p || k >= p);
    }
}

pub proof fn lemma_sorted_remove(sig: Seq<ComponentTypeId>, j: int)
    requires
        strictly_sorted(sig),
        0 <= j < sig.len(),
    ensures
        strictly_sorted(sig.remove(j)),
{
    let s2 = sig.remove(j);
    assert forall|a: int, b: int| 0 <= a < b < s2.len() implies s2[a] < s2[b] by {
        let oa = if a < j { a } else { a + 1 };
        let ob = if b < j { b } else { b + 1 };
        assert(s2[a] == sig[oa] && s2[b] == sig[ob]);
    }
}

/// Overwriting the value at `j` replaces the component of type `sig[j]`.
pub proof fn lemma_row_map_update<A>(
    sig: Seq<ComponentTypeId>,
    vals: Seq<Component<A>>,
    j: int,
    c: Component<A>,
)
    requires
        strictly_sorted(sig),
        vals.len() == sig.len(),
        0 <= j < sig.len(),
    ensures
        row_map(sig, vals.update(j, c)) == row_map(sig, vals).insert(sig[j], c),
{
    let m1 = row_map(sig, vals.update(j, c));
    let m2 = row_map(sig, vals).insert(sig[j], c);
    assert forall|t: ComponentTypeId| #[trigger] m1.contains_key(t) implies m1[t] == m2[t] by {
        let k = choose|k: int| 0 <= k < sig.len() && sig[k] == t;
        lemma_sig_index(sig, k);
    }
    assert(m1 =~= m2);
}

/// Inserting a new type into the signature together with its value adds that component.
pub proof fn lemma_row_map_insert<A>(
    sig: Seq<ComponentTypeId>,
    vals: Seq<Component<A>>,
    p: int,
    t: ComponentTypeId,
    c: Component<A>,
)
    requires
        strictly_sorted(sig),
        insertion_point(sig, t, p),
        vals.len() == sig.len(),
    ensures
        row_map(sig.insert(p, t), vals.insert(p, c)) == row_map(sig, vals).insert(t, c),
        strictly_sorted(sig.insert(p, t)),
{
    lemma_sorted_insert(sig, t, p);
    let s2 = sig.insert(p, t);
    let v2 = vals.insert(p, c);
    let m1 = row_map(s2, v2);
    let m2 = row_map(sig, vals).insert(t, c);
    assert forall|x: ComponentTypeId| m1.contains_key(x) <==> m2.contains_key(x) by {
        if s2.contains(x) {
            let k = choose|k: int| 0 <= k < s2.len() && s2[k] == x;
            if k < p {
                assert(sig[k] == x);
            } else if k > p {
                assert(sig[k - 1] == x);
            }
        }
        if sig.contains(x) {
            let k = choose|k: int| 0 <= k < sig.len() && sig[k] == x;
            if k < p {
                assert(s2[k] == x);
            } else {
                assert(s2[k + 1] == x);
            }
        }
        if x == t {
            assert(s2[p] == x);
        }
    }
    assert forall|x: ComponentTypeId| #[trigger] m1.contains_key(x) implies m1[x] == m2[x] by {
        let k = choose|k: int| 0 <= k < s2.len() && s2[k] == x;
        lemma_sig_index(s2, k);
        if k < p {
            lemma_sig_index(sig, k);
        } else if k > p {
            lemma_sig_index(sig, k - 1);
        }
    }
    assert(m1 =~= m2);
}

/// Removing a type from the signature together with its value removes that component.
pub proof fn lemma_row_map_remove<A>(sig: Seq<ComponentTypeId>, vals: Seq<Component<A>>, j: int)
    requires
        strictly_sorted(sig),
        vals.len() == sig.len(),
        0 <= j < sig.len(),
    ensures
        row_map(sig.remove(j), vals.remove(j)) == row_map(sig, vals).remove(sig[j]),
        strictly_sorted(sig.remove(j)),
{
    lemma_sorted_remove(sig, j);
    let s2 = sig.remove(j);
    let v2 = vals.remove(j);
    let m1 = row_map(s2, v2);
    let m2 = row_map(sig, vals).remove(sig[j]);
    assert forall|x: ComponentTypeId| m1.contains_key(x) <==> m2.contains_key(x) by {
        if s2.contains(x) {
            let k = choose|k: int| 0 <= k < s2.len() && s2[k] == x;
            let ok = if k < j { k } else { k + 1 };
            assert(sig[ok] == x);
        }
        if sig.contains(x) && x != sig[j] {
            let k = choose|k: int| 0 <= k < sig.len() && sig[k] == x;
            if k < j {
                assert(s2[k] == x);
            } else {
                assert(s2[k - 1] == x);
            }
        }
    }
    assert forall|x: ComponentTypeId| #[trigger] m1.contains_key(x) implies m1[x] == m2[x] by {
        let k = choose|k: int| 0 <= k < s2.len() && s2[k] == x;
        lemma_sig_index(s2, k);
        let ok = if k < j { k } else { k + 1 };
        lemma_sig_index(sig, ok);
    }
    assert(m1 =~= m2);
}

} // verus!
