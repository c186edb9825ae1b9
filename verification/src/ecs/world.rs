use vstd::prelude::*;

use crate::assets::handle::Handle;
use crate::assets::storage::{next_generation, AssetMap, Slot};
use crate::ecs::archetype::{
    insertion_point, lemma_row_map_insert, lemma_row_map_remove, lemma_row_map_update,
    lemma_sig_index, sig_index, lemma_sorted_insert, lemma_sorted_remove, row_map, strictly_sorted,
};
use crate::ecs::component::{
    Children, Component, ComponentTypeId, ComponentView, Parent, CHILDREN_TYPE_ID, PARENT_TYPE_ID,
};
use crate::ecs::resources::{ResourceError, ResourceMap, ResourceTypeId};
use crate::entity::Entity;

verus! {

/// Dense storage for the components of one type within an archetype, one per row.
pub struct Column<A> {
    pub(crate) items: Vec<Component<A>>,
}

impl<A> Column<A> {
    /// The stored components, by row.
    pub closed spec fn view(&self) -> Seq<Component<A>> {
        self.items@
    }

    /// An empty column.
    pub fn new() -> (c: Self)
        ensures
            c.view().len() == 0,
    {
        Column { items: Vec::new() }
    }

    /// Number of rows stored.
    pub fn len(&self) -> (n: usize)
        ensures
            n == self.view().len(),
    {
        self.items.len()
    }
}

/// A group of entities that all share the exact same set of component types.
pub struct Archetype<A> {
    /// Entity ids, index aligned with every column.
    pub(crate) entities: Vec<Entity>,
    /// One dense column per component type, aligned with `signature`.
    pub(crate) columns: Vec<Column<A>>,
    /// The component types of this archetype, in increasing order.
    pub(crate) signature: Vec<ComponentTypeId>,
}

/// How a moved row's values change on the way to their new archetype.
enum RowEdit<A> {
    /// A component is inserted at the given position.
    Insert(usize, Component<A>),
    /// The component at the given position is taken out.
    Remove(usize),
}

impl<A> RowEdit<A> {
    spec fn apply(&self, vals: Seq<Component<A>>) -> Seq<Component<A>> {
        match self {
            RowEdit::Insert(p, c) => vals.insert(*p as int, *c),
            RowEdit::Remove(j) => vals.remove(*j as int),
        }
    }
}

impl<A> Archetype<A> {
    /// The component types, in increasing order.
    pub closed spec fn sig(&self) -> Seq<ComponentTypeId> {
        self.signature@
    }

    /// The entities, by row.
    pub closed spec fn ents(&self) -> Seq<Entity> {
        self.entities@
    }

    /// The component of type `sig()[j]` in row `r`.
    pub closed spec fn cell(&self, j: int, r: int) -> Component<A> {
        self.columns@[j].items@[r]
    }

    /// The values of row `r`, in signature order.
    pub open spec fn row(&self, r: int) -> Seq<Component<A>> {
        Seq::new(self.sig().len(), |j: int| self.cell(j, r))
    }

    /// The components of row `r`, by type.
    pub open spec fn row_components(&self, r: int) -> Map<ComponentTypeId, Component<A>> {
        row_map(self.sig(), self.row(r))
    }

    pub closed spec fn wf(&self) -> bool {
        &&& self.columns@.len() == self.signature@.len()
        &&& strictly_sorted(self.signature@)
        &&& forall|j: int|
            0 <= j < self.columns@.len() ==> #[trigger] self.columns@[j].items@.len()
                == self.entities@.len()
        &&& forall|j: int, r: int|
            0 <= j < self.columns@.len() && 0 <= r < self.entities@.len() ==> (
            #[trigger] self.columns@[j].items@[r]).spec_type_id() == self.signature@[j]
    }

    pub proof fn lemma_wf(&self)
        requires
            self.wf(),
        ensures
            strictly_sorted(self.sig()),
            forall|r: int, j: int|
                0 <= r < self.ents().len() && 0 <= j < self.sig().len() ==> (
                #[trigger] self.row(r)[j]).spec_type_id() == self.sig()[j],
    {
        assert forall|r: int, j: int|
            0 <= r < self.ents().len() && 0 <= j < self.sig().len() implies (
            #[trigger] self.row(r)[j]).spec_type_id() == self.sig()[j] by {
            assert(self.columns@[j].items@[r] == self.row(r)[j]);
        }
    }

    /// An empty archetype for the given signature.
    pub fn new(signature: Vec<ComponentTypeId>) -> (a: Self)
        requires
            strictly_sorted(signature@),
        ensures
            a.wf(),
            a.sig() == signature@,
            a.ents().len() == 0,
    {
        let mut columns: Vec<Column<A>> = Vec::new();
        let mut i: usize = 0;
        while i < signature.len()
            invariant
                i <= signature@.len(),
                columns@.len() == i,
                forall|j: int| 0 <= j < i ==> (#[trigger] columns@[j]).view().len() == 0,
            decreases signature@.len() - i,
        {
            columns.push(Column::new());
            i = i + 1;
        }
        Archetype { entities: Vec::new(), columns, signature }
    }

    /// Number of entities stored in this archetype.
    pub fn len(&self) -> (n: usize)
        ensures
            n == self.ents().len(),
    {
        self.entities.len()
    }

    /// The entities, by row.
    pub fn entities(&self) -> (r: &Vec<Entity>)
        ensures
            r@ == self.ents(),
    {
        &self.entities
    }

    /// The component types, in increasing order.
    pub fn signature(&self) -> (r: &Vec<ComponentTypeId>)
        ensures
            r@ == self.sig(),
    {
        &self.signature
    }

    /// The position of type `t` in the signature.
    pub fn find_column(&self, t: ComponentTypeId) -> (r: Option<usize>)
        ensures
            match r {
                Some(j) => j < self.sig().len() && self.sig()[j as int] == t,
                None => !self.sig().contains(t),
            },
    {
        let mut j: usize = 0;
        while j < self.signature.len()
            invariant
                j <= self.signature@.len(),
                forall|k: int| 0 <= k < j ==> self.signature@[k] != t,
            decreases self.signature@.len() - j,
        {
            if self.signature[j] == t {
                return Some(j);
            }
            j = j + 1;
        }
        None
    }

    /// Where type `t` would be inserted to keep the signature sorted.
    fn insertion_index(&self, t: ComponentTypeId) -> (p: usize)
        requires
            self.wf(),
            !self.sig().contains(t),
        ensures
            insertion_point(self.sig(), t, p as int),
    {
        let mut p: usize = 0;
        while p < self.signature.len() && self.signature[p] < t
            invariant
                self.wf(),
                !self.sig().contains(t),
                p <= self.signature@.len(),
                forall|k: int| 0 <= k < p ==> self.signature@[k] < t,
            decreases self.signature@.len() - p,
        {
            p = p + 1;
        }
        proof {
            assert forall|k: int| p <= k < self.signature@.len() implies self.signature@[k] > t by {
                assert(self.signature@[p as int] >= t);
                assert(self.signature@[p as int] != t);
                if k > p {
                    assert(self.signature@[p as int] < self.signature@[k]);
                }
                assert(self.signature@[k] != t);
            }
        }
        p
    }

    /// The component of type `sig()[j]` in row `r`.
    pub fn get(&self, r: usize, j: usize) -> (c: &Component<A>)
        requires
            self.wf(),
            r < self.ents().len(),
            j < self.sig().len(),
        ensures
            *c == self.cell(j as int, r as int),
    {
        &self.columns[j].items[r]
    }

    /// Appends a row for `e` holding `vals`, one value per signature type.
    fn push_row(&mut self, e: Entity, vals: Vec<Component<A>>)
        requires
            old(self).wf(),
            vals@.len() == old(self).sig().len(),
            forall|j: int|
                0 <= j < vals@.len() ==> (#[trigger] vals@[j]).spec_type_id() == old(self).sig()[j],
        ensures
            final(self).wf(),
            final(self).sig() == old(self).sig(),
            final(self).ents() == old(self).ents().push(e),
            forall|r: int|
                0 <= r < old(self).ents().len() ==> #[trigger] final(self).row(r) == old(self).row(
                    r,
                ),
            final(self).row(old(self).ents().len() as int) == vals@,
    {
        let ghost v0 = vals@;
        let ghost n = old(self).entities@.len();
        let mut vals = vals;
        let mut j: usize = vals.len();
        while j > 0
            invariant
                self.columns@.len() == old(self).columns@.len(),
                self.signature@ == old(self).signature@,
                self.entities@ == old(self).entities@,
                j <= v0.len(),
                v0.len() == self.columns@.len(),
                vals@ == v0.take(j as int),
                forall|k: int|
                    0 <= k < j ==> #[trigger] self.columns@[k] == old(self).columns@[k],
                forall|k: int|
                    j <= k < self.columns@.len() ==> #[trigger] self.columns@[k].items@ == old(self).columns@[k].items@.push(v0[k]),
            decreases j,
        {
            j = j - 1;
            let v = vals.pop().unwrap();
            proof {
                assert(v == v0[j as int]);
                assert(vals@ == v0.take(j as int));
            }
            self.columns[j].items.push(v);
        }
        self.entities.push(e);
        proof {
            assert forall|k: int| 0 <= k < self.columns@.len() implies #[trigger] self.columns@[k].items@.len()
                == self.entities@.len() by {}
            assert forall|k: int, r: int|
                0 <= k < self.columns@.len() && 0 <= r < self.entities@.len() implies (
                #[trigger] self.columns@[k].items@[r]).spec_type_id() == self.signature@[k] by {
                if r < n {
                    assert(self.columns@[k].items@[r] == old(self).columns@[k].items@[r]);
                } else {
                    assert(self.columns@[k].items@[r] == v0[k]);
                }
            }
            assert forall|r: int| 0 <= r < n implies #[trigger] self.row(r) == old(self).row(r) by {
                assert(self.row(r) =~= old(self).row(r));
            }
            assert(self.row(n as int) =~= v0);
        }
    }

    /// Takes row `r` out, moving the last row into its place; returns the row's values.
    fn take_row(&mut self, r: usize) -> (vals: Vec<Component<A>>)
        requires
            old(self).wf(),
            r < old(self).ents().len(),
        ensures
            final(self).wf(),
            final(self).sig() == old(self).sig(),
            final(self).ents() == old(self).ents().update(r as int, old(self).ents().last()).drop_last(),
            vals@ == old(self).row(r as int),
            forall|k: int|
                0 <= k < final(self).ents().len() ==> #[trigger] final(self).row(k) == (if k
                    == r {
                    old(self).row(old(self).ents().len() - 1)
                } else {
                    old(self).row(k)
                }),
    {
        let ghost n = old(self).entities@.len() as int;
        let mut vals: Vec<Component<A>> = Vec::new();
        let mut j: usize = 0;
        while j < self.columns.len()
            invariant
                old(self).wf(),
                r < n,
                n == old(self).entities@.len(),
                self.columns@.len() == old(self).columns@.len(),
                self.signature@ == old(self).signature@,
                self.entities@ == old(self).entities@,
                j <= self.columns@.len(),
                vals@.len() == j,
                forall|k: int| 0 <= k < j ==> #[trigger] vals@[k] == old(self).cell(k, r as int),
                forall|k: int|
                    0 <= k < j ==> #[trigger] self.columns@[k].items@ == old(self).columns@[k].items@.update(
                        r as int,
                        old(self).columns@[k].items@.last(),
                    ).drop_last(),
                forall|k: int|
                    j <= k < self.columns@.len() ==> #[trigger] self.columns@[k] == old(self).columns@[k],
            decreases self.columns@.len() - j,
        {
            assert(self.columns@[j as int].items@.len() == n);
            let v = self.columns[j].items.swap_remove(r);
            vals.push(v);
            j = j + 1;
        }
        self.entities.swap_remove(r);
        proof {
            let o = old(self);
            assert forall|k: int| 0 <= k < self.columns@.len() implies #[trigger] self.columns@[k].items@.len()
                == self.entities@.len() by {}
            assert forall|k: int, q: int|
                0 <= k < self.columns@.len() && 0 <= q < self.entities@.len() implies (
                #[trigger] self.columns@[k].items@[q]).spec_type_id() == self.signature@[k] by {
                if q == r {
                    assert(self.columns@[k].items@[q] == o.columns@[k].items@[n - 1]);
                } else {
                    assert(self.columns@[k].items@[q] == o.columns@[k].items@[q]);
                }
            }
            assert(vals@ =~= o.row(r as int));
            assert forall|q: int| 0 <= q < self.entities@.len() implies #[trigger] self.row(q) == (if q
                == r {
                o.row(n - 1)
            } else {
                o.row(q)
            }) by {
                if q == r {
                    assert(self.row(q) =~= o.row(n - 1));
                } else {
                    assert(self.row(q) =~= o.row(q));
                }
            }
        }
        vals
    }

    /// Overwrites the component of type `sig()[j]` in row `r`.
    fn write(&mut self, r: usize, j: usize, c: Component<A>)
        requires
            old(self).wf(),
            r < old(self).ents().len(),
            j < old(self).sig().len(),
            c.spec_type_id() == old(self).sig()[j as int],
        ensures
            final(self).wf(),
            final(self).sig() == old(self).sig(),
            final(self).ents() == old(self).ents(),
            forall|k: int|
                0 <= k < old(self).ents().len() && k != r ==> #[trigger] final(self).row(k)
                    == old(self).row(k),
            final(self).row(r as int) == old(self).row(r as int).update(j as int, c),
    {
        self.columns[j].items.set(r, c);
        proof {
            let o = old(self);
            assert forall|k: int| 0 <= k < self.columns@.len() implies #[trigger] self.columns@[k].items@.len()
                == self.entities@.len() by {}
            assert forall|k: int, q: int|
                0 <= k < self.columns@.len() && 0 <= q < self.entities@.len() implies (
                #[trigger] self.columns@[k].items@[q]).spec_type_id() == self.signature@[k] by {
                if k != j || q != r {
                    assert(self.columns@[k].items@[q] == o.columns@[k].items@[q]);
                }
            }
            assert forall|q: int| 0 <= q < o.entities@.len() && q != r implies #[trigger] self.row(q)
                == o.row(q) by {
                assert(self.row(q) =~= o.row(q));
            }
            assert(self.row(r as int) =~= o.row(r as int).update(j as int, c));
        }
    }
}


/// The values of the components of a component map.
pub open spec fn deep_components<A>(m: Map<ComponentTypeId, Component<A>>) -> Map<
    ComponentTypeId,
    ComponentView<A>,
> {
    m.map_values(|c: Component<A>| c.deep())
}

/// The values of the components of every entity.
pub open spec fn deep_entities<A>(v: Map<Entity, Map<ComponentTypeId, Component<A>>>) -> Map<
    Entity,
    Map<ComponentTypeId, ComponentView<A>>,
> {
    v.map_values(|m: Map<ComponentTypeId, Component<A>>| deep_components(m))
}

pub proof fn lemma_deep_insert<A>(
    v: Map<Entity, Map<ComponentTypeId, Component<A>>>,
    e: Entity,
    m: Map<ComponentTypeId, Component<A>>,
)
    ensures
        deep_entities(v.insert(e, m)) == deep_entities(v).insert(e, deep_components(m)),
{
    assert(deep_entities(v.insert(e, m)) =~= deep_entities(v).insert(e, deep_components(m)));
}

pub proof fn lemma_deep_component_insert<A>(
    m: Map<ComponentTypeId, Component<A>>,
    t: ComponentTypeId,
    c: Component<A>,
)
    ensures
        deep_components(m.insert(t, c)) == deep_components(m).insert(t, c.deep()),
{
    assert(deep_components(m.insert(t, c)) =~= deep_components(m).insert(t, c.deep()));
}

/// `s` lists the keys of `m` in increasing order.
pub open spec fn in_type_order<V>(m: Map<ComponentTypeId, V>, s: Seq<ComponentTypeId>) -> bool {
    &&& strictly_sorted(s)
    &&& forall|t: ComponentTypeId| #[trigger] s.contains(t) <==> m.contains_key(t)
}

/// Two increasing sequences with the same elements are equal.
proof fn lemma_sorted_same_elements(s1: Seq<ComponentTypeId>, s2: Seq<ComponentTypeId>)
    requires
        strictly_sorted(s1),
        strictly_sorted(s2),
        forall|t: ComponentTypeId|
            #![trigger s1.contains(t)]
            #![trigger s2.contains(t)]
            s1.contains(t) <==> s2.contains(t),
    ensures
        s1 == s2,
    decreases s1.len(),
{
    if s1.len() == 0 {
        if s2.len() > 0 {
            assert(s2.contains(s2[0]));
        }
        assert(s1 =~= s2);
    } else if s2.len() == 0 {
        assert(s1.contains(s1[0]));
    } else {
        let a = s1[0];
        let b = s2[0];
        assert(s1.contains(a));
        assert(s2.contains(b));
        assert(s2.contains(a));
        assert(s1.contains(b));
        let ka = choose|k: int| 0 <= k < s2.len() && s2[k] == a;
        let kb = choose|k: int| 0 <= k < s1.len() && s1[k] == b;
        assert(b <= a) by {
            if ka > 0 {
                assert(s2[0] < s2[ka]);
            }
        }
        assert(a <= b) by {
            if kb > 0 {
                assert(s1[0] < s1[kb]);
            }
        }
        let r1 = s1.drop_first();
        let r2 = s2.drop_first();
        assert forall|t: ComponentTypeId| #[trigger] r1.contains(t) <==> r2.contains(t) by {
            if r1.contains(t) {
                let k = choose|k: int| 0 <= k < r1.len() && r1[k] == t;
                assert(s1[0] < s1[k + 1]);
                assert(s1.contains(t));
                assert(s2.contains(t));
                let q = choose|q: int| 0 <= q < s2.len() && s2[q] == t;
                assert(q != 0);
                assert(r2[q - 1] == t);
            }
            if r2.contains(t) {
                let k = choose|k: int| 0 <= k < r2.len() && r2[k] == t;
                assert(s2[0] < s2[k + 1]);
                assert(s2.contains(t));
                assert(s1.contains(t));
                let q = choose|q: int| 0 <= q < s1.len() && s1[q] == t;
                assert(q != 0);
                assert(r1[q - 1] == t);
            }
        }
        assert(strictly_sorted(r1)) by {
            assert forall|i: int, j: int| 0 <= i < j < r1.len() implies r1[i] < r1[j] by {
                assert(s1[i + 1] < s1[j + 1]);
            }
        }
        assert(strictly_sorted(r2)) by {
            assert forall|i: int, j: int| 0 <= i < j < r2.len() implies r2[i] < r2[j] by {
                assert(s2[i + 1] < s2[j + 1]);
            }
        }
        lemma_sorted_same_elements(r1, r2);
        assert(s1 =~= seq![a] + r1);
        assert(s2 =~= seq![b] + r2);
    }
}

/// A component map has exactly one type order, so a contract that speaks of "some" type
/// order of an entity's components fixes it.
pub proof fn lemma_type_order_unique<V>(m: Map<ComponentTypeId, V>, s1: Seq<ComponentTypeId>, s2: Seq<ComponentTypeId>)
    requires
        in_type_order(m, s1),
        in_type_order(m, s2),
    ensures
        s1 == s2,
{
    lemma_sorted_same_elements(s1, s2);
}

/// A copy of `sig`.
fn copy_signature(sig: &Vec<ComponentTypeId>) -> (r: Vec<ComponentTypeId>)
    ensures
        r@ == sig@,
{
    let mut r: Vec<ComponentTypeId> = Vec::new();
    let mut i: usize = 0;
    while i < sig.len()
        invariant
            i <= sig@.len(),
            r@ == sig@.take(i as int),
        decreases sig@.len() - i,
    {
        r.push(sig[i]);
        i = i + 1;
        assert(r@ =~= sig@.take(i as int));
    }
    assert(r@ =~= sig@);
    r
}

/// Whether two signatures are equal.
fn same_signature(a: &Vec<ComponentTypeId>, b: &Vec<ComponentTypeId>) -> (r: bool)
    ensures
        r == (a@ == b@),
{
    if a.len() != b.len() {
        return false;
    }
    let mut i: usize = 0;
    while i < a.len()
        invariant
            a@.len() == b@.len(),
            i <= a@.len(),
            forall|k: int| 0 <= k < i ==> a@[k] == b@[k],
        decreases a@.len() - i,
    {
        if a[i] != b[i] {
            return false;
        }
        i = i + 1;
    }
    assert(a@ =~= b@);
    true
}

/// The entity a component map names as parent, if it holds a [`Parent`].
pub open spec fn parent_in<A>(comps: Map<ComponentTypeId, Component<A>>) -> Option<Entity> {
    if comps.contains_key(PARENT_TYPE_ID) && comps[PARENT_TYPE_ID] is Parent {
        Some(comps[PARENT_TYPE_ID]->Parent_0.0)
    } else {
        None
    }
}

/// The children list a component map holds, if it holds [`Children`].
pub open spec fn children_in<A>(comps: Map<ComponentTypeId, Component<A>>) -> Option<Seq<Entity>> {
    if comps.contains_key(CHILDREN_TYPE_ID) && comps[CHILDREN_TYPE_ID] is Children {
        Some(comps[CHILDREN_TYPE_ID]->Children_0.0@)
    } else {
        None
    }
}

/// `v` with `e`'s components changed by `f`, when `e` is live.
pub open spec fn update_entity<A>(
    v: Map<Entity, Map<ComponentTypeId, Component<A>>>,
    e: Entity,
    t: ComponentTypeId,
    c: Component<A>,
) -> Map<Entity, Map<ComponentTypeId, Component<A>>> {
    if v.contains_key(e) {
        v.insert(e, v[e].insert(t, c))
    } else {
        v
    }
}

/// `m2` is `m1` with its children list replaced by one holding `cs`.
pub open spec fn with_children_list<A>(
    m1: Map<ComponentTypeId, Component<A>>,
    m2: Map<ComponentTypeId, Component<A>>,
    cs: Seq<Entity>,
) -> bool {
    &&& m2.remove(CHILDREN_TYPE_ID) == m1.remove(CHILDREN_TYPE_ID)
    &&& children_in(m2) == Some(cs)
}

/// `v2` is `v1` where only `x`'s children list changed, to one holding `cs`.
pub open spec fn children_changed<A>(
    v1: Map<Entity, Map<ComponentTypeId, Component<A>>>,
    v2: Map<Entity, Map<ComponentTypeId, Component<A>>>,
    x: Entity,
    cs: Seq<Entity>,
) -> bool {
    &&& v1.contains_key(x)
    &&& v2 == v1.insert(x, v2[x])
    &&& with_children_list(v1[x], v2[x], cs)
}

/// First step of re-parenting: `child` leaves the children list of its current parent
/// (when the child is live, has a parent, and that parent is live with a children list).
pub open spec fn detached<A>(
    v: Map<Entity, Map<ComponentTypeId, Component<A>>>,
    v1: Map<Entity, Map<ComponentTypeId, Component<A>>>,
    child: Entity,
) -> bool {
    if v.contains_key(child) && parent_in(v[child]) is Some && v.contains_key(
        parent_in(v[child]).unwrap(),
    ) && children_in(v[parent_in(v[child]).unwrap()]) is Some {
        let op = parent_in(v[child]).unwrap();
        children_changed(v, v1, op, without(children_in(v[op]).unwrap(), child))
    } else {
        v1 == v
    }
}

/// Second step of re-parenting: `child` names `new_parent` as its parent and is appended to
/// its children list (a new list if it has none); with no new parent, `child`'s parent is
/// removed.
pub open spec fn attached<A>(
    v1: Map<Entity, Map<ComponentTypeId, Component<A>>>,
    v2: Map<Entity, Map<ComponentTypeId, Component<A>>>,
    child: Entity,
    new_parent: Option<Entity>,
) -> bool {
    match new_parent {
        Some(p) => {
            let va = update_entity(v1, child, PARENT_TYPE_ID, Component::Parent(Parent(p)));
            if va.contains_key(p) {
                match children_in(va[p]) {
                    Some(cs) => children_changed(va, v2, p, cs.push(child)),
                    None => children_changed(va, v2, p, seq![child]),
                }
            } else {
                v2 == va
            }
        },
        None => v2 == (if v1.contains_key(child) {
            v1.insert(child, v1[child].remove(PARENT_TYPE_ID))
        } else {
            v1
        }),
    }
}

/// Whether some live entity of `v` uses slot `index`.
pub open spec fn index_in_use<V>(v: Map<Entity, V>, index: u32) -> bool {
    exists|g: u32| v.contains_key(Entity { index, generation: g })
}

/// The entities of `s` other than `x`, in order.
pub open spec fn without(s: Seq<Entity>, x: Entity) -> Seq<Entity> {
    s.filter(|y: Entity| y != x)
}

/// The entities of `list` other than `x`, in order.
fn without_entity(list: &Vec<Entity>, x: Entity) -> (r: Vec<Entity>)
    ensures
        r@ == without(list@, x),
{
    let mut r: Vec<Entity> = Vec::new();
    let mut i: usize = 0;
    while i < list.len()
        invariant
            i <= list@.len(),
            r@ == without(list@.take(i as int), x),
        decreases list@.len() - i,
    {
        let y = list[i];
        proof {
            assert(list@.take(i + 1).drop_last() =~= list@.take(i as int));
            reveal_with_fuel(Seq::filter, 1);
        }
        if y != x {
            r.push(y);
        }
        i = i + 1;
    }
    assert(list@.take(list@.len() as int) =~= list@);
    r
}

/// `list` followed by `x`.
fn with_entity(list: &Vec<Entity>, x: Entity) -> (r: Vec<Entity>)
    ensures
        r@ == list@.push(x),
{
    let mut r: Vec<Entity> = Vec::new();
    let mut i: usize = 0;
    while i < list.len()
        invariant
            i <= list@.len(),
            r@ == list@.take(i as int),
        decreases list@.len() - i,
    {
        r.push(list[i]);
        i = i + 1;
        assert(r@ =~= list@.take(i as int));
    }
    assert(list@.take(list@.len() as int) =~= list@);
    r.push(x);
    r
}

/// Where an entity currently lives: which archetype, and which row within it.
#[derive(Clone, Copy, Debug, PartialEq, Eq, Structural)]
pub struct EntityLocation {
    pub archetype_id: usize,
    pub row: usize,
}

/// The entities, their components grouped by archetype, the resources and the assets.
pub struct World<A, R> {
    /// Generation of the entity living in each slot; `None` for a free slot.
    entity_slots: Vec<Option<u32>>,
    /// Generation each slot was last issued at, kept while the slot is free so that its next
    /// entity gets a new one.
    generations: Vec<u32>,
    /// Free slots, reused last-freed first.
    free_indices: Vec<u32>,
    /// Where the entity of each live slot lives.
    locations: Vec<Option<EntityLocation>>,
    /// The next never-used slot index.
    next_index: u32,
    /// All archetypes; archetype 0 is the empty one.
    archetypes: Vec<Archetype<A>>,
    /// All the resources in the world.
    resource_map: ResourceMap<R>,
    /// All the assets in the world.
    pub(crate) assets: AssetMap<A>,
    /// Number of live entities.
    live_count: usize,
}

impl<A, R> World<A, R> {
    /// Whether `e` is a live entity (its slot is issued at its generation).
    pub closed spec fn is_alive(&self, e: Entity) -> bool {
        e.index < self.entity_slots@.len() && self.entity_slots@[e.index as int] == Some(
            e.generation,
        )
    }

    spec fn loc_of(&self, e: Entity) -> EntityLocation {
        self.locations@[e.index as int].unwrap()
    }

    /// The components of a live entity, by type.
    pub closed spec fn components(&self, e: Entity) -> Map<ComponentTypeId, Component<A>> {
        let l = self.loc_of(e);
        self.archetypes@[l.archetype_id as int].row_components(l.row as int)
    }

    /// The live entities and their components.
    pub open spec fn view(&self) -> Map<Entity, Map<ComponentTypeId, Component<A>>> {
        Map::new(|e: Entity| self.is_alive(e), |e: Entity| self.components(e))
    }

    /// The live entities and the values of their components.
    pub open spec fn deep_view(&self) -> Map<Entity, Map<ComponentTypeId, ComponentView<A>>> {
        deep_entities(self.view())
    }

    /// The set of live entities.
    pub open spec fn alive_set(&self) -> Set<Entity> {
        Set::new(|e: Entity| self.is_alive(e))
    }

    /// The archetypes, in creation order.
    pub closed spec fn archs(&self) -> Seq<Archetype<A>> {
        self.archetypes@
    }

    /// Where a live entity lives.
    pub closed spec fn location(&self, e: Entity) -> EntityLocation {
        self.loc_of(e)
    }

    /// Free slots, in the order they will be reused (last first).
    pub closed spec fn free_slots(&self) -> Seq<u32> {
        self.free_indices@
    }

    /// The generation slot `i` was last issued at.
    pub closed spec fn slot_generation(&self, i: u32) -> u32 {
        self.generations@[i as int]
    }

    /// The entity the next spawn creates: the most recently freed slot, reused under the
    /// generation after the one it was last issued at, or else the next never-used slot under
    /// generation 0.
    pub open spec fn next_spawned(&self) -> Entity {
        if self.free_slots().len() > 0 {
            Entity {
                index: self.free_slots().last(),
                generation: next_generation(self.slot_generation(self.free_slots().last())),
            }
        } else {
            Entity { index: self.counter(), generation: 0 }
        }
    }

    /// How many more entities can be spawned before slot indices run out.
    pub closed spec fn spawn_capacity(&self) -> nat {
        (self.free_indices@.len() + (u32::MAX - self.next_index)) as nat
    }

    /// The asset storage.
    pub closed spec fn asset_map(&self) -> AssetMap<A> {
        self.assets
    }

    /// The resources, by type.
    pub open spec fn resources(&self) -> Map<u64, R> {
        self.resource_store().view()
    }

    spec fn loc_ok(&self, i: int) -> bool {
        match self.entity_slots@[i] {
            Some(g) => {
                &&& self.generations@[i] == g
                &&& self.locations@[i] is Some
                &&& {
                    let l = self.locations@[i].unwrap();
                    &&& l.archetype_id < self.archetypes@.len()
                    &&& l.row < self.archetypes@[l.archetype_id as int].ents().len()
                    &&& self.archetypes@[l.archetype_id as int].ents()[l.row as int] == Entity {
                        index: i as u32,
                        generation: g,
                    }
                }
            },
            None => self.locations@[i] is None,
        }
    }

    spec fn row_ok(&self, a: int, r: int) -> bool {
        let e = self.archetypes@[a].ents()[r];
        &&& e.index < self.entity_slots@.len()
        &&& self.entity_slots@[e.index as int] == Some(e.generation)
        &&& self.locations@[e.index as int] is Some
        &&& self.locations@[e.index as int].unwrap().archetype_id == a
        &&& self.locations@[e.index as int].unwrap().row == r
    }

    pub closed spec fn wf(&self) -> bool {
        &&& self.entity_slots@.len() == self.locations@.len()
        &&& self.entity_slots@.len() == self.generations@.len()
        &&& self.entity_slots@.len() == self.next_index
        &&& forall|i: int| 0 <= i < self.entity_slots@.len() ==> #[trigger] self.loc_ok(i)
        &&& forall|a: int, r: int|
            0 <= a < self.archetypes@.len() && 0 <= r < self.archetypes@[a].ents().len()
                ==> #[trigger] self.row_ok(a, r)
        &&& forall|i: int, j: int|
            0 <= i < self.free_indices@.len() && 0 <= j < self.free_indices@.len() && i != j
                ==> self.free_indices@[i] != self.free_indices@[j]
        &&& forall|i: int|
            0 <= i < self.free_indices@.len() ==> #[trigger] self.free_indices@[i]
                < self.entity_slots@.len() && self.entity_slots@[self.free_indices@[i] as int]
                is None
        &&& self.archetypes@.len() >= 1
        &&& self.archetypes@[0].sig().len() == 0
        &&& forall|a: int| 0 <= a < self.archetypes@.len() ==> #[trigger] self.archetypes@[a].wf()
        &&& forall|a: int, b: int|
            0 <= a < self.archetypes@.len() && 0 <= b < self.archetypes@.len() && a != b
                ==> self.archetypes@[a].sig() != self.archetypes@[b].sig()
        &&& self.alive_set().finite()
        &&& self.live_count == self.alive_set().len()
        &&& self.resource_map.wf()
        &&& self.assets.wf()
    }

    /// Facts about a live entity's location.
    proof fn lemma_alive(&self, e: Entity)
        requires
            self.wf(),
            self.is_alive(e),
        ensures
            self.locations@[e.index as int] == Some(self.loc_of(e)),
            self.loc_of(e).archetype_id < self.archetypes@.len(),
            self.loc_of(e).row < self.archetypes@[self.loc_of(e).archetype_id as int].ents().len(),
            self.archetypes@[self.loc_of(e).archetype_id as int].ents()[self.loc_of(e).row as int]
                == e,
            self.archetypes@[self.loc_of(e).archetype_id as int].wf(),
    {
        assert(self.loc_ok(e.index as int));
    }

    /// The live entities stored in the first `k` archetypes.
    closed spec fn alive_below(&self, k: int) -> Set<Entity> {
        Set::new(|e: Entity| self.is_alive(e) && self.loc_of(e).archetype_id < k)
    }

    proof fn lemma_alive_below(&self, k: int)
        requires
            self.wf(),
            0 <= k <= self.archetypes@.len(),
        ensures
            self.alive_below(k).finite(),
            self.alive_below(k).len() == total_rows(self.archetypes@.take(k)),
        decreases k,
    {
        assert(self.alive_below(k).subset_of(self.alive_set()));
        vstd::set_lib::lemma_len_subset(self.alive_below(k), self.alive_set());
        if k == 0 {
            assert(self.alive_below(0) =~= Set::<Entity>::empty());
            assert(self.archetypes@.take(0).len() == 0);
        } else {
            self.lemma_alive_below(k - 1);
            let a = k - 1;
            let ents = self.archetypes@[a].ents();
            let es = ents.to_set();
            assert(ents.no_duplicates()) by {
                assert forall|i: int, j: int| 0 <= i < ents.len() && 0 <= j < ents.len() && i != j implies ents[i] != ents[j] by {
                    assert(self.row_ok(a, i));
                    assert(self.row_ok(a, j));
                }
            }
            ents.unique_seq_to_set();
            assert forall|e: Entity| #[trigger] self.alive_below(k).contains(e) == (self.alive_below(a).contains(e) || es.contains(e)) by {
                if es.contains(e) {
                    let r = choose|r: int| 0 <= r < ents.len() && ents[r] == e;
                    assert(self.row_ok(a, r));
                }
                if self.alive_below(k).contains(e) && self.loc_of(e).archetype_id == a {
                    self.lemma_alive(e);
                    assert(ents[self.loc_of(e).row as int] == e);
                }
            }
            assert(self.alive_below(k) =~= self.alive_below(a) + es);
            assert(self.alive_below(a).disjoint(es)) by {
                assert forall|e: Entity| self.alive_below(a).contains(e) implies !es.contains(e) by {
                    if es.contains(e) {
                        let r = choose|r: int| 0 <= r < ents.len() && ents[r] == e;
                        assert(self.row_ok(a, r));
                    }
                }
            }
            vstd::set_lib::lemma_set_disjoint_lens(self.alive_below(a), es);
            assert(self.archetypes@.take(k).drop_last() =~= self.archetypes@.take(a));
        }
    }

    /// The number of live entities is the number of rows over all archetypes.
    pub proof fn lemma_entity_count_is_total_rows(&self)
        requires
            self.wf(),
        ensures
            self.view().dom().len() == total_rows(self.archs()),
    {
        let n = self.archetypes@.len() as int;
        self.lemma_alive_below(n);
        assert forall|e: Entity| #[trigger] self.alive_set().contains(e) implies self.alive_below(n).contains(e) by {
            self.lemma_alive(e);
        }
        assert(self.alive_below(n) =~= self.alive_set());
        assert(self.archetypes@.take(n) =~= self.archetypes@);
        assert(self.view().dom() =~= self.alive_set());
    }

    /// A well-formed world has finitely many live entities.
    pub proof fn lemma_finite(&self)
        requires
            self.wf(),
        ensures
            self.view().dom().finite(),
            self.view().dom() == self.alive_set(),
    {
        assert(self.view().dom() =~= self.alive_set());
    }

    /// Free slots are issued slots.
    proof fn lemma_free_in_range(&self)
        requires
            self.wf(),
        ensures
            forall|i: u32| #[trigger] self.free_slots().contains(i) ==> i < self.generations@.len(),
    {
        assert forall|i: u32| #[trigger] self.free_slots().contains(i) implies i < self.generations@.len() by {
            let k = choose|k: int| 0 <= k < self.free_indices@.len() && self.free_indices@[k] == i;
            assert(self.free_indices@[k] < self.entity_slots@.len());
        }
    }

    /// A new world with no entities, resources or assets.
    pub fn new() -> (w: Self)
        ensures
            w.wf(),
            w.view() == Map::<Entity, Map<ComponentTypeId, Component<A>>>::empty(),
            w.resources() == Map::<u64, R>::empty(),
            w.asset_map().slots().len() == 0,
            w.asset_map().free().len() == 0,
            w.asset_map().paths() == Map::<Seq<char>, u32>::empty(),
            w.archs().len() == 1,
            w.archs()[0].sig().len() == 0,
            w.spawn_capacity() == u32::MAX,
    {
        let mut archetypes: Vec<Archetype<A>> = Vec::new();
        // Archetype 0 is always the empty archetype.
        archetypes.push(Archetype::new(Vec::new()));
        let w = World {
            entity_slots: Vec::new(),
            generations: Vec::new(),
            free_indices: Vec::new(),
            locations: Vec::new(),
            next_index: 0,
            archetypes,
            resource_map: ResourceMap::new(),
            assets: AssetMap::new(),
            live_count: 0,
        };
        proof {
            assert(w.alive_set() =~= Set::<Entity>::empty());
            assert(w.view() =~= Map::<Entity, Map<ComponentTypeId, Component<A>>>::empty());
        }
        w
    }

    /// How many more entities can be spawned before slot indices run out.
    pub fn spawn_room(&self) -> (r: u128)
        requires
            self.wf(),
        ensures
            r == self.spawn_capacity(),
    {
        self.free_indices.len() as u128 + (u32::MAX - self.next_index) as u128
    }

    /// Whether another entity can be spawned.
    pub fn can_spawn(&self) -> (r: bool)
        requires
            self.wf(),
        ensures
            r == (self.spawn_capacity() > 0),
    {
        self.free_indices.len() > 0 || self.next_index < u32::MAX
    }

    /// Whether `e` is a live entity.
    pub fn contains(&self, e: Entity) -> (r: bool)
        requires
            self.wf(),
        ensures
            r == self.view().contains_key(e),
    {
        let i = e.index as usize;
        i < self.entity_slots.len() && match self.entity_slots[i] {
            Some(g) => g == e.generation,
            None => false,
        }
    }

    /// Number of live entities.
    pub fn entity_count(&self) -> (n: usize)
        requires
            self.wf(),
        ensures
            n == self.view().dom().len(),
    {
        assert(self.view().dom() =~= self.alive_set());
        self.live_count
    }

    /// All archetypes, in creation order.
    pub fn archetypes(&self) -> (r: &Vec<Archetype<A>>)
        ensures
            r@ == self.archs(),
    {
        &self.archetypes
    }

    /// Spawns a new entity with no components, reusing the most recently freed slot if any.
    pub fn spawn(&mut self) -> (e: Entity)
        requires
            old(self).wf(),
            old(self).spawn_capacity() > 0,
        ensures
            final(self).wf(),
            !old(self).view().contains_key(e),
            e == old(self).next_spawned(),
            final(self).free_slots() == (if old(self).free_slots().len() > 0 {
                old(self).free_slots().drop_last()
            } else {
                old(self).free_slots()
            }),
            final(self).view() == old(self).view().insert(e, Map::empty()),
            final(self).view().dom().len() == old(self).view().dom().len() + 1,
            final(self).location(e) == (EntityLocation { archetype_id: 0, row: old(self).archs()[0].ents().len() as usize }),
            final(self).archs()[0].ents() == old(self).archs()[0].ents().push(e),
            final(self).slot_generation(e.index) == e.generation,
            forall|i: u32| #[trigger] old(self).free_slots().contains(i) && i != e.index
                ==> final(self).slot_generation(i) == old(self).slot_generation(i),
            final(self).spawn_capacity() == old(self).spawn_capacity() - 1,
            final(self).resources() == old(self).resources(),
            final(self).asset_map() == old(self).asset_map(),
            final(self).archs().len() == old(self).archs().len(),
            forall|a: int|
                0 <= a < final(self).archs().len() ==> (#[trigger] final(self).archs()[a]).sig()
                    == old(self).archs()[a].sig(),
    {
        proof {
            old(self).lemma_finite();
            old(self).lemma_free_in_range();
        }
        let e = self.allocate_entity();
        let ghost w1 = *self;
        let row = self.archetypes[0].len();
        self.archetypes[0].push_row(e, Vec::new());
        self.locations.set(e.index as usize, Some(EntityLocation { archetype_id: 0, row }));
        proof {
            assert forall|x: Entity| #[trigger] self.alive_set().contains(x) == old(self).alive_set().insert(e).contains(x) by {
                assert(w1.is_alive(x) == (old(self).is_alive(x) || x == e));
            }
            assert(self.alive_set() =~= old(self).alive_set().insert(e));
            assert(!old(self).alive_set().contains(e));
            assert(self.alive_set().finite());
            assert(self.alive_set().len() == old(self).alive_set().len() + 1);
            self.lemma_alive_bound();
        }
        self.live_count = self.live_count + 1;
        proof {
            self.lemma_after_spawn(w1, e, row);
            assert(self.alive_set() =~= old(self).alive_set().insert(e));
            assert forall|x: Entity| #[trigger] old(self).view().contains_key(x) && x != e implies
                self.view()[x] == old(self).view()[x] by {
                assert(w1.is_alive(x));
                assert(w1.locations@[x.index as int] == old(self).locations@[x.index as int]);
                assert(w1.components(x) == old(self).components(x));
            }
            assert(self.entity_slots@.len() == self.locations@.len());
            assert(self.entity_slots@.len() == self.next_index);
            assert(self.archetypes@.len() >= 1);
            assert(self.archetypes@[0].sig().len() == 0);
            assert(self.alive_set().finite());
            assert(self.live_count == self.alive_set().len());
            assert(self.resource_map.wf());
            assert(self.assets.wf());
            assert(self.view() =~= old(self).view().insert(e, Map::empty()));
            assert forall|a: int, b: int| 0 <= a < self.archetypes@.len() && 0 <= b < self.archetypes@.len() && a != b
                implies self.archetypes@[a].sig() != self.archetypes@[b].sig() by {
                assert(self.archetypes@[a].sig() == old(self).archetypes@[a].sig());
                assert(self.archetypes@[b].sig() == old(self).archetypes@[b].sig());
            }
        }
        e
    }

    /// The archetype with signature `sig`, created if it does not exist yet.
    fn get_or_create_archetype(&mut self, sig: Vec<ComponentTypeId>) -> (b: usize)
        requires
            old(self).wf(),
            strictly_sorted(sig@),
        ensures
            final(self).wf(),
            b < final(self).archetypes@.len(),
            final(self).archetypes@[b as int].sig() == sig@,
            final(self).archetypes@.len() == old(self).archetypes@.len() || (final(self).archetypes@.len() == old(self).archetypes@.len() + 1 && b == old(self).archetypes@.len()
                && final(self).archetypes@[b as int].ents().len() == 0),
            forall|a: int|
                0 <= a < old(self).archetypes@.len() ==> #[trigger] final(self).archetypes@[a] == old(self).archetypes@[a],
            final(self).entity_slots == old(self).entity_slots,
            final(self).generations == old(self).generations,
            final(self).locations == old(self).locations,
            final(self).free_indices == old(self).free_indices,
            final(self).next_index == old(self).next_index,
            final(self).resource_map == old(self).resource_map,
            final(self).assets == old(self).assets,
            final(self).live_count == old(self).live_count,
            final(self).view() == old(self).view(),
    {
        let mut i: usize = 0;
        while i < self.archetypes.len()
            invariant
                *self == *old(self),
                old(self).wf(),
                i <= self.archetypes@.len(),
                forall|k: int| 0 <= k < i ==> self.archetypes@[k].sig() != sig@,
            decreases self.archetypes@.len() - i,
        {
            if same_signature(self.archetypes[i].signature(), &sig) {
                return i;
            }
            i = i + 1;
        }
        let id = self.archetypes.len();
        self.archetypes.push(Archetype::new(sig));
        // The grown list's length is again a `usize`.
        let _count = self.archetypes.len();
        proof {
            let o = old(self);
            assert forall|a: int| 0 <= a < o.archetypes@.len() implies #[trigger] self.archetypes@[a]
                == o.archetypes@[a] by {}
            assert forall|k: int| 0 <= k < self.entity_slots@.len() implies #[trigger] self.loc_ok(k) by {
                assert(o.loc_ok(k));
            }
            assert forall|a: int, r: int|
                0 <= a < self.archetypes@.len() && 0 <= r < self.archetypes@[a].ents().len()
                    implies #[trigger] self.row_ok(a, r) by {
                assert(o.row_ok(a, r));
            }
            assert forall|a: int| 0 <= a < self.archetypes@.len() implies #[trigger] self.archetypes@[a].wf() by {}
            assert forall|x: Entity| #[trigger] self.view().contains_key(x) implies self.view()[x]
                == o.view()[x] by {
                assert(o.loc_ok(x.index as int));
            }
            assert(self.view() =~= o.view());
        }
        id
    }

    /// Moves a live entity's row to archetype `b`, inserting or removing one value on the way.
    fn move_entity(&mut self, e: Entity, b: usize, edit: RowEdit<A>) -> (removed: Option<Component<A>>)
        requires
            old(self).wf(),
            old(self).is_alive(e),
            b < old(self).archetypes@.len(),
            b != old(self).loc_of(e).archetype_id,
            ({
                let sa = old(self).archetypes@[old(self).loc_of(e).archetype_id as int].sig();
                match edit {
                    RowEdit::Insert(p, c) => insertion_point(sa, c.spec_type_id(), p as int)
                        && old(self).archetypes@[b as int].sig() == sa.insert(
                        p as int,
                        c.spec_type_id(),
                    ),
                    RowEdit::Remove(j) => j < sa.len() && old(self).archetypes@[b as int].sig()
                        == sa.remove(j as int),
                }
            }),
        ensures
            final(self).wf(),
            ({
                let l = old(self).loc_of(e);
                let sa = old(self).archetypes@[l.archetype_id as int].sig();
                let ra = old(self).archetypes@[l.archetype_id as int].row(l.row as int);
                &&& final(self).view() == old(self).view().insert(
                    e,
                    row_map(old(self).archetypes@[b as int].sig(), edit.apply(ra)),
                )
                &&& match edit {
                    RowEdit::Insert(_, _) => removed is None,
                    RowEdit::Remove(j) => removed == Some(ra[j as int]),
                }
            }),
            ({
                // The row moves to the end of `b`; the last row of the source archetype fills
                // the vacated one.
                let l = old(self).loc_of(e);
                let oa = old(self).archetypes@[l.archetype_id as int].ents();
                let last = oa.len() - 1;
                &&& final(self).loc_of(e) == (EntityLocation { archetype_id: b, row: old(self).archetypes@[b as int].ents().len() as usize })
                &&& final(self).archetypes@[b as int].ents() == old(self).archetypes@[b as int].ents().push(e)
                &&& final(self).archetypes@[l.archetype_id as int].ents() == oa.update(l.row as int, oa[last]).drop_last()
                &&& l.row < last ==> final(self).loc_of(oa[last]) == l
            }),
            final(self).archetypes@.len() == old(self).archetypes@.len(),
            forall|a: int|
                0 <= a < final(self).archetypes@.len() ==> (#[trigger] final(self).archetypes@[a]).sig()
                    == old(self).archetypes@[a].sig(),
            final(self).free_indices == old(self).free_indices,
            final(self).next_index == old(self).next_index,
            final(self).resource_map == old(self).resource_map,
            final(self).assets == old(self).assets,
    {
        let ghost o = *old(self);
        proof {
            o.lemma_alive(e);
        }
        let loc = self.locations[e.index as usize].unwrap();
        let a = loc.archetype_id;
        let r = loc.row;
        let ghost last = o.archetypes@[a as int].ents().len() - 1;
        let ghost moved = o.archetypes@[a as int].ents()[last];
        let ghost ra = o.archetypes@[a as int].row(r as int);
        proof {
            o.archetypes@[a as int].lemma_wf();
            assert(o.row_ok(a as int, last));
        }
        let mut vals = self.archetypes[a].take_row(r);
        if r < self.archetypes[a].len() {
            let m = self.archetypes[a].entities[r];
            self.locations.set(m.index as usize, Some(EntityLocation { archetype_id: a, row: r }));
        }
        let ghost w1 = *self;
        let removed = match edit {
            RowEdit::Insert(p, c) => {
                vals.insert(p, c);
                None
            },
            RowEdit::Remove(j) => Some(vals.remove(j)),
        };
        let new_row = self.archetypes[b].len();
        proof {
            let sb = o.archetypes@[b as int].sig();
            assert(vals@ == edit.apply(ra));
            assert forall|k: int| 0 <= k < vals@.len() implies (#[trigger] vals@[k]).spec_type_id() == sb[k] by {
                match edit {
                    RowEdit::Insert(p, c) => {
                        if k < p {
                            assert(vals@[k] == ra[k]);
                        } else if k > p {
                            assert(vals@[k] == ra[k - 1]);
                        }
                    },
                    RowEdit::Remove(j) => {
                        if k < j {
                            assert(vals@[k] == ra[k]);
                        } else {
                            assert(vals@[k] == ra[k + 1]);
                        }
                    },
                }
            }
            assert(self.archetypes@[b as int] == o.archetypes@[b as int]);
        }
        self.archetypes[b].push_row(e, vals);
        self.locations.set(e.index as usize, Some(EntityLocation { archetype_id: b, row: new_row }));
        proof {
            let sb = o.archetypes@[b as int].sig();
            let na = self.archetypes@[a as int];
            let nb = self.archetypes@[b as int];
            let oa = o.archetypes@[a as int];
            let ob = o.archetypes@[b as int];
            // the entity that filled the vacated row, if any
            let filled = (r as int) < na.ents().len();
            if filled {
                assert(na.ents()[r as int] == moved);
                assert(moved.index != e.index);
            }
            assert forall|k: int| 0 <= k < self.entity_slots@.len() implies #[trigger] self.loc_ok(k) by {
                assert(o.loc_ok(k));
                if k != e.index && o.entity_slots@[k] is Some {
                    let l = o.locations@[k].unwrap();
                    if filled && k == moved.index {
                    } else {
                        assert(self.locations@[k] == o.locations@[k]);
                        if l.archetype_id == a {
                            assert(l.row != r);
                            assert(l.row != last);
                            assert(na.ents()[l.row as int] == oa.ents()[l.row as int]);
                        } else if l.archetype_id == b {
                            assert(nb.ents()[l.row as int] == ob.ents()[l.row as int]);
                        } else {
                            assert(self.archetypes@[l.archetype_id as int] == o.archetypes@[l.archetype_id as int]);
                        }
                    }
                }
            }
            assert forall|x: int, q: int|
                0 <= x < self.archetypes@.len() && 0 <= q < self.archetypes@[x].ents().len()
                    implies #[trigger] self.row_ok(x, q) by {
                if x == b {
                    if q < ob.ents().len() {
                        assert(nb.ents()[q] == ob.ents()[q]);
                        assert(o.row_ok(x, q));
                        let y = ob.ents()[q];
                        assert(y.index != e.index);
                        if filled {
                            assert(y.index != moved.index);
                        }
                        assert(self.locations@[y.index as int] == o.locations@[y.index as int]);
                    }
                } else if x == a {
                    if q == r {
                        assert(o.row_ok(a as int, last));
                        assert(self.locations@[moved.index as int] == Some(EntityLocation { archetype_id: a, row: r }));
                    } else {
                        assert(na.ents()[q] == oa.ents()[q]);
                        assert(o.row_ok(x, q));
                        let y = oa.ents()[q];
                        assert(y.index != e.index);
                        if filled {
                            assert(y.index != moved.index);
                        }
                        assert(self.locations@[y.index as int] == o.locations@[y.index as int]);
                    }
                } else {
                    assert(self.archetypes@[x] == o.archetypes@[x]);
                    assert(o.row_ok(x, q));
                    let y = o.archetypes@[x].ents()[q];
                    assert(o.locations@[e.index as int] == Some(EntityLocation { archetype_id: a, row: r }));
                    assert(y.index != e.index);
                    if filled {
                        assert(y.index != moved.index);
                    }
                    assert(self.locations@[y.index as int] == o.locations@[y.index as int]);
                }
            }
            assert forall|x: int| 0 <= x < self.archetypes@.len() implies #[trigger] self.archetypes@[x].wf() by {
                if x != a && x != b {
                    assert(self.archetypes@[x] == o.archetypes@[x]);
                }
            }
            assert forall|x: int| 0 <= x < self.archetypes@.len() implies (#[trigger] self.archetypes@[x]).sig()
                == o.archetypes@[x].sig() by {
                if x != a && x != b {
                    assert(self.archetypes@[x] == o.archetypes@[x]);
                }
            }
            assert(self.alive_set() =~= o.alive_set());
            assert forall|y: Entity| #[trigger] self.view().contains_key(y) && y != e implies self.view()[y]
                == o.view()[y] by {
                assert(o.loc_ok(y.index as int));
                let l = o.locations@[y.index as int].unwrap();
                if filled && y == moved {
                    assert(na.row(r as int) == oa.row(last));
                } else {
                    assert(self.locations@[y.index as int] == o.locations@[y.index as int]);
                    if l.archetype_id == a {
                        assert(l.row != r);
                        assert(na.row(l.row as int) == oa.row(l.row as int));
                    } else if l.archetype_id == b {
                        assert(nb.row(l.row as int) == ob.row(l.row as int));
                    } else {
                        assert(self.archetypes@[l.archetype_id as int] == o.archetypes@[l.archetype_id as int]);
                    }
                }
            }
            assert(self.components(e) == row_map(sb, edit.apply(ra)));
            assert(self.view() =~= o.view().insert(e, row_map(sb, edit.apply(ra))));
        }
        removed
    }

    /// Adds `c` to a live entity, replacing its component of the same type; does nothing for a
    /// dead entity.
    pub fn add_component(&mut self, e: Entity, c: Component<A>)
        requires
            old(self).wf(),
        ensures
            final(self).wf(),
            final(self).view() == (if old(self).view().contains_key(e) {
                old(self).view().insert(e, old(self).view()[e].insert(c.spec_type_id(), c))
            } else {
                old(self).view()
            }),
            final(self).resources() == old(self).resources(),
            final(self).asset_map() == old(self).asset_map(),
            final(self).spawn_capacity() == old(self).spawn_capacity(),
            final(self).archs().len() <= old(self).archs().len() + 1,
    {
        self.insert_component(e, c)
    }

    /// Dynamic insertion: moves the entity to the archetype that also has `c`'s type and writes
    /// `c` there, or overwrites in place when the entity already has that type.
    pub fn insert_component(&mut self, e: Entity, c: Component<A>)
        requires
            old(self).wf(),
        ensures
            final(self).wf(),
            final(self).view() == (if old(self).view().contains_key(e) {
                old(self).view().insert(e, old(self).view()[e].insert(c.spec_type_id(), c))
            } else {
                old(self).view()
            }),
            final(self).resources() == old(self).resources(),
            final(self).asset_map() == old(self).asset_map(),
            final(self).spawn_capacity() == old(self).spawn_capacity(),
            final(self).archs().len() <= old(self).archs().len() + 1,
    {
        if !self.contains(e) {
            return;
        }
        let ghost o = *old(self);
        proof {
            o.lemma_alive(e);
        }
        let loc = self.locations[e.index as usize].unwrap();
        let a = loc.archetype_id;
        let t = c.type_id();
        match self.archetypes[a].find_column(t) {
            Some(j) => {
                let ghost ra = o.archetypes@[a as int].row(loc.row as int);
                self.archetypes[a].write(loc.row, j, c);
                proof {
                    let na = self.archetypes@[a as int];
                    let oa = o.archetypes@[a as int];
                    oa.lemma_wf();
                    lemma_row_map_update(oa.sig(), ra, j as int, c);
                    assert forall|k: int| 0 <= k < self.entity_slots@.len() implies #[trigger] self.loc_ok(k) by {
                        assert(o.loc_ok(k));
                        if o.entity_slots@[k] is Some {
                            let l = o.locations@[k].unwrap();
                            if l.archetype_id != a {
                                assert(self.archetypes@[l.archetype_id as int] == o.archetypes@[l.archetype_id as int]);
                            }
                        }
                    }
                    assert forall|x: int, q: int|
                        0 <= x < self.archetypes@.len() && 0 <= q < self.archetypes@[x].ents().len()
                            implies #[trigger] self.row_ok(x, q) by {
                        assert(o.row_ok(x, q));
                        if x != a {
                            assert(self.archetypes@[x] == o.archetypes@[x]);
                        }
                    }
                    assert forall|x: int| 0 <= x < self.archetypes@.len() implies #[trigger] self.archetypes@[x].wf() by {
                        if x != a {
                            assert(self.archetypes@[x] == o.archetypes@[x]);
                        }
                    }
                    assert forall|x: int, y: int|
                        0 <= x < self.archetypes@.len() && 0 <= y < self.archetypes@.len() && x != y
                            implies self.archetypes@[x].sig() != self.archetypes@[y].sig() by {
                        assert(self.archetypes@[x].sig() == o.archetypes@[x].sig());
                        assert(self.archetypes@[y].sig() == o.archetypes@[y].sig());
                    }
                    assert(self.alive_set() =~= o.alive_set());
                    assert forall|y: Entity| #[trigger] self.view().contains_key(y) && y != e implies self.view()[y]
                        == o.view()[y] by {
                        assert(o.loc_ok(y.index as int));
                        let l = o.locations@[y.index as int].unwrap();
                        if l.archetype_id == a {
                            assert(l.row != loc.row);
                            assert(na.row(l.row as int) == oa.row(l.row as int));
                        } else {
                            assert(self.archetypes@[l.archetype_id as int] == o.archetypes@[l.archetype_id as int]);
                        }
                    }
                    assert(self.view() =~= o.view().insert(e, o.view()[e].insert(t, c)));
                }
            },
            None => {
                let p = self.archetypes[a].insertion_index(t);
                let mut new_sig = copy_signature(self.archetypes[a].signature());
                new_sig.insert(p, t);
                proof {
                    o.archetypes@[a as int].lemma_wf();
                    lemma_sorted_insert(o.archetypes@[a as int].sig(), t, p as int);
                }
                let b = self.get_or_create_archetype(new_sig);
                let ghost w1 = *self;
                proof {
                    assert(w1.loc_of(e) == o.loc_of(e));
                    assert(w1.archetypes@[a as int] == o.archetypes@[a as int]);
                }
                self.move_entity(e, b, RowEdit::Insert(p, c));
                proof {
                    let oa = o.archetypes@[a as int];
                    let ra = oa.row(loc.row as int);
                    lemma_row_map_insert(oa.sig(), ra, p as int, t, c);
                    assert(w1.view() == o.view());
                }
            },
        }
    }

    /// Removes the component of type `t` from a live entity, moving it to the archetype without
    /// that type; returns the removed component.
    pub fn remove_component(&mut self, e: Entity, t: ComponentTypeId) -> (r: Option<Component<A>>)
        requires
            old(self).wf(),
        ensures
            final(self).wf(),
            r == (if old(self).view().contains_key(e) && old(self).view()[e].contains_key(t) {
                Some(old(self).view()[e][t])
            } else {
                None::<Component<A>>
            }),
            final(self).view() == (if old(self).view().contains_key(e) {
                old(self).view().insert(e, old(self).view()[e].remove(t))
            } else {
                old(self).view()
            }),
            final(self).resources() == old(self).resources(),
            final(self).asset_map() == old(self).asset_map(),
            final(self).spawn_capacity() == old(self).spawn_capacity(),
            final(self).archs().len() <= old(self).archs().len() + 1,
    {
        if !self.contains(e) {
            return None;
        }
        let ghost o = *old(self);
        proof {
            o.lemma_alive(e);
        }
        let loc = self.locations[e.index as usize].unwrap();
        let a = loc.archetype_id;
        let ghost oa = o.archetypes@[a as int];
        let ghost ra = oa.row(loc.row as int);
        proof {
            oa.lemma_wf();
        }
        match self.archetypes[a].find_column(t) {
            None => {
                proof {
                    assert(!o.view()[e].contains_key(t));
                    assert(o.view()[e].remove(t) =~= o.view()[e]);
                    assert(o.view().insert(e, o.view()[e].remove(t)) =~= o.view());
                }
                None
            },
            Some(j) => {
                let mut new_sig = copy_signature(self.archetypes[a].signature());
                new_sig.remove(j);
                proof {
                    lemma_sorted_remove(oa.sig(), j as int);
                }
                let b = self.get_or_create_archetype(new_sig);
                let ghost w1 = *self;
                proof {
                    assert(w1.loc_of(e) == o.loc_of(e));
                    assert(w1.archetypes@[a as int] == o.archetypes@[a as int]);
                }
                let removed = self.move_entity(e, b, RowEdit::Remove(j));
                proof {
                    lemma_row_map_remove(oa.sig(), ra, j as int);
                    lemma_sig_index(oa.sig(), j as int);
                    assert(w1.view() == o.view());
                }
                removed
            },
        }
    }

    /// Removes the component of type `t` from a live entity, if it has one.
    pub fn remove_component_by_type_id(&mut self, e: Entity, t: ComponentTypeId)
        requires
            old(self).wf(),
        ensures
            final(self).wf(),
            final(self).view() == (if old(self).view().contains_key(e) {
                old(self).view().insert(e, old(self).view()[e].remove(t))
            } else {
                old(self).view()
            }),
            final(self).resources() == old(self).resources(),
            final(self).asset_map() == old(self).asset_map(),
            final(self).spawn_capacity() == old(self).spawn_capacity(),
            final(self).archs().len() <= old(self).archs().len() + 1,
    {
        let _ = self.remove_component(e, t);
    }

    /// The component of type `t` of a live entity.
    pub fn get_component(&self, e: Entity, t: ComponentTypeId) -> (r: Option<&Component<A>>)
        requires
            self.wf(),
        ensures
            match r {
                Some(c) => self.view().contains_key(e) && self.view()[e].contains_key(t)
                    && self.view()[e][t] == *c,
                None => !(self.view().contains_key(e) && self.view()[e].contains_key(t)),
            },
    {
        if !self.contains(e) {
            return None;
        }
        proof {
            self.lemma_alive(e);
        }
        let loc = self.locations[e.index as usize].unwrap();
        let arch = &self.archetypes[loc.archetype_id];
        match arch.find_column(t) {
            Some(j) => {
                proof {
                    arch.lemma_wf();
                    lemma_sig_index(arch.sig(), j as int);
                }
                Some(arch.get(loc.row, j))
            },
            None => None,
        }
    }

    /// `b` is `a` with the component of type `t` of live entity `e` replaced by `x`, stored
    /// where the old one was.
    pub closed spec fn component_replaced(a: Self, b: Self, e: Entity, t: ComponentTypeId, x: Component<A>) -> bool {
        let l = a.loc_of(e);
        let arch = a.archetypes@[l.archetype_id as int];
        let j = sig_index(arch.sig(), t);
        &&& b.entity_slots == a.entity_slots
        &&& b.generations == a.generations
        &&& b.free_indices == a.free_indices
        &&& b.locations == a.locations
        &&& b.next_index == a.next_index
        &&& b.resource_map == a.resource_map
        &&& b.assets == a.assets
        &&& b.live_count == a.live_count
        &&& b.archetypes@.len() == a.archetypes@.len()
        &&& forall|k: int| 0 <= k < a.archetypes@.len() && k != l.archetype_id ==> #[trigger] b.archetypes@[k] == a.archetypes@[k]
        &&& b.archetypes@[l.archetype_id as int].entities == arch.entities
        &&& b.archetypes@[l.archetype_id as int].signature == arch.signature
        &&& b.archetypes@[l.archetype_id as int].columns@.len() == arch.columns@.len()
        &&& forall|k: int| 0 <= k < arch.columns@.len() && k != j ==> #[trigger] b.archetypes@[l.archetype_id as int].columns@[k] == arch.columns@[k]
        &&& b.archetypes@[l.archetype_id as int].columns@[j].items@ == arch.columns@[j].items@.update(l.row as int, x)
    }

    /// Mutable access to the component of type `t` of a live entity. Storing back a component
    /// of the same type amounts to [`World::insert_component`]; see
    /// [`World::lemma_component_replaced`].
    pub fn get_component_mut(&mut self, e: Entity, t: ComponentTypeId) -> (r: Option<&mut Component<A>>)
        requires
            old(self).wf(),
        ensures
            match r {
                Some(c) => {
                    &&& old(self).view().contains_key(e)
                    &&& old(self).view()[e].contains_key(t)
                    &&& old(self).view()[e][t] == *c
                    &&& Self::component_replaced(*old(self), *final(self), e, t, *final(c))
                },
                None => {
                    &&& !(old(self).view().contains_key(e) && old(self).view()[e].contains_key(t))
                    &&& *final(self) == *old(self)
                },
            },
    {
        if !self.contains(e) {
            return None;
        }
        proof {
            self.lemma_alive(e);
        }
        let loc = self.locations[e.index as usize].unwrap();
        let a = loc.archetype_id;
        match self.archetypes[a].find_column(t) {
            Some(j) => {
                proof {
                    let arch = self.archetypes@[a as int];
                    arch.lemma_wf();
                    lemma_sig_index(arch.sig(), j as int);
                    assert(arch.columns@[j as int].items@[loc.row as int] == arch.row(loc.row as int)[j as int]);
                }
                Some(&mut self.archetypes[a].columns[j].items[loc.row])
            },
            None => None,
        }
    }

    /// Writing a component of the same type through [`World::get_component_mut`] keeps the
    /// world well formed and replaces exactly that component of that entity.
    pub proof fn lemma_component_replaced(a: Self, b: Self, e: Entity, t: ComponentTypeId, x: Component<A>)
        requires
            a.wf(),
            a.view().contains_key(e),
            a.view()[e].contains_key(t),
            Self::component_replaced(a, b, e, t, x),
            x.spec_type_id() == t,
        ensures
            b.wf(),
            b.view() == a.view().insert(e, a.view()[e].insert(t, x)),
            b.resources() == a.resources(),
            b.asset_map() == a.asset_map(),
            b.spawn_capacity() == a.spawn_capacity(),
            b.archs().len() == a.archs().len(),
    {
        a.lemma_alive(e);
        let loc = a.loc_of(e);
        let ai = loc.archetype_id as int;
        let oa = a.archetypes@[ai];
        let na = b.archetypes@[ai];
        oa.lemma_wf();
        let j = sig_index(oa.sig(), t);
        assert(oa.sig().contains(t));
        let k0 = choose|k: int| 0 <= k < oa.sig().len() && oa.sig()[k] == t;
        lemma_sig_index(oa.sig(), k0);
        assert(j == k0);
        let ra = oa.row(loc.row as int);
        assert(na.row(loc.row as int) =~= ra.update(j, x)) by {
            assert forall|q: int| 0 <= q < ra.len() implies #[trigger] na.row(loc.row as int)[q]
                == ra.update(j, x)[q] by {
                if q != j {
                    assert(na.columns@[q] == oa.columns@[q]);
                }
            }
        }
        lemma_row_map_update(oa.sig(), ra, j, x);
        assert(na.wf()) by {
            assert forall|q: int| 0 <= q < na.columns@.len() implies #[trigger] na.columns@[q].items@.len()
                == na.entities@.len() by {
                if q != j {
                    assert(na.columns@[q] == oa.columns@[q]);
                }
            }
            assert forall|q: int, r: int|
                0 <= q < na.columns@.len() && 0 <= r < na.entities@.len() implies (
                #[trigger] na.columns@[q].items@[r]).spec_type_id() == na.signature@[q] by {
                if q != j {
                    assert(na.columns@[q] == oa.columns@[q]);
                }
            }
        }
        assert forall|k: int| 0 <= k < b.entity_slots@.len() implies #[trigger] b.loc_ok(k) by {
            assert(a.loc_ok(k));
            if a.entity_slots@[k] is Some {
                let l = a.locations@[k].unwrap();
                if l.archetype_id != loc.archetype_id {
                    assert(b.archetypes@[l.archetype_id as int] == a.archetypes@[l.archetype_id as int]);
                }
            }
        }
        assert forall|p: int, q: int|
            0 <= p < b.archetypes@.len() && 0 <= q < b.archetypes@[p].ents().len()
                implies #[trigger] b.row_ok(p, q) by {
            if p != ai {
                assert(b.archetypes@[p] == a.archetypes@[p]);
            }
            assert(a.row_ok(p, q));
        }
        assert forall|p: int| 0 <= p < b.archetypes@.len() implies #[trigger] b.archetypes@[p].wf() by {
            if p != ai {
                assert(b.archetypes@[p] == a.archetypes@[p]);
            }
        }
        assert forall|p: int, q: int|
            0 <= p < b.archetypes@.len() && 0 <= q < b.archetypes@.len() && p != q
                implies b.archetypes@[p].sig() != b.archetypes@[q].sig() by {
            if p != ai {
                assert(b.archetypes@[p] == a.archetypes@[p]);
            }
            if q != ai {
                assert(b.archetypes@[q] == a.archetypes@[q]);
            }
        }
        if ai != 0 {
            assert(b.archetypes@[0] == a.archetypes@[0]);
        }
        assert(b.alive_set() =~= a.alive_set());
        assert forall|y: Entity| #[trigger] b.view().contains_key(y) && y != e implies b.view()[y]
            == a.view()[y] by {
            assert(a.loc_ok(y.index as int));
            let l = a.locations@[y.index as int].unwrap();
            if l.archetype_id == loc.archetype_id {
                assert(l.row != loc.row);
                assert(na.row(l.row as int) =~= oa.row(l.row as int)) by {
                    assert forall|q: int| 0 <= q < oa.sig().len() implies #[trigger] na.row(l.row as int)[q]
                        == oa.row(l.row as int)[q] by {
                        if q != j {
                            assert(na.columns@[q] == oa.columns@[q]);
                        }
                    }
                }
            } else {
                assert(b.archetypes@[l.archetype_id as int] == a.archetypes@[l.archetype_id as int]);
            }
        }
        assert(b.view() =~= a.view().insert(e, a.view()[e].insert(t, x)));
    }

    /// Whether a live entity has a component of type `t`.
    pub fn has_component(&self, e: Entity, t: ComponentTypeId) -> (r: bool)
        requires
            self.wf(),
        ensures
            r == (self.view().contains_key(e) && self.view()[e].contains_key(t)),
    {
        self.get_component(e, t).is_some()
    }

    /// Despawns an entity, removing it from its archetype and freeing its slot for reuse under
    /// a new generation. Returns whether the entity was live.
    pub fn despawn(&mut self, e: Entity) -> (r: bool)
        requires
            old(self).wf(),
        ensures
            final(self).wf(),
            r == old(self).view().contains_key(e),
            final(self).view() == old(self).view().remove(e),
            final(self).free_slots() == (if r {
                old(self).free_slots().push(e.index)
            } else {
                old(self).free_slots()
            }),
            final(self).counter() == old(self).counter(),
            final(self).view().dom().len() == (if r {
                old(self).view().dom().len() - 1
            } else {
                old(self).view().dom().len() as int
            }),
            r ==> final(self).slot_generation(e.index) == e.generation,
            forall|i: u32| #[trigger] old(self).free_slots().contains(i) ==> final(self).slot_generation(i)
                == old(self).slot_generation(i),
            r ==> final(self).spawn_capacity() == old(self).spawn_capacity() + 1,
            !r ==> final(self).spawn_capacity() == old(self).spawn_capacity(),
            final(self).resources() == old(self).resources(),
            final(self).asset_map() == old(self).asset_map(),
            final(self).archs().len() == old(self).archs().len(),
            forall|a: int|
                0 <= a < final(self).archs().len() ==> (#[trigger] final(self).archs()[a]).sig()
                    == old(self).archs()[a].sig(),
    {
        proof {
            old(self).lemma_finite();
        }
        if !self.contains(e) {
            assert(old(self).view().remove(e) =~= old(self).view());
            return false;
        }
        let ghost o = *old(self);
        proof {
            o.lemma_alive(e);
            assert(o.loc_ok(e.index as int));
        }
        let i = e.index as usize;
        let loc = self.locations[i].unwrap();
        let a = loc.archetype_id;
        let r = loc.row;
        let ghost last = o.archetypes@[a as int].ents().len() - 1;
        let ghost moved = o.archetypes@[a as int].ents()[last];
        proof {
            assert(o.row_ok(a as int, last));
        }
        let _ = self.archetypes[a].take_row(r);
        if r < self.archetypes[a].len() {
            let m = self.archetypes[a].entities[r];
            self.locations.set(m.index as usize, Some(EntityLocation { archetype_id: a, row: r }));
        }
        self.entity_slots.set(i, None);
        self.locations.set(i, None);
        self.free_indices.push(e.index);
        proof {
            assert(self.alive_set() =~= o.alive_set().remove(e));
            assert(o.alive_set().contains(e));
        }
        self.live_count = self.live_count - 1;
        proof {
            let na = self.archetypes@[a as int];
            let oa = o.archetypes@[a as int];
            let filled = (r as int) < na.ents().len();
            if filled {
                assert(na.ents()[r as int] == moved);
                assert(moved.index != e.index);
            }
            assert(self.alive_set() =~= o.alive_set().remove(e));
            assert forall|k: int| 0 <= k < self.entity_slots@.len() implies #[trigger] self.loc_ok(k) by {
                assert(o.loc_ok(k));
                if k != i && o.entity_slots@[k] is Some {
                    let l = o.locations@[k].unwrap();
                    if filled && k == moved.index {
                    } else {
                        assert(self.locations@[k] == o.locations@[k]);
                        if l.archetype_id == a {
                            assert(l.row != r);
                            assert(l.row != last);
                            assert(na.ents()[l.row as int] == oa.ents()[l.row as int]);
                        } else {
                            assert(self.archetypes@[l.archetype_id as int] == o.archetypes@[l.archetype_id as int]);
                        }
                    }
                }
            }
            assert forall|x: int, q: int|
                0 <= x < self.archetypes@.len() && 0 <= q < self.archetypes@[x].ents().len()
                    implies #[trigger] self.row_ok(x, q) by {
                if x == a {
                    if q == r {
                        assert(o.row_ok(a as int, last));
                        assert(self.locations@[moved.index as int] == Some(EntityLocation { archetype_id: a, row: r }));
                    } else {
                        assert(na.ents()[q] == oa.ents()[q]);
                        assert(o.row_ok(x, q));
                        let y = oa.ents()[q];
                        assert(y.index != e.index);
                        if filled {
                            assert(y.index != moved.index);
                        }
                        assert(self.locations@[y.index as int] == o.locations@[y.index as int]);
                    }
                } else {
                    assert(self.archetypes@[x] == o.archetypes@[x]);
                    assert(o.row_ok(x, q));
                    let y = o.archetypes@[x].ents()[q];
                    assert(o.locations@[e.index as int] == Some(EntityLocation { archetype_id: a, row: r }));
                    assert(y.index != e.index);
                    if filled {
                        assert(y.index != moved.index);
                    }
                    assert(self.locations@[y.index as int] == o.locations@[y.index as int]);
                }
            }
            assert forall|x: int| 0 <= x < self.archetypes@.len() implies #[trigger] self.archetypes@[x].wf() by {
                if x != a {
                    assert(self.archetypes@[x] == o.archetypes@[x]);
                }
            }
            assert forall|x: int| 0 <= x < self.archetypes@.len() implies (#[trigger] self.archetypes@[x]).sig()
                == o.archetypes@[x].sig() by {
                if x != a {
                    assert(self.archetypes@[x] == o.archetypes@[x]);
                }
            }
            assert forall|x: int, y: int|
                0 <= x < self.archetypes@.len() && 0 <= y < self.archetypes@.len() && x != y
                    implies self.archetypes@[x].sig() != self.archetypes@[y].sig() by {
                assert(self.archetypes@[x].sig() == o.archetypes@[x].sig());
                assert(self.archetypes@[y].sig() == o.archetypes@[y].sig());
            }
            assert forall|k: int, q: int|
                0 <= k < self.free_indices@.len() && 0 <= q < self.free_indices@.len() && k != q
                    implies self.free_indices@[k] != self.free_indices@[q] by {
                let n = o.free_indices@.len() as int;
                if k == n {
                    assert(o.entity_slots@[o.free_indices@[q] as int] is None);
                } else if q == n {
                    assert(o.entity_slots@[o.free_indices@[k] as int] is None);
                }
            }
            assert forall|k: int| 0 <= k < self.free_indices@.len() implies #[trigger] self.free_indices@[k]
                < self.entity_slots@.len() && self.entity_slots@[self.free_indices@[k] as int]
                is None by {
                if k < o.free_indices@.len() {
                    assert(o.free_indices@[k] != e.index);
                }
            }
            assert forall|y: Entity| #[trigger] self.view().contains_key(y) implies self.view()[y]
                == o.view()[y] by {
                assert(o.loc_ok(y.index as int));
                let l = o.locations@[y.index as int].unwrap();
                if filled && y == moved {
                    assert(na.row(r as int) == oa.row(last));
                } else {
                    assert(self.locations@[y.index as int] == o.locations@[y.index as int]);
                    if l.archetype_id == a {
                        assert(l.row != r);
                        assert(na.row(l.row as int) == oa.row(l.row as int));
                    } else {
                        assert(self.archetypes@[l.archetype_id as int] == o.archetypes@[l.archetype_id as int]);
                    }
                }
            }
            assert(self.view() =~= o.view().remove(e));
        }
        true
    }

    /// Re-parents `child`: it leaves its current parent's children list, then names
    /// `new_parent` as parent and joins its children list (or has its parent removed).
    pub fn set_parent(&mut self, child: Entity, new_parent: Option<Entity>)
        requires
            old(self).wf(),
        ensures
            final(self).wf(),
            exists|v1: Map<Entity, Map<ComponentTypeId, Component<A>>>|
                detached(old(self).view(), v1, child) && attached(v1, final(self).view(), child, new_parent),
            final(self).resources() == old(self).resources(),
            final(self).asset_map() == old(self).asset_map(),
            final(self).spawn_capacity() == old(self).spawn_capacity(),
            final(self).archs().len() <= old(self).archs().len() + 3,
    {
        let ghost v = self.view();
        let old_parent = match self.get_component(child, PARENT_TYPE_ID) {
            Some(Component::Parent(par)) => Some(par.0),
            _ => None,
        };
        match old_parent {
            Some(op) => {
                let kept = match self.get_component(op, CHILDREN_TYPE_ID) {
                    Some(Component::Children(list)) => Some(without_entity(&list.0, child)),
                    _ => None,
                };
                match kept {
                    Some(kept) => {
                        let ghost k = kept@;
                        self.insert_component(op, Component::Children(Children(kept)));
                        proof {
                            let w = self.view();
                            assert(w[op].remove(CHILDREN_TYPE_ID) =~= v[op].remove(CHILDREN_TYPE_ID));
                            assert(children_changed(v, w, op, k));
                            assert(parent_in(v[child]) == Some(op));
                            assert(detached(v, w, child));
                        }
                    },
                    None => {
                        proof {
                            assert(parent_in(v[child]) == Some(op));
                            assert(detached(v, self.view(), child));
                        }
                    },
                }
            },
            None => {
                proof {
                    assert(detached(v, self.view(), child));
                }
            },
        }
        let ghost v1 = self.view();
        proof {
            assert(detached(v, v1, child));
        }
        match new_parent {
            Some(p) => {
                self.insert_component(child, Component::Parent(Parent(p)));
                let ghost va = self.view();
                let list = match self.get_component(p, CHILDREN_TYPE_ID) {
                    Some(Component::Children(list)) => Some(with_entity(&list.0, child)),
                    _ => None,
                };
                match list {
                    Some(l) => {
                        let ghost k = l@;
                        self.insert_component(p, Component::Children(Children(l)));
                        proof {
                            let w = self.view();
                            assert(w[p].remove(CHILDREN_TYPE_ID) =~= va[p].remove(CHILDREN_TYPE_ID));
                        }
                    },
                    None => {
                        let mut single: Vec<Entity> = Vec::new();
                        single.push(child);
                        let ghost k = single@;
                        self.add_component(p, Component::Children(Children(single)));
                        proof {
                            let w = self.view();
                            if va.contains_key(p) {
                                assert(w[p].remove(CHILDREN_TYPE_ID) =~= va[p].remove(CHILDREN_TYPE_ID));
                                assert(k =~= seq![child]);
                            }
                        }
                    },
                }
                proof {
                    assert(attached(v1, self.view(), child, new_parent));
                }
            },
            None => {
                self.remove_component(child, PARENT_TYPE_ID);
            },
        }
    }

    /// The asset storage.
    pub fn assets_of(&self) -> (m: &AssetMap<A>)
        ensures
            *m == self.asset_map(),
    {
        &self.assets
    }

    /// Stores `value` as an asset under `path`.
    pub fn add_asset(&mut self, value: A, path: String) -> (h: Handle<A>)
        requires
            old(self).wf(),
            old(self).asset_map().can_add(),
        ensures
            final(self).wf(),
            final(self).view() == old(self).view(),
            final(self).resources() == old(self).resources(),
            final(self).archs() == old(self).archs(),
            final(self).spawn_capacity() == old(self).spawn_capacity(),
            old(self).asset_map().free().len() > 0 ==> {
                &&& h.index == old(self).asset_map().free().last()
                &&& h.generation == old(self).asset_map().slots()[h.index as int].generation
                &&& final(self).asset_map().free() == old(self).asset_map().free().drop_last()
                &&& final(self).asset_map().slots() == old(self).asset_map().slots().update(
                    h.index as int,
                    Slot { generation: h.generation, value: Some(value) },
                )
            },
            old(self).asset_map().free().len() == 0 ==> {
                &&& h.index == old(self).asset_map().slots().len()
                &&& h.generation == 0
                &&& final(self).asset_map().free() == old(self).asset_map().free()
                &&& final(self).asset_map().slots() == old(self).asset_map().slots().push(
                    Slot { generation: 0, value: Some(value) },
                )
            },
            final(self).asset_map().paths() == old(self).asset_map().paths().insert(path@, h.index),
            final(self).asset_map().slot_paths() == old(self).asset_map().slot_paths().insert(
                h.index,
                path@,
            ),
            final(self).asset_map().spec_get(h) == Some(value),
    {
        let h = self.assets.add(value, path);
        proof {
            assert(self.alive_set() =~= old(self).alive_set());
            assert forall|k: int| 0 <= k < self.entity_slots@.len() implies #[trigger] self.loc_ok(k) by {
                assert(old(self).loc_ok(k));
            }
            assert forall|x: int, q: int|
                0 <= x < self.archetypes@.len() && 0 <= q < self.archetypes@[x].ents().len()
                    implies #[trigger] self.row_ok(x, q) by {
                assert(old(self).row_ok(x, q));
            }
            assert(self.view() =~= old(self).view());
        }
        h
    }

    /// The asset `h` refers to, if it is still live.
    pub fn get_asset(&self, h: Handle<A>) -> (r: Option<&A>)
        requires
            self.wf(),
        ensures
            match r {
                Some(v) => self.asset_map().spec_get(h) == Some(*v),
                None => self.asset_map().spec_get(h) is None,
            },
    {
        self.assets.get(h)
    }

    /// Mutable access to the asset `h` refers to, if it is still live.
    pub fn get_asset_mut(&mut self, h: Handle<A>) -> (r: Option<&mut A>)
        requires
            old(self).wf(),
        ensures
            match r {
                Some(v) => {
                    &&& old(self).asset_map().spec_get(h) == Some(*v)
                    &&& final(self).asset_map().slots() == old(self).asset_map().slots().update(
                        h.index as int,
                        Slot { generation: h.generation, value: Some(*final(v)) },
                    )
                    &&& final(self).asset_map().free() == old(self).asset_map().free()
                    &&& final(self).asset_map().paths() == old(self).asset_map().paths()
                    &&& final(self).asset_map().slot_paths() == old(self).asset_map().slot_paths()
                    &&& final(self).asset_map().wf()
                    &&& Self::same_but_assets(*old(self), *final(self))
                },
                None => {
                    &&& old(self).asset_map().spec_get(h) is None
                    &&& *final(self) == *old(self)
                },
            },
    {
        self.assets.get_mut(h)
    }

    /// `b` is `a` with only its asset storage changed.
    pub closed spec fn same_but_assets(a: Self, b: Self) -> bool {
        &&& b.entity_slots == a.entity_slots
        &&& b.generations == a.generations
        &&& b.free_indices == a.free_indices
        &&& b.locations == a.locations
        &&& b.next_index == a.next_index
        &&& b.archetypes == a.archetypes
        &&& b.resource_map == a.resource_map
        &&& b.live_count == a.live_count
    }

    /// What a change of the asset storage alone leaves in place.
    pub proof fn lemma_same_but_assets(a: Self, b: Self)
        requires
            a.wf(),
            b.asset_map().wf(),
            Self::same_but_assets(a, b),
        ensures
            b.wf(),
            b.view() == a.view(),
            b.resources() == a.resources(),
            b.archs() == a.archs(),
            b.spawn_capacity() == a.spawn_capacity(),
    {
        assert(b.alive_set() =~= a.alive_set());
        assert forall|k: int| 0 <= k < b.entity_slots@.len() implies #[trigger] b.loc_ok(k) by {
            assert(a.loc_ok(k));
        }
        assert forall|x: int, q: int|
            0 <= x < b.archetypes@.len() && 0 <= q < b.archetypes@[x].ents().len()
                implies #[trigger] b.row_ok(x, q) by {
            assert(a.row_ok(x, q));
        }
        assert(b.view() =~= a.view());
    }

    /// Removes the asset `h` refers to.
    pub fn remove_asset(&mut self, h: Handle<A>) -> (r: Option<A>)
        requires
            old(self).wf(),
        ensures
            final(self).wf(),
            final(self).view() == old(self).view(),
            final(self).resources() == old(self).resources(),
            final(self).archs() == old(self).archs(),
            final(self).spawn_capacity() == old(self).spawn_capacity(),
            r == old(self).asset_map().spec_get(h),
            r is Some ==> {
                &&& final(self).asset_map().slots() == old(self).asset_map().slots().update(
                    h.index as int,
                    Slot { generation: crate::assets::storage::next_generation(h.generation), value: None },
                )
                &&& final(self).asset_map().free() == old(self).asset_map().free().push(h.index)
                &&& final(self).asset_map().slot_paths() == old(self).asset_map().slot_paths().remove(h.index)
                &&& final(self).asset_map().paths() == crate::assets::storage::forget_path(
                    old(self).asset_map().paths(),
                    old(self).asset_map().slot_paths()[h.index],
                    h.index,
                )
            },
            r is None ==> final(self).asset_map() == old(self).asset_map(),
    {
        let r = self.assets.remove(h);
        proof {
            Self::lemma_same_but_assets(*old(self), *self);
        }
        r
    }

    /// The asset registered under `path`.
    pub fn get_asset_by_path(&self, path: &str) -> (r: Option<&A>)
        requires
            self.wf(),
        ensures
            match r {
                Some(v) => self.asset_map().paths().contains_key(path@)
                    && self.asset_map().slots()[self.asset_map().paths()[path@] as int].value == Some(*v),
                None => !self.asset_map().paths().contains_key(path@),
            },
    {
        self.assets.get_by_path(path)
    }

    /// The handle of the asset registered under `path`.
    pub fn get_asset_handle(&self, path: &str) -> (r: Option<Handle<A>>)
        requires
            self.wf(),
        ensures
            r == (if self.asset_map().paths().contains_key(path@) {
                let i = self.asset_map().paths()[path@];
                Some(
                    Handle::<A> {
                        index: i,
                        generation: self.asset_map().slots()[i as int].generation,
                        _marker: std::marker::PhantomData,
                    },
                )
            } else {
                None::<Handle<A>>
            }),
    {
        self.assets.get_handle(path)
    }

    /// `b` is `a` with only its resources changed.
    pub closed spec fn same_but_resources(a: Self, b: Self) -> bool {
        &&& b.entity_slots == a.entity_slots
        &&& b.generations == a.generations
        &&& b.free_indices == a.free_indices
        &&& b.locations == a.locations
        &&& b.next_index == a.next_index
        &&& b.archetypes == a.archetypes
        &&& b.assets == a.assets
        &&& b.live_count == a.live_count
    }

    /// The resource storage.
    pub closed spec fn resource_store(&self) -> ResourceMap<R> {
        self.resource_map
    }

    /// What a change of the resources alone leaves in place.
    pub proof fn lemma_same_but_resources(a: Self, b: Self)
        requires
            a.wf(),
            b.resource_store().wf(),
            Self::same_but_resources(a, b),
        ensures
            b.wf(),
            b.view() == a.view(),
            b.resources() == b.resource_store().view(),
            b.asset_map() == a.asset_map(),
            b.archs() == a.archs(),
            b.spawn_capacity() == a.spawn_capacity(),
    {
        assert(b.alive_set() =~= a.alive_set());
        assert forall|k: int| 0 <= k < b.entity_slots@.len() implies #[trigger] b.loc_ok(k) by {
            assert(a.loc_ok(k));
        }
        assert forall|x: int, q: int|
            0 <= x < b.archetypes@.len() && 0 <= q < b.archetypes@[x].ents().len()
                implies #[trigger] b.row_ok(x, q) by {
            assert(a.row_ok(x, q));
        }
        assert(b.view() =~= a.view());
    }

    /// Stores `resource` as the resource of type `t`, replacing any previous one.
    pub fn add_resource(&mut self, t: ResourceTypeId, resource: R)
        requires
            old(self).wf(),
        ensures
            final(self).wf(),
            final(self).resources() == old(self).resources().insert(t, resource),
            final(self).view() == old(self).view(),
            final(self).asset_map() == old(self).asset_map(),
            final(self).archs() == old(self).archs(),
            final(self).spawn_capacity() == old(self).spawn_capacity(),
    {
        self.resource_map.insert(t, resource);
        proof {
            Self::lemma_same_but_resources(*old(self), *self);
        }
    }

    /// Removes the resource of type `t`, if present.
    pub fn remove_resource(&mut self, t: ResourceTypeId) -> (r: Option<R>)
        requires
            old(self).wf(),
        ensures
            final(self).wf(),
            final(self).resources() == old(self).resources().remove(t),
            r == (if old(self).resources().contains_key(t) {
                Some(old(self).resources()[t])
            } else {
                None::<R>
            }),
            final(self).view() == old(self).view(),
            final(self).asset_map() == old(self).asset_map(),
            final(self).archs() == old(self).archs(),
            final(self).spawn_capacity() == old(self).spawn_capacity(),
    {
        let r = self.resource_map.remove(t);
        proof {
            Self::lemma_same_but_resources(*old(self), *self);
        }
        r
    }

    /// Whether a resource of type `t` is present.
    pub fn has_resource(&self, t: ResourceTypeId) -> (r: bool)
        requires
            self.wf(),
        ensures
            r == self.resources().contains_key(t),
    {
        self.resource_map.contains(t)
    }

    /// The resource of type `t`.
    pub fn get_resource(&self, t: ResourceTypeId) -> (r: Result<&R, ResourceError>)
        requires
            self.wf(),
        ensures
            match r {
                Ok(v) => self.resources().contains_key(t) && self.resources()[t] == *v,
                Err(e) => !self.resources().contains_key(t) && e == ResourceError::Missing(t),
            },
    {
        self.resource_map.get(t)
    }

    /// Mutable access to the resource of type `t`. What the update amounts to is given by
    /// [`World::lemma_resource_written`].
    pub fn get_resource_mut(&mut self, t: ResourceTypeId) -> (r: Result<&mut R, ResourceError>)
        requires
            old(self).wf(),
        ensures
            match r {
                Ok(v) => {
                    &&& old(self).resources().contains_key(t)
                    &&& old(self).resources()[t] == *v
                    &&& ResourceMap::updated(old(self).resource_store(), final(self).resource_store(), t, *final(v))
                    &&& Self::same_but_resources(*old(self), *final(self))
                },
                Err(e) => {
                    &&& !old(self).resources().contains_key(t)
                    &&& e == ResourceError::Missing(t)
                    &&& *final(self) == *old(self)
                },
            },
    {
        self.resource_map.get_mut(t)
    }

    /// Writing a resource through [`World::get_resource_mut`] keeps the world well formed,
    /// replaces exactly that resource, and leaves entities, archetypes and assets alone.
    pub proof fn lemma_resource_written(a: Self, b: Self, t: ResourceTypeId, v: R)
        requires
            a.wf(),
            ResourceMap::updated(a.resource_store(), b.resource_store(), t, v),
            Self::same_but_resources(a, b),
        ensures
            b.wf(),
            b.resources() == a.resources().insert(t, v),
            b.view() == a.view(),
            b.asset_map() == a.asset_map(),
            b.archs() == a.archs(),
            b.spawn_capacity() == a.spawn_capacity(),
    {
        ResourceMap::lemma_updated(a.resource_store(), b.resource_store(), t, v);
        Self::lemma_same_but_resources(a, b);
    }

    /// The component types of a live entity, in increasing order.
    pub fn component_types(&self, e: Entity) -> (r: Option<&Vec<ComponentTypeId>>)
        requires
            self.wf(),
        ensures
            match r {
                Some(sig) => self.view().contains_key(e) && in_type_order(self.view()[e], sig@),
                None => !self.view().contains_key(e),
            },
    {
        if !self.contains(e) {
            return None;
        }
        proof {
            self.lemma_alive(e);
        }
        let loc = self.locations[e.index as usize].unwrap();
        let sig = self.archetypes[loc.archetype_id].signature();
        proof {
            self.archetypes@[loc.archetype_id as int].lemma_wf();
        }
        Some(sig)
    }

    /// Every row of every archetype holds a live entity whose component types are exactly the
    /// archetype's signature.
    pub proof fn lemma_archetype_row(&self, a: int, r: int)
        requires
            self.wf(),
            0 <= a < self.archs().len(),
            0 <= r < self.archs()[a].ents().len(),
        ensures
            self.view().contains_key(self.archs()[a].ents()[r]),
            in_type_order(self.view()[self.archs()[a].ents()[r]], self.archs()[a].sig()),
            self.location(self.archs()[a].ents()[r]) == (EntityLocation { archetype_id: a as usize, row: r as usize }),
    {
        assert(self.row_ok(a, r));
        assert(self.archetypes@[a].wf());
    }

    /// Every live entity is in exactly one archetype row: the one its location names.
    /// Each component of a live entity is stored under its own type.
    pub proof fn lemma_component_type(&self, e: Entity, t: ComponentTypeId)
        requires
            self.wf(),
            self.view().contains_key(e),
            self.view()[e].contains_key(t),
        ensures
            self.view()[e][t].spec_type_id() == t,
            self.view()[e][t] is Data ==> self.view()[e][t]->Data_0.type_id == t,
    {
        self.lemma_alive(e);
        let l = self.loc_of(e);
        let a = self.archetypes@[l.archetype_id as int];
        a.lemma_wf();
        let j = sig_index(a.sig(), t);
        assert(0 <= j < a.sig().len() && a.sig()[j] == t);
        assert(a.row(l.row as int)[j].spec_type_id() == a.sig()[j]);
    }

    pub proof fn lemma_entity_row(&self, e: Entity)
        requires
            self.wf(),
            self.view().contains_key(e),
        ensures
            self.location(e).archetype_id < self.archs().len(),
            self.location(e).row < self.archs()[self.location(e).archetype_id as int].ents().len(),
            self.archs()[self.location(e).archetype_id as int].ents()[self.location(e).row as int] == e,
            forall|a: int, r: int|
                0 <= a < self.archs().len() && 0 <= r < self.archs()[a].ents().len()
                    && self.archs()[a].ents()[r] == e ==> a == self.location(e).archetype_id
                    && r == self.location(e).row,
    {
        self.lemma_alive(e);
        assert forall|a: int, r: int|
            0 <= a < self.archs().len() && 0 <= r < self.archs()[a].ents().len()
                && self.archs()[a].ents()[r] == e implies a == self.location(e).archetype_id
                && r == self.location(e).row by {
            assert(self.row_ok(a, r));
        }
    }

    /// A slot holds at most one live entity, so there are no more live entities than slots.
    proof fn lemma_alive_bound(&self)
        requires
            self.alive_set().finite(),
        ensures
            self.alive_set().len() <= self.entity_slots@.len(),
    {
        let f = |e: Entity| e.index as int;
        let live = self.alive_set();
        let img = live.map(f);
        assert(vstd::relations::injective_on(f, live)) by {
            assert forall|x: Entity, y: Entity|
                live.contains(x) && live.contains(y) && #[trigger] f(x) == #[trigger] f(y) implies x == y by {}
        }
        vstd::set_lib::lemma_map_size(live, img, f);
        let range = vstd::set_lib::set_int_range(0, self.entity_slots@.len() as int);
        vstd::set_lib::lemma_int_range(0, self.entity_slots@.len() as int);
        assert(img.subset_of(range));
        vstd::set_lib::lemma_len_subset(img, range);
    }

    /// Claims the free slot `e.index` for `e`, growing the slot list up to it; it has no
    /// location yet.
    fn claim_slot(&mut self, e: Entity)
        requires
            old(self).wf(),
            e.index < u32::MAX,
            !(e.index < old(self).entity_slots@.len() && old(self).entity_slots@[e.index as int] is Some),
        ensures
            !old(self).is_alive(e),
            e.index < final(self).entity_slots@.len(),
            old(self).entity_slots@.len() <= final(self).entity_slots@.len(),
            final(self).locations@.len() == final(self).entity_slots@.len(),
            final(self).generations@.len() == final(self).entity_slots@.len(),
            final(self).generations@[e.index as int] == e.generation,
            forall|i: int|
                0 <= i < old(self).generations@.len() && i != e.index ==> #[trigger] final(self).generations@[i]
                    == old(self).generations@[i],
            forall|i: int|
                0 <= i < old(self).locations@.len() ==> #[trigger] final(self).locations@[i]
                    == old(self).locations@[i],
            final(self).locations@[e.index as int] is None,
            final(self).entity_slots@[e.index as int] == Some(e.generation),
            final(self).generations@.len() == final(self).entity_slots@.len(),
            final(self).generations@[e.index as int] == e.generation,
            forall|x: Entity| #[trigger] final(self).is_alive(x) == (old(self).is_alive(x) || x == e),
            forall|i: int|
                0 <= i < final(self).entity_slots@.len() && i != e.index ==> #[trigger] final(self).loc_ok(i),
            forall|a: int, r: int|
                0 <= a < final(self).archetypes@.len() && 0 <= r < final(self).archetypes@[a].ents().len()
                    ==> #[trigger] final(self).row_ok(a, r),
            final(self).entity_slots@.len() == final(self).next_index,
            final(self).archetypes == old(self).archetypes,
            final(self).resource_map == old(self).resource_map,
            final(self).assets == old(self).assets,
            final(self).live_count == old(self).live_count,
            final(self).spawn_capacity() <= old(self).spawn_capacity(),
            forall|i: int, j: int|
                0 <= i < final(self).free_indices@.len() && 0 <= j < final(self).free_indices@.len() && i != j
                    ==> final(self).free_indices@[i] != final(self).free_indices@[j],
            forall|i: int|
                0 <= i < final(self).free_indices@.len() ==> #[trigger] final(self).free_indices@[i]
                    < final(self).entity_slots@.len() && final(self).entity_slots@[final(self).free_indices@[i] as int] is None,
    {
        let idx = e.index;
        let ghost o = *old(self);
        // The slot leaves the free list, if it is on it.
        let mut k: usize = 0;
        while k < self.free_indices.len() && self.free_indices[k] != idx
            invariant
                *self == o,
                k <= self.free_indices@.len(),
                forall|j: int| 0 <= j < k ==> self.free_indices@[j] != idx,
            decreases self.free_indices@.len() - k,
        {
            k = k + 1;
        }
        if k < self.free_indices.len() {
            let ghost fl = self.free_indices@;
            self.free_indices.remove(k);
            proof {
                assert(self.free_indices@ == fl.remove(k as int));
                assert forall|a: int, b: int|
                    0 <= a < self.free_indices@.len() && 0 <= b < self.free_indices@.len() && a != b
                        implies self.free_indices@[a] != self.free_indices@[b] by {
                    let a2 = if a < k { a } else { a + 1 };
                    let b2 = if b < k { b } else { b + 1 };
                    assert(self.free_indices@[a] == fl[a2]);
                    assert(self.free_indices@[b] == fl[b2]);
                }
                assert forall|j: int| 0 <= j < self.free_indices@.len() implies self.free_indices@[j] != idx by {
                    let j2 = if j < k { j } else { j + 1 };
                    assert(self.free_indices@[j] == fl[j2]);
                    assert(fl[k as int] == idx);
                }
                assert forall|j: int| 0 <= j < self.free_indices@.len() implies #[trigger] self.free_indices@[j]
                    < self.entity_slots@.len() && self.entity_slots@[self.free_indices@[j] as int] is None by {
                    let j2 = if j < k { j } else { j + 1 };
                    assert(self.free_indices@[j] == fl[j2]);
                }
            }
        }
        let ghost o2 = *self;
        // The slot list grows up to the slot.
        while (self.entity_slots.len() as u64) <= (idx as u64)
            invariant
                o2.entity_slots@.len() <= self.entity_slots@.len(),
                self.entity_slots@.len() == o2.entity_slots@.len() || self.entity_slots@.len() <= idx + 1,
                self.entity_slots@.len() == self.locations@.len(),
                self.entity_slots@.len() == self.generations@.len(),
                o2.entity_slots@.len() == o2.generations@.len(),
                forall|i: int| 0 <= i < o2.entity_slots@.len() ==> self.entity_slots@[i] == o2.entity_slots@[i],
                forall|i: int| 0 <= i < o2.generations@.len() ==> self.generations@[i] == o2.generations@[i],
                forall|i: int| 0 <= i < o2.locations@.len() ==> self.locations@[i] == o2.locations@[i],
                forall|i: int| o2.entity_slots@.len() <= i < self.entity_slots@.len() ==> self.entity_slots@[i] is None
                    && self.locations@[i] is None,
                o2.entity_slots@.len() == o2.locations@.len(),
                self.free_indices == o2.free_indices,
                self.archetypes == o2.archetypes,
                self.resource_map == o2.resource_map,
                self.assets == o2.assets,
                self.live_count == o2.live_count,
                self.next_index == o2.next_index,
            decreases idx + 1 - self.entity_slots@.len(),
        {
            self.entity_slots.push(None);
            self.locations.push(None);
            self.generations.push(0);
        }
        if self.next_index <= idx {
            self.next_index = idx + 1;
        }
        self.entity_slots.set(idx as usize, Some(e.generation));
        self.generations.set(idx as usize, e.generation);
        proof {
            assert(!o.is_alive(e));
            if (idx as int) < o.entity_slots@.len() {
                assert(o.loc_ok(idx as int));
            }
            assert forall|x: Entity| #[trigger] self.is_alive(x) == (o.is_alive(x) || x == e) by {
                if x.index < o.entity_slots@.len() && x.index != idx {
                    assert(self.entity_slots@[x.index as int] == o.entity_slots@[x.index as int]);
                }
            }
            assert forall|i: int| 0 <= i < self.entity_slots@.len() && i != idx implies #[trigger] self.loc_ok(i) by {
                if i < o.entity_slots@.len() {
                    assert(o.loc_ok(i));
                }
            }
            assert forall|a: int, r: int|
                0 <= a < self.archetypes@.len() && 0 <= r < self.archetypes@[a].ents().len()
                    implies #[trigger] self.row_ok(a, r) by {
                assert(o.row_ok(a, r));
                let x = o.archetypes@[a].ents()[r];
                assert(x.index != idx);
            }
            assert forall|j: int| 0 <= j < self.free_indices@.len() implies #[trigger] self.free_indices@[j]
                < self.entity_slots@.len() && self.entity_slots@[self.free_indices@[j] as int] is None by {
                assert(o2.free_indices@[j] < o2.entity_slots@.len());
            }
            assert(self.spawn_capacity() <= o.spawn_capacity());
        }
    }

    /// Spawns `e`, an entity whose index was reserved earlier, with no components; nothing
    /// happens when its slot is in use.
    pub fn spawn_reserved(&mut self, e: Entity)
        requires
            old(self).wf(),
            e.index < u32::MAX,
        ensures
            final(self).wf(),
            final(self).view() == (if index_in_use(old(self).view(), e.index) {
                old(self).view()
            } else {
                old(self).view().insert(e, Map::empty())
            }),
            final(self).spawn_capacity() <= old(self).spawn_capacity(),
            final(self).resources() == old(self).resources(),
            final(self).asset_map() == old(self).asset_map(),
            final(self).archs().len() == old(self).archs().len(),
    {
        let i = e.index as usize;
        if i < self.entity_slots.len() && self.entity_slots[i].is_some() {
            proof {
                let g = self.entity_slots@[i as int].unwrap();
                assert(self.is_alive(Entity { index: e.index, generation: g }));
                assert(old(self).view().contains_key(Entity { index: e.index, generation: g }));
            }
            return;
        }
        proof {
            assert forall|g: u32| !old(self).view().contains_key(Entity { index: e.index, generation: g }) by {}
        }
        self.claim_slot(e);
        let ghost w1 = *self;
        let row = self.archetypes[0].len();
        self.archetypes[0].push_row(e, Vec::new());
        self.locations.set(i, Some(EntityLocation { archetype_id: 0, row }));
        proof {
            assert forall|x: Entity| #[trigger] self.alive_set().contains(x) == old(self).alive_set().insert(e).contains(x) by {
                assert(w1.is_alive(x) == (old(self).is_alive(x) || x == e));
            }
            assert(self.alive_set() =~= old(self).alive_set().insert(e));
            assert(!old(self).alive_set().contains(e));
            assert(self.alive_set().finite());
            assert(self.alive_set().len() == old(self).alive_set().len() + 1);
            self.lemma_alive_bound();
        }
        self.live_count = self.live_count + 1;
        proof {
            self.lemma_after_spawn(w1, e, row);
            assert(self.alive_set() =~= old(self).alive_set().insert(e));
            assert forall|x: Entity| #[trigger] old(self).view().contains_key(x) && x != e implies
                self.view()[x] == old(self).view()[x] by {
                assert(w1.is_alive(x));
                assert(w1.locations@[x.index as int] == old(self).locations@[x.index as int]);
                assert(w1.components(x) == old(self).components(x));
            }
            assert(self.view() =~= old(self).view().insert(e, Map::empty()));
            assert forall|a: int, b: int| 0 <= a < self.archetypes@.len() && 0 <= b < self.archetypes@.len() && a != b
                implies self.archetypes@[a].sig() != self.archetypes@[b].sig() by {
                assert(self.archetypes@[a].sig() == old(self).archetypes@[a].sig());
                assert(self.archetypes@[b].sig() == old(self).archetypes@[b].sig());
            }
        }
    }

    /// The next entity index the world would hand out.
    pub fn entity_counter(&self) -> (r: u32)
        ensures
            r == self.counter(),
    {
        self.next_index
    }

    /// The next entity index the world would hand out.
    pub closed spec fn counter(&self) -> u32 {
        self.next_index
    }

    /// Reserves a slot for a new entity; it has no location yet.
    fn allocate_entity(&mut self) -> (e: Entity)
        requires
            old(self).wf(),
            old(self).spawn_capacity() > 0,
        ensures
            !old(self).is_alive(e),
            e == old(self).next_spawned(),
            final(self).free_indices@ == (if old(self).free_indices@.len() > 0 {
                old(self).free_indices@.drop_last()
            } else {
                old(self).free_indices@
            }),
            e.index < final(self).entity_slots@.len(),
            old(self).entity_slots@.len() <= final(self).entity_slots@.len(),
            final(self).entity_slots@ == old(self).entity_slots@.update(e.index as int, Some(e.generation))
                || (e.index == old(self).entity_slots@.len() && final(self).entity_slots@
                == old(self).entity_slots@.push(Some(e.generation))),
            final(self).locations@.len() == final(self).entity_slots@.len(),
            final(self).generations@.len() == final(self).entity_slots@.len(),
            final(self).generations@[e.index as int] == e.generation,
            forall|i: int|
                0 <= i < old(self).generations@.len() && i != e.index ==> #[trigger] final(self).generations@[i]
                    == old(self).generations@[i],
            forall|i: int|
                0 <= i < old(self).locations@.len() ==> #[trigger] final(self).locations@[i]
                    == old(self).locations@[i],
            final(self).locations@[e.index as int] is None,
            final(self).entity_slots@[e.index as int] == Some(e.generation),
            forall|x: Entity| #[trigger] final(self).is_alive(x) == (old(self).is_alive(x) || x == e),
            forall|i: int|
                0 <= i < final(self).entity_slots@.len() && i != e.index ==> #[trigger] final(self).loc_ok(i),
            forall|a: int, r: int|
                0 <= a < final(self).archetypes@.len() && 0 <= r < final(self).archetypes@[a].ents().len()
                    ==> #[trigger] final(self).row_ok(a, r),
            final(self).entity_slots@.len() == final(self).next_index,
            final(self).archetypes == old(self).archetypes,
            final(self).resource_map == old(self).resource_map,
            final(self).assets == old(self).assets,
            final(self).live_count == old(self).live_count,
            final(self).spawn_capacity() == old(self).spawn_capacity() - 1,
            forall|i: int, j: int|
                0 <= i < final(self).free_indices@.len() && 0 <= j < final(self).free_indices@.len() && i != j
                    ==> final(self).free_indices@[i] != final(self).free_indices@[j],
            forall|i: int|
                0 <= i < final(self).free_indices@.len() ==> #[trigger] final(self).free_indices@[i]
                    < final(self).entity_slots@.len() && final(self).entity_slots@[final(self).free_indices@[i] as int] is None,
    {
        if self.free_indices.len() > 0 {
            let index = self.free_indices.pop().unwrap();
            proof {
                assert(old(self).free_indices@[old(self).free_indices@.len() - 1] == index);
            }
            proof {
                assert(old(self).loc_ok(index as int));
            }
            let last = self.generations[index as usize];
            let generation = if last == u32::MAX { 0 } else { last + 1 };
            self.entity_slots.set(index as usize, Some(generation));
            self.generations.set(index as usize, generation);
            proof {
                let o = old(self);
                assert forall|i: int| 0 <= i < self.entity_slots@.len() && i != index implies #[trigger] self.loc_ok(i) by {
                    assert(o.loc_ok(i));
                }
                assert forall|a: int, r: int|
                    0 <= a < self.archetypes@.len() && 0 <= r < self.archetypes@[a].ents().len()
                        implies #[trigger] self.row_ok(a, r) by {
                    assert(o.row_ok(a, r));
                }
                assert forall|i: int| 0 <= i < self.free_indices@.len() implies #[trigger] self.free_indices@[i]
                    < self.entity_slots@.len() && self.entity_slots@[self.free_indices@[i] as int]
                    is None by {
                    assert(self.free_indices@[i] == o.free_indices@[i]);
                    assert(o.free_indices@[i] != index);
                }
            }
            Entity { index, generation }
        } else {
            let index = self.next_index;
            self.next_index = self.next_index + 1;
            if index as usize >= self.entity_slots.len() {
                self.entity_slots.push(None);
                self.locations.push(None);
                self.generations.push(0);
            }
            self.entity_slots.set(index as usize, Some(0));
            self.generations.set(index as usize, 0);
            proof {
                let o = old(self);
                assert(self.entity_slots@ =~= old(self).entity_slots@.push(Some(0u32)));
                assert forall|i: int| 0 <= i < self.entity_slots@.len() && i != index implies #[trigger] self.loc_ok(i) by {
                    assert(o.loc_ok(i));
                }
                assert forall|a: int, r: int|
                    0 <= a < self.archetypes@.len() && 0 <= r < self.archetypes@[a].ents().len()
                        implies #[trigger] self.row_ok(a, r) by {
                    assert(o.row_ok(a, r));
                }
                assert forall|i: int| 0 <= i < self.free_indices@.len() implies #[trigger] self.free_indices@[i]
                    < self.entity_slots@.len() && self.entity_slots@[self.free_indices@[i] as int]
                    is None by {
                }
            }
            Entity { index, generation: 0 }
        }
    }

    proof fn lemma_after_spawn(&self, w1: Self, e: Entity, row: usize)
        requires
            w1.entity_slots@.len() == w1.locations@.len(),
            w1.entity_slots@.len() == w1.next_index,
            e.index < w1.entity_slots@.len(),
            w1.entity_slots@[e.index as int] == Some(e.generation),
            w1.generations@.len() == w1.entity_slots@.len(),
            w1.generations@[e.index as int] == e.generation,
            w1.locations@[e.index as int] is None,
            forall|i: int|
                0 <= i < w1.entity_slots@.len() && i != e.index ==> #[trigger] w1.loc_ok(i),
            forall|a: int, r: int|
                0 <= a < w1.archetypes@.len() && 0 <= r < w1.archetypes@[a].ents().len()
                    ==> #[trigger] w1.row_ok(a, r),
            forall|a: int| 0 <= a < w1.archetypes@.len() ==> #[trigger] w1.archetypes@[a].wf(),
            w1.archetypes@.len() >= 1,
            w1.archetypes@[0].sig().len() == 0,
            row == w1.archetypes@[0].ents().len(),
            self.entity_slots == w1.entity_slots,
            self.generations == w1.generations,
            self.next_index == w1.next_index,
            self.free_indices == w1.free_indices,
            self.resource_map == w1.resource_map,
            self.assets == w1.assets,
            self.locations@ == w1.locations@.update(
                e.index as int,
                Some(EntityLocation { archetype_id: 0, row }),
            ),
            self.archetypes@.len() == w1.archetypes@.len(),
            forall|a: int|
                1 <= a < self.archetypes@.len() ==> #[trigger] self.archetypes@[a]
                    == w1.archetypes@[a],
            self.archetypes@[0].wf(),
            self.archetypes@[0].sig() == w1.archetypes@[0].sig(),
            self.archetypes@[0].ents() == w1.archetypes@[0].ents().push(e),
            forall|r: int|
                0 <= r < row ==> #[trigger] self.archetypes@[0].row(r) == w1.archetypes@[0].row(
                    r,
                ),
            self.archetypes@[0].row(row as int) == Seq::<Component<A>>::empty(),
        ensures
            forall|i: int| 0 <= i < self.entity_slots@.len() ==> #[trigger] self.loc_ok(i),
            forall|a: int, r: int|
                0 <= a < self.archetypes@.len() && 0 <= r < self.archetypes@[a].ents().len()
                    ==> #[trigger] self.row_ok(a, r),
            forall|a: int| 0 <= a < self.archetypes@.len() ==> #[trigger] self.archetypes@[a].wf(),
            self.alive_set() == w1.alive_set().insert(e),
            forall|x: Entity| #[trigger]
                w1.is_alive(x) && x != e ==> self.components(x) == w1.components(x),
            self.components(e) == Map::<ComponentTypeId, Component<A>>::empty(),
    {
        assert forall|i: int| 0 <= i < self.entity_slots@.len() implies #[trigger] self.loc_ok(i) by {
            if i != e.index {
                assert(w1.loc_ok(i));
                if w1.entity_slots@[i] is Some {
                    let l = w1.locations@[i].unwrap();
                    if l.archetype_id == 0 {
                        assert(self.archetypes@[0].ents()[l.row as int] == w1.archetypes@[0].ents()[l.row as int]);
                    }
                }
            }
        }
        assert forall|a: int, r: int|
            0 <= a < self.archetypes@.len() && 0 <= r < self.archetypes@[a].ents().len() implies #[trigger] self.row_ok(a, r) by {
            if a == 0 && r == row {
            } else {
                if a == 0 {
                    assert(self.archetypes@[0].ents()[r] == w1.archetypes@[0].ents()[r]);
                }
                assert(w1.row_ok(a, r));
                let x = w1.archetypes@[a].ents()[r];
                assert(x.index != e.index);
            }
        }
        assert forall|a: int| 0 <= a < self.archetypes@.len() implies #[trigger] self.archetypes@[a].wf() by {
            if a != 0 {
                assert(self.archetypes@[a] == w1.archetypes@[a]);
            }
        }
        assert(self.alive_set() =~= w1.alive_set().insert(e));
        assert forall|x: Entity| #[trigger] w1.is_alive(x) && x != e implies self.components(x)
            == w1.components(x) by {
            assert(w1.loc_ok(x.index as int));
            let l = w1.locations@[x.index as int].unwrap();
            assert(x.index != e.index);
            if l.archetype_id == 0 {
                assert(self.archetypes@[0].row(l.row as int) == w1.archetypes@[0].row(l.row as int));
            } else {
                assert(self.archetypes@[l.archetype_id as int] == w1.archetypes@[l.archetype_id as int]);
            }
        }
        assert(self.components(e) =~= Map::<ComponentTypeId, Component<A>>::empty()) by {
            assert(self.loc_of(e) == EntityLocation { archetype_id: 0, row });
            assert forall|t: ComponentTypeId| !self.archetypes@[0].sig().contains(t) by {}
        }
    }
}

/// Adding a component to a live entity and then reading its type gives the component back;
/// the entity's other components and every other entity are unchanged.
pub proof fn lemma_get_after_add<A, R>(
    before: World<A, R>,
    after: World<A, R>,
    e: Entity,
    c: Component<A>,
)
    requires
        before.view().contains_key(e),
        after.view() == (if before.view().contains_key(e) {
            before.view().insert(e, before.view()[e].insert(c.spec_type_id(), c))
        } else {
            before.view()
        }),
    ensures
        after.view().contains_key(e),
        after.view()[e].contains_key(c.spec_type_id()),
        after.view()[e][c.spec_type_id()] == c,
        forall|t: ComponentTypeId|
            t != c.spec_type_id() ==> (#[trigger] after.view()[e].contains_key(t)
                == before.view()[e].contains_key(t)) && (after.view()[e].contains_key(t)
                ==> after.view()[e][t] == before.view()[e][t]),
        forall|x: Entity|
            x != e ==> (#[trigger] after.view().contains_key(x) == before.view().contains_key(x))
                && (after.view().contains_key(x) ==> after.view()[x] == before.view()[x]),
{
}

/// Removing a type just added to a live entity gives the added component back and leaves
/// the entity with its other components.
pub proof fn lemma_remove_after_add<A, R>(
    w0: World<A, R>,
    w1: World<A, R>,
    w2: World<A, R>,
    e: Entity,
    c: Component<A>,
    removed: Option<Component<A>>,
)
    requires
        w0.view().contains_key(e),
        w1.view() == (if w0.view().contains_key(e) {
            w0.view().insert(e, w0.view()[e].insert(c.spec_type_id(), c))
        } else {
            w0.view()
        }),
        removed == (if w1.view().contains_key(e) && w1.view()[e].contains_key(c.spec_type_id()) {
            Some(w1.view()[e][c.spec_type_id()])
        } else {
            None::<Component<A>>
        }),
        w2.view() == (if w1.view().contains_key(e) {
            w1.view().insert(e, w1.view()[e].remove(c.spec_type_id()))
        } else {
            w1.view()
        }),
    ensures
        removed == Some(c),
        w2.view()[e] == w0.view()[e].remove(c.spec_type_id()),
{
    assert(w2.view()[e] =~= w0.view()[e].remove(c.spec_type_id()));
}

/// A despawned entity is gone and every other entity keeps its components.
pub proof fn lemma_despawned_is_gone<A, R>(before: World<A, R>, after: World<A, R>, e: Entity)
    requires
        after.view() == before.view().remove(e),
    ensures
        !after.view().contains_key(e),
        forall|x: Entity|
            x != e ==> (#[trigger] after.view().contains_key(x) == before.view().contains_key(x))
                && (after.view().contains_key(x) ==> after.view()[x] == before.view()[x]),
{
}

/// A slot freed by a despawn is reused by the next spawn under a new generation, the one
/// after the despawned entity's, so the new entity differs from the despawned one.
pub proof fn lemma_respawn_reuses_slot<A, R>(
    before: World<A, R>,
    after: World<A, R>,
    e: Entity,
)
    requires
        before.view().contains_key(e),
        after.free_slots() == before.free_slots().push(e.index),
        after.slot_generation(e.index) == e.generation,
    ensures
        after.next_spawned() == (Entity { index: e.index, generation: next_generation(e.generation) }),
        after.next_spawned() != e,
{
}

/// After re-parenting a live child under a live parent, the child names that parent and
/// is the last entry of the parent's children list.
pub proof fn lemma_set_parent_links<A>(
    v: Map<Entity, Map<ComponentTypeId, Component<A>>>,
    v1: Map<Entity, Map<ComponentTypeId, Component<A>>>,
    v2: Map<Entity, Map<ComponentTypeId, Component<A>>>,
    child: Entity,
    parent: Entity,
)
    requires
        v.contains_key(child),
        v.contains_key(parent),
        detached(v, v1, child),
        attached(v1, v2, child, Some(parent)),
    ensures
        v2.contains_key(child),
        parent_in(v2[child]) == Some(parent),
        v2.contains_key(parent),
        children_in(v2[parent]) is Some,
        children_in(v2[parent]).unwrap().last() == child,
{
    let va = update_entity(v1, child, PARENT_TYPE_ID, Component::Parent(Parent(parent)));
    assert(v1.contains_key(child) && v1.contains_key(parent));
    assert(va.contains_key(parent));
    if child == parent {
        assert(va[parent].remove(CHILDREN_TYPE_ID).contains_key(PARENT_TYPE_ID));
        assert(v2[parent].remove(CHILDREN_TYPE_ID) == va[parent].remove(CHILDREN_TYPE_ID));
        assert(v2[parent].remove(CHILDREN_TYPE_ID)[PARENT_TYPE_ID] == va[parent][PARENT_TYPE_ID]);
        assert(v2[parent].contains_key(PARENT_TYPE_ID));
        assert(v2[parent][PARENT_TYPE_ID] == va[parent][PARENT_TYPE_ID]);
    } else {
        assert(v2[child] == va[child]);
    }
}

/// Parent and children agree: a live entity lists a live `c` among its children exactly
/// when `c` names it as parent, and no children list holds an entity twice.
pub open spec fn hierarchy_consistent<A>(v: Map<Entity, Map<ComponentTypeId, Component<A>>>) -> bool {
    &&& forall|c: Entity, q: Entity|
        #![trigger parent_in(v[c]), children_in(v[q])]
        v.contains_key(c) && v.contains_key(q) ==> ((children_in(v[q]) is Some
            && children_in(v[q]).unwrap().contains(c)) <==> parent_in(v[c]) == Some(q))
    &&& forall|q: Entity|
        #![trigger children_in(v[q])]
        v.contains_key(q) && children_in(v[q]) is Some ==> children_in(v[q]).unwrap().no_duplicates()
}

/// The children lists and parents after a re-parenting, entity by entity.
proof fn lemma_reparent_effect<A>(
    v: Map<Entity, Map<ComponentTypeId, Component<A>>>,
    v1: Map<Entity, Map<ComponentTypeId, Component<A>>>,
    v2: Map<Entity, Map<ComponentTypeId, Component<A>>>,
    child: Entity,
    new_parent: Option<Entity>,
    x: Entity,
)
    requires
        v.contains_key(child),
        new_parent matches Some(p) ==> v.contains_key(p) && p != child,
        detached(v, v1, child),
        attached(v1, v2, child, new_parent),
    ensures
        v2.contains_key(x) == v.contains_key(x),
        v.contains_key(x) ==> parent_in(v2[x]) == (if x == child {
            new_parent
        } else {
            parent_in(v[x])
        }),
        v.contains_key(x) ==> children_in(v2[x]) == ({
            let c1 = if parent_in(v[child]) is Some && v.contains_key(parent_in(v[child]).unwrap())
                && children_in(v[parent_in(v[child]).unwrap()]) is Some && x == parent_in(v[child]).unwrap() {
                Some(without(children_in(v[x]).unwrap(), child))
            } else {
                children_in(v[x])
            };
            match new_parent {
                Some(p) => if x == p {
                    match c1 {
                        Some(cs) => Some(cs.push(child)),
                        None => Some(seq![child]),
                    }
                } else {
                    c1
                },
                None => c1,
            }
        }),
{
    assert(PARENT_TYPE_ID != CHILDREN_TYPE_ID);
    // After the first step.
    let has_op = parent_in(v[child]) is Some && v.contains_key(parent_in(v[child]).unwrap())
        && children_in(v[parent_in(v[child]).unwrap()]) is Some;
    assert(v1.contains_key(x) == v.contains_key(x));
    assert(v.contains_key(x) ==> parent_in(v1[x]) == parent_in(v[x])) by {
        if has_op && v.contains_key(x) && x == parent_in(v[child]).unwrap() {
            let m1 = v[x];
            let m2 = v1[x];
            assert(m2.remove(CHILDREN_TYPE_ID).contains_key(PARENT_TYPE_ID) == m1.remove(CHILDREN_TYPE_ID).contains_key(PARENT_TYPE_ID));
            if m1.contains_key(PARENT_TYPE_ID) {
                assert(m2.remove(CHILDREN_TYPE_ID)[PARENT_TYPE_ID] == m1.remove(CHILDREN_TYPE_ID)[PARENT_TYPE_ID]);
            }
        }
    }
    match new_parent {
        Some(p) => {
            let va = update_entity(v1, child, PARENT_TYPE_ID, Component::Parent(Parent(p)));
            assert(va.contains_key(p));
            if v.contains_key(x) && x != p {
                assert(v2[x] == va[x]);
            }
            if v.contains_key(x) && x == p {
                let m1 = va[x];
                let m2 = v2[x];
                assert(m2.remove(CHILDREN_TYPE_ID).contains_key(PARENT_TYPE_ID) == m1.remove(CHILDREN_TYPE_ID).contains_key(PARENT_TYPE_ID));
                if m1.contains_key(PARENT_TYPE_ID) {
                    assert(m2.remove(CHILDREN_TYPE_ID)[PARENT_TYPE_ID] == m1.remove(CHILDREN_TYPE_ID)[PARENT_TYPE_ID]);
                }
                assert(va[x] == v1[x]);
            }
            if v.contains_key(x) && x == child {
                assert(va[x] == v1[x].insert(PARENT_TYPE_ID, Component::Parent(Parent(p))));
                assert(va[x].insert(PARENT_TYPE_ID, Component::Parent(Parent(p))).contains_key(CHILDREN_TYPE_ID)
                    == v1[x].contains_key(CHILDREN_TYPE_ID));
            }
        },
        None => {
            if v.contains_key(x) && x == child {
                assert(v2[x] == v1[x].remove(PARENT_TYPE_ID));
                assert(v1[x].remove(PARENT_TYPE_ID).contains_key(CHILDREN_TYPE_ID) == v1[x].contains_key(CHILDREN_TYPE_ID));
            }
        },
    }
}

/// What dropping `x` from a list keeps.
proof fn lemma_without_facts(s: Seq<Entity>, x: Entity)
    ensures
        forall|z: Entity| #[trigger] without(s, x).contains(z) <==> (s.contains(z) && z != x),
        s.no_duplicates() ==> without(s, x).no_duplicates(),
    decreases s.len(),
{
    reveal_with_fuel(Seq::filter, 1);
    if s.len() == 0 {
        assert(without(s, x) =~= Seq::<Entity>::empty());
    } else {
        let s0 = s.drop_last();
        let a = s.last();
        lemma_without_facts(s0, x);
        let w = without(s0, x);
        assert(without(s, x) == (if a != x { w.push(a) } else { w }));
        assert forall|z: Entity| #[trigger] without(s, x).contains(z) <==> (s.contains(z) && z != x) by {
            if s.contains(z) && z != x {
                let i = choose|i: int| 0 <= i < s.len() && s[i] == z;
                if i < s0.len() {
                    assert(s0[i] == z);
                    assert(w.contains(z));
                    if a != x {
                        let k = choose|k: int| 0 <= k < w.len() && w[k] == z;
                        assert(w.push(a)[k] == z);
                    }
                } else {
                    assert(w.push(a)[w.len() as int] == z);
                }
            }
            if without(s, x).contains(z) {
                if a != x && z == a {
                    assert(s[s.len() - 1] == z);
                } else {
                    if a != x {
                        let k = choose|k: int| 0 <= k < w.push(a).len() && w.push(a)[k] == z;
                        assert(k < w.len());
                        assert(w[k] == z);
                    }
                    assert(w.contains(z));
                    let i = choose|i: int| 0 <= i < s0.len() && s0[i] == z;
                    assert(s[i] == z);
                }
            }
        }
        if s.no_duplicates() {
            assert(s0.no_duplicates()) by {
                assert forall|i: int, j: int| 0 <= i < s0.len() && 0 <= j < s0.len() && i != j implies s0[i] != s0[j] by {
                    assert(s0[i] == s[i] && s0[j] == s[j]);
                }
            }
            if a != x {
                assert(!w.contains(a)) by {
                    if w.contains(a) {
                        let i = choose|i: int| 0 <= i < s0.len() && s0[i] == a;
                        assert(s[i] == s[s.len() - 1]);
                    }
                }
                assert forall|i: int, j: int|
                    0 <= i < w.push(a).len() && 0 <= j < w.push(a).len() && i != j implies w.push(a)[i] != w.push(a)[j] by {
                    if i < w.len() && j < w.len() {
                    } else if i < w.len() {
                        assert(w.contains(w[i]));
                    } else {
                        assert(w.contains(w[j]));
                    }
                }
            }
        }
    }
}

/// Re-parenting a live child under a live parent other than itself, or detaching it, keeps
/// parents and children lists in agreement.
pub proof fn lemma_set_parent_keeps_hierarchy<A>(
    v: Map<Entity, Map<ComponentTypeId, Component<A>>>,
    v1: Map<Entity, Map<ComponentTypeId, Component<A>>>,
    v2: Map<Entity, Map<ComponentTypeId, Component<A>>>,
    child: Entity,
    new_parent: Option<Entity>,
)
    requires
        hierarchy_consistent(v),
        v.contains_key(child),
        new_parent matches Some(p) ==> v.contains_key(p) && p != child,
        detached(v, v1, child),
        attached(v1, v2, child, new_parent),
    ensures
        hierarchy_consistent(v2),
{
    broadcast use vstd::seq_lib::group_seq_properties;

    lemma_reparent_effect(v, v1, v2, child, new_parent, child);
    assert forall|c: Entity, q: Entity|
        #![trigger parent_in(v2[c]), children_in(v2[q])]
        v2.contains_key(c) && v2.contains_key(q) implies ((children_in(v2[q]) is Some
            && children_in(v2[q]).unwrap().contains(c)) <==> parent_in(v2[c]) == Some(q)) by {
        lemma_reparent_effect(v, v1, v2, child, new_parent, c);
        lemma_reparent_effect(v, v1, v2, child, new_parent, q);
        assert((children_in(v[q]) is Some && children_in(v[q]).unwrap().contains(c)) <==> parent_in(v[c]) == Some(q));
        assert((children_in(v[q]) is Some && children_in(v[q]).unwrap().contains(child)) <==> parent_in(v[child]) == Some(q));
        if children_in(v[q]) is Some {
            lemma_without_facts(children_in(v[q]).unwrap(), child);
        }
    }
    assert forall|q: Entity|
        #![trigger children_in(v2[q])]
        v2.contains_key(q) && children_in(v2[q]) is Some implies children_in(v2[q]).unwrap().no_duplicates() by {
        lemma_reparent_effect(v, v1, v2, child, new_parent, q);
        assert((children_in(v[q]) is Some && children_in(v[q]).unwrap().contains(child)) <==> parent_in(v[child]) == Some(q));
        if children_in(v[q]) is Some {
            assert(children_in(v[q]).unwrap().no_duplicates());
            lemma_without_facts(children_in(v[q]).unwrap(), child);
        }
        match new_parent {
            Some(p) => {
                if q == p {
                    let c1 = children_in(v2[q]).unwrap().drop_last();
                    assert(children_in(v2[q]).unwrap() =~= c1.push(child));
                    assert(!c1.contains(child));
                    assert forall|i: int, j: int|
                        0 <= i < c1.push(child).len() && 0 <= j < c1.push(child).len() && i != j
                            implies c1.push(child)[i] != c1.push(child)[j] by {
                        if i < c1.len() && j < c1.len() {
                        } else if i < c1.len() {
                            assert(c1.contains(c1[i]));
                        } else {
                            assert(c1.contains(c1[j]));
                        }
                    }
                }
            },
            None => {},
        }
    }
}

/// Re-parenting a child away from its parent takes it off that parent's children list.
pub proof fn lemma_set_parent_detaches<A>(
    v: Map<Entity, Map<ComponentTypeId, Component<A>>>,
    v1: Map<Entity, Map<ComponentTypeId, Component<A>>>,
    v2: Map<Entity, Map<ComponentTypeId, Component<A>>>,
    child: Entity,
    new_parent: Option<Entity>,
    old_parent: Entity,
)
    requires
        v.contains_key(child),
        v.contains_key(old_parent),
        parent_in(v[child]) == Some(old_parent),
        children_in(v[old_parent]) is Some,
        old_parent != child,
        new_parent != Some(old_parent),
        detached(v, v1, child),
        attached(v1, v2, child, new_parent),
    ensures
        v2.contains_key(old_parent),
        children_in(v2[old_parent]) == Some(without(children_in(v[old_parent]).unwrap(), child)),
        !children_in(v2[old_parent]).unwrap().contains(child),
{
    let kept = without(children_in(v[old_parent]).unwrap(), child);
    assert(children_in(v1[old_parent]) == Some(kept));
    match new_parent {
        Some(p) => {
            let va = update_entity(v1, child, PARENT_TYPE_ID, Component::Parent(Parent(p)));
            assert(va[old_parent] == v1[old_parent]);
            assert(v2[old_parent] == va[old_parent]);
        },
        None => {
            assert(v2[old_parent] == v1[old_parent]);
        },
    }
    if kept.contains(child) {
        let k = choose|k: int| 0 <= k < kept.len() && kept[k] == child;
        children_in(v[old_parent]).unwrap().lemma_filter_pred(|y: Entity| y != child, k);
    }
}

/// The number of rows over a list of archetypes.
pub open spec fn total_rows<A>(archs: Seq<Archetype<A>>) -> nat
    decreases archs.len(),
{
    if archs.len() == 0 {
        0
    } else {
        total_rows(archs.drop_last()) + archs.last().ents().len()
    }
}

/// Adding a resource and then reading its type gives it back; other resources are unchanged.
pub proof fn lemma_resource_read_after_add<A, R>(
    before: World<A, R>,
    after: World<A, R>,
    t: u64,
    resource: R,
)
    requires
        after.resources() == before.resources().insert(t, resource),
    ensures
        after.resources().contains_key(t),
        after.resources()[t] == resource,
        forall|u: u64|
            u != t ==> (#[trigger] after.resources().contains_key(u) == before.resources().contains_key(u))
                && (after.resources().contains_key(u) ==> after.resources()[u] == before.resources()[u]),
{
}

} // verus!
