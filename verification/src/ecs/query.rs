use vstd::prelude::*;

use crate::ecs::component::ComponentTypeId;
use crate::ecs::world::{Archetype, World};
use crate::entity::Entity;

verus! {

/// Filter term: only match entities that have a component of this type.
#[derive(Clone, Copy, Debug, PartialEq, Eq, Structural)]
pub struct With(pub ComponentTypeId);

/// Filter term: only match entities that lack a component of this type.
#[derive(Clone, Copy, Debug, PartialEq, Eq, Structural)]
pub struct Without(pub ComponentTypeId);

/// Restricts which archetypes a query matches, without fetching any data itself.
pub struct QueryFilter {
    with: Vec<ComponentTypeId>,
    without: Vec<ComponentTypeId>,
}

/// `sig` has every type of `needed`.
pub open spec fn has_all(sig: Seq<ComponentTypeId>, needed: Seq<ComponentTypeId>) -> bool {
    forall|k: int| 0 <= k < needed.len() ==> sig.contains(#[trigger] needed[k])
}

/// `sig` has no type of `excluded`.
pub open spec fn has_none(sig: Seq<ComponentTypeId>, excluded: Seq<ComponentTypeId>) -> bool {
    forall|k: int| 0 <= k < excluded.len() ==> !sig.contains(#[trigger] excluded[k])
}

fn contains_type(sig: &Vec<ComponentTypeId>, t: ComponentTypeId) -> (r: bool)
    ensures
        r == sig@.contains(t),
{
    let mut i: usize = 0;
    while i < sig.len()
        invariant
            i <= sig@.len(),
            forall|k: int| 0 <= k < i ==> sig@[k] != t,
        decreases sig@.len() - i,
    {
        if sig[i] == t {
            return true;
        }
        i = i + 1;
    }
    false
}

fn contains_all(sig: &Vec<ComponentTypeId>, needed: &Vec<ComponentTypeId>) -> (r: bool)
    ensures
        r == has_all(sig@, needed@),
{
    let mut i: usize = 0;
    while i < needed.len()
        invariant
            i <= needed@.len(),
            forall|k: int| 0 <= k < i ==> sig@.contains(#[trigger] needed@[k]),
        decreases needed@.len() - i,
    {
        if !contains_type(sig, needed[i]) {
            return false;
        }
        i = i + 1;
    }
    true
}

fn contains_none(sig: &Vec<ComponentTypeId>, excluded: &Vec<ComponentTypeId>) -> (r: bool)
    ensures
        r == has_none(sig@, excluded@),
{
    let mut i: usize = 0;
    while i < excluded.len()
        invariant
            i <= excluded@.len(),
            forall|k: int| 0 <= k < i ==> !sig@.contains(#[trigger] excluded@[k]),
        decreases excluded@.len() - i,
    {
        if contains_type(sig, excluded[i]) {
            return false;
        }
        i = i + 1;
    }
    true
}

impl QueryFilter {
    /// Types an entity must have.
    pub closed spec fn with_types(&self) -> Seq<ComponentTypeId> {
        self.with@
    }

    /// Types an entity must lack.
    pub closed spec fn without_types(&self) -> Seq<ComponentTypeId> {
        self.without@
    }

    /// Whether an archetype with signature `sig` passes the filter.
    pub open spec fn accepts(&self, sig: Seq<ComponentTypeId>) -> bool {
        has_all(sig, self.with_types()) && has_none(sig, self.without_types())
    }

    /// The filter that accepts every archetype.
    pub fn none() -> (f: Self)
        ensures
            f.with_types().len() == 0,
            f.without_types().len() == 0,
    {
        QueryFilter { with: Vec::new(), without: Vec::new() }
    }

    /// Also require type `w.0`.
    pub fn with(self, w: With) -> (f: Self)
        ensures
            f.with_types() == self.with_types().push(w.0),
            f.without_types() == self.without_types(),
    {
        let mut f = self;
        f.with.push(w.0);
        f
    }

    /// Also exclude type `w.0`.
    pub fn without(self, w: Without) -> (f: Self)
        ensures
            f.with_types() == self.with_types(),
            f.without_types() == self.without_types().push(w.0),
    {
        let mut f = self;
        f.without.push(w.0);
        f
    }

    /// Whether an archetype passes the filter.
    pub fn matches_archetype<A>(&self, archetype: &Archetype<A>) -> (r: bool)
        ensures
            r == self.accepts(archetype.sig()),
    {
        contains_all(archetype.signature(), &self.with) && contains_none(
            archetype.signature(),
            &self.without,
        )
    }
}

/// Whether archetype `a` is matched by a query fetching `fetched`, with the filter
/// requiring `with` and excluding `without`.
pub open spec fn query_matches<A>(
    a: Archetype<A>,
    fetched: Seq<ComponentTypeId>,
    with: Seq<ComponentTypeId>,
    without: Seq<ComponentTypeId>,
) -> bool {
    has_all(a.sig(), fetched) && has_all(a.sig(), with) && has_none(a.sig(), without)
}

/// The indices below `n` of the archetypes a query matches, in order.
pub open spec fn matching_upto<A>(
    archs: Seq<Archetype<A>>,
    fetched: Seq<ComponentTypeId>,
    with: Seq<ComponentTypeId>,
    without: Seq<ComponentTypeId>,
    n: int,
) -> Seq<usize>
    decreases n,
{
    if n <= 0 {
        Seq::empty()
    } else if query_matches(archs[n - 1], fetched, with, without) {
        matching_upto(archs, fetched, with, without, n - 1).push((n - 1) as usize)
    } else {
        matching_upto(archs, fetched, with, without, n - 1)
    }
}

/// The entities of the archetypes `ids[from..]`, in order.
pub open spec fn entities_from<A>(archs: Seq<Archetype<A>>, ids: Seq<usize>, from: int) -> Seq<
    Entity,
>
    decreases ids.len() - from,
{
    if from >= ids.len() || from < 0 {
        Seq::empty()
    } else {
        archs[ids[from] as int].ents() + entities_from(archs, ids, from + 1)
    }
}

pub proof fn lemma_matching_upto<A>(
    archs: Seq<Archetype<A>>,
    fetched: Seq<ComponentTypeId>,
    with: Seq<ComponentTypeId>,
    without: Seq<ComponentTypeId>,
    n: int,
)
    requires
        0 <= n <= archs.len(),
        archs.len() <= usize::MAX,
    ensures
        forall|k: int|
            0 <= k < matching_upto(archs, fetched, with, without, n).len() ==> {
                let a = #[trigger] matching_upto(archs, fetched, with, without, n)[k];
                &&& a < n
                &&& query_matches(archs[a as int], fetched, with, without)
            },
        forall|a: int|
            0 <= a < n && query_matches(archs[a], fetched, with, without) ==> matching_upto(archs, fetched, with, without, n).contains(a as usize),
    decreases n,
{
    if n > 0 {
        lemma_matching_upto(archs, fetched, with, without, n - 1);
        let prev = matching_upto(archs, fetched, with, without, n - 1);
        let cur = matching_upto(archs, fetched, with, without, n);
        assert forall|k: int| 0 <= k < cur.len() implies {
            let a = #[trigger] cur[k];
            &&& a < n
            &&& query_matches(archs[a as int], fetched, with, without)
        } by {
            if k < prev.len() {
                assert(cur[k] == prev[k]);
            }
        }
        assert forall|a: int|
            0 <= a < n && query_matches(archs[a], fetched, with, without) implies cur.contains(
            a as usize,
        ) by {
            if a < n - 1 {
                let k = choose|k: int| 0 <= k < prev.len() && prev[k] == a as usize;
                assert(cur[k] == a as usize);
            } else {
                assert(cur[cur.len() - 1] == a as usize);
            }
        }
    }
}

/// Every row of the archetypes `ids[from..]` is among the entities they yield.
pub proof fn lemma_entities_from_contains<A>(
    archs: Seq<Archetype<A>>,
    ids: Seq<usize>,
    from: int,
    k: int,
    r: int,
)
    requires
        0 <= from <= k < ids.len(),
        0 <= r < archs[ids[k] as int].ents().len(),
    ensures
        entities_from(archs, ids, from).contains(archs[ids[k] as int].ents()[r]),
    decreases k - from,
{
    let ents = archs[ids[from] as int].ents();
    let rest = entities_from(archs, ids, from + 1);
    if k == from {
        assert((ents + rest)[r] == ents[r]);
    } else {
        lemma_entities_from_contains(archs, ids, from + 1, k, r);
        let j = choose|j: int| 0 <= j < rest.len() && rest[j] == archs[ids[k] as int].ents()[r];
        assert((ents + rest)[ents.len() + j] == rest[j]);
    }
}

/// Every entity the archetypes `ids[from..]` yield is a row of one of them.
pub proof fn lemma_entities_from_rows<A>(archs: Seq<Archetype<A>>, ids: Seq<usize>, from: int, x: Entity)
    requires
        0 <= from,
        entities_from(archs, ids, from).contains(x),
    ensures
        exists|k: int, r: int|
            from <= k < ids.len() && 0 <= r < archs[ids[k] as int].ents().len() && archs[ids[k] as int].ents()[r]
                == x,
    decreases ids.len() - from,
{
    if from < ids.len() {
        let ents = archs[ids[from] as int].ents();
        let rest = entities_from(archs, ids, from + 1);
        let j = choose|j: int| 0 <= j < (ents + rest).len() && (ents + rest)[j] == x;
        if j < ents.len() {
            assert(ents[j] == x);
        } else {
            assert(rest[j - ents.len()] == x);
            lemma_entities_from_rows(archs, ids, from + 1, x);
        }
    }
}

/// The matched archetype indices increase.
proof fn lemma_matching_increasing<A>(
    archs: Seq<Archetype<A>>,
    fetched: Seq<ComponentTypeId>,
    with: Seq<ComponentTypeId>,
    without: Seq<ComponentTypeId>,
    n: int,
)
    requires
        0 <= n <= archs.len(),
        archs.len() <= usize::MAX,
    ensures
        forall|i: int, j: int|
            0 <= i < j < matching_upto(archs, fetched, with, without, n).len() ==> matching_upto(
                archs,
                fetched,
                with,
                without,
                n,
            )[i] < matching_upto(archs, fetched, with, without, n)[j],
    decreases n,
{
    if n > 0 {
        lemma_matching_increasing(archs, fetched, with, without, n - 1);
        lemma_matching_upto(archs, fetched, with, without, n - 1);
        let prev = matching_upto(archs, fetched, with, without, n - 1);
        let cur = matching_upto(archs, fetched, with, without, n);
        assert forall|i: int, j: int| 0 <= i < j < cur.len() implies cur[i] < cur[j] by {
            if j < prev.len() {
                assert(cur[i] == prev[i] && cur[j] == prev[j]);
            } else {
                assert(cur[i] == prev[i]);
                assert(prev[i] < n - 1);
            }
        }
    }
}

/// The archetypes `ids[from..]`, taken at increasing indices of archetypes whose rows hold
/// distinct entities, yield no entity twice.
proof fn lemma_entities_from_no_dup<A>(archs: Seq<Archetype<A>>, ids: Seq<usize>, from: int)
    requires
        0 <= from,
        forall|i: int, j: int| 0 <= i < j < ids.len() ==> ids[i] < ids[j],
        forall|i: int| 0 <= i < ids.len() ==> #[trigger] ids[i] < archs.len(),
        forall|a1: int, r1: int, a2: int, r2: int|
            0 <= a1 < archs.len() && 0 <= r1 < archs[a1].ents().len() && 0 <= a2 < archs.len() && 0
                <= r2 < archs[a2].ents().len() && #[trigger] archs[a1].ents()[r1] == #[trigger] archs[a2].ents()[r2]
                ==> a1 == a2 && r1 == r2,
    ensures
        entities_from(archs, ids, from).no_duplicates(),
    decreases ids.len() - from,
{
    if from < ids.len() {
        let a = ids[from] as int;
        let ents = archs[a].ents();
        let rest = entities_from(archs, ids, from + 1);
        lemma_entities_from_no_dup(archs, ids, from + 1);
        assert(ents.no_duplicates()) by {
            assert forall|i: int, j: int| 0 <= i < ents.len() && 0 <= j < ents.len() && i != j implies ents[i] != ents[j] by {
                if ents[i] == ents[j] {
                    assert(archs[a].ents()[i] == archs[a].ents()[j]);
                }
            }
        }
        assert forall|i: int, j: int| 0 <= i < ents.len() && 0 <= j < rest.len() implies ents[i] != rest[j] by {
            if ents[i] == rest[j] {
                assert(rest.contains(rest[j]));
                lemma_entities_from_rows(archs, ids, from + 1, rest[j]);
                let (k, r) = choose|k: int, r: int|
                    from + 1 <= k < ids.len() && 0 <= r < archs[ids[k] as int].ents().len()
                        && archs[ids[k] as int].ents()[r] == rest[j];
                assert(archs[a].ents()[i] == archs[ids[k] as int].ents()[r]);
                assert(ids[from] < ids[k]);
            }
        }
        vstd::seq_lib::lemma_no_dup_in_concat(ents, rest);
    } else {
        assert(entities_from(archs, ids, from) =~= Seq::<Entity>::empty());
    }
}

/// A query over a well-formed world yields each matching entity once.
pub proof fn lemma_query_no_duplicates<A, R>(
    w: World<A, R>,
    fetched: Seq<ComponentTypeId>,
    with: Seq<ComponentTypeId>,
    without: Seq<ComponentTypeId>,
)
    requires
        w.wf(),
        w.archs().len() <= usize::MAX,
    ensures
        entities_from(
            w.archs(),
            matching_upto(w.archs(), fetched, with, without, w.archs().len() as int),
            0,
        ).no_duplicates(),
{
    let archs = w.archs();
    let n = archs.len() as int;
    lemma_matching_upto(archs, fetched, with, without, n);
    lemma_matching_increasing(archs, fetched, with, without, n);
    assert forall|a1: int, r1: int, a2: int, r2: int|
        0 <= a1 < archs.len() && 0 <= r1 < archs[a1].ents().len() && 0 <= a2 < archs.len() && 0
            <= r2 < archs[a2].ents().len() && #[trigger] archs[a1].ents()[r1] == #[trigger] archs[a2].ents()[r2]
            implies a1 == a2 && r1 == r2 by {
        w.lemma_archetype_row(a1, r1);
        let e = archs[a1].ents()[r1];
        w.lemma_entity_row(e);
    }
    lemma_entities_from_no_dup(archs, matching_upto(archs, fetched, with, without, n), 0);
}

/// Whether a component map holds every fetched and `with` type and no `without` type.
pub open spec fn entity_matches<V>(
    m: Map<ComponentTypeId, V>,
    fetched: Seq<ComponentTypeId>,
    with: Seq<ComponentTypeId>,
    without: Seq<ComponentTypeId>,
) -> bool {
    &&& forall|k: int| 0 <= k < fetched.len() ==> m.contains_key(#[trigger] fetched[k])
    &&& forall|k: int| 0 <= k < with.len() ==> m.contains_key(#[trigger] with[k])
    &&& forall|k: int| 0 <= k < without.len() ==> !m.contains_key(#[trigger] without[k])
}

/// A query yields exactly the live entities that hold every fetched type and every `with`
/// type and no `without` type.
pub proof fn lemma_query_yields_matching<A, R>(
    w: World<A, R>,
    fetched: Seq<ComponentTypeId>,
    with: Seq<ComponentTypeId>,
    without: Seq<ComponentTypeId>,
    e: Entity,
)
    requires
        w.wf(),
        w.archs().len() <= usize::MAX,
    ensures
        entities_from(
            w.archs(),
            matching_upto(w.archs(), fetched, with, without, w.archs().len() as int),
            0,
        ).contains(e) <==> (w.view().contains_key(e) && entity_matches(
            w.view()[e],
            fetched,
            with,
            without,
        )),
{
    let archs = w.archs();
    let n = archs.len() as int;
    let ids = matching_upto(archs, fetched, with, without, n);
    lemma_matching_upto(archs, fetched, with, without, n);
    if entities_from(archs, ids, 0).contains(e) {
        lemma_entities_from_rows(archs, ids, 0, e);
        let (k, r) = choose|k: int, r: int|
            0 <= k < ids.len() && 0 <= r < archs[ids[k] as int].ents().len() && archs[ids[k] as int].ents()[r]
                == e;
        let a = ids[k] as int;
        w.lemma_archetype_row(a, r);
        assert(query_matches(archs[a], fetched, with, without));
    }
    if w.view().contains_key(e) && entity_matches(w.view()[e], fetched, with, without) {
        w.lemma_entity_row(e);
        let a = w.location(e).archetype_id as int;
        let r = w.location(e).row as int;
        w.lemma_archetype_row(a, r);
        assert(query_matches(archs[a], fetched, with, without));
        assert(ids.contains(a as usize));
        let k = choose|k: int| 0 <= k < ids.len() && ids[k] == a as usize;
        lemma_entities_from_contains(archs, ids, 0, k, r);
    }
}

/// The archetypes of a world that hold every fetched type and pass a filter.
pub struct Query<'w, A, R> {
    world: &'w World<A, R>,
    matching_archetypes: Vec<usize>,
}

impl<'w, A, R> Query<'w, A, R> {
    /// The world queried.
    pub closed spec fn world(&self) -> World<A, R> {
        *self.world
    }

    /// Indices of the matching archetypes, in order.
    pub closed spec fn matching(&self) -> Seq<usize> {
        self.matching_archetypes@
    }

    /// Matches the archetypes of `world` that hold every type of `fetched` and pass `filter`.
    pub fn new(world: &'w World<A, R>, fetched: &Vec<ComponentTypeId>, filter: &QueryFilter) -> (q:
        Self)
        ensures
            q.world() == *world,
            q.matching() == matching_upto(
                world.archs(),
                fetched@,
                filter.with_types(),
                filter.without_types(),
                world.archs().len() as int,
            ),
            world.wf() ==> q.spec_entities().no_duplicates(),
    {
        let archs = world.archetypes();
        let mut matching_archetypes: Vec<usize> = Vec::new();
        let mut i: usize = 0;
        while i < archs.len()
            invariant
                archs@ == world.archs(),
                i <= archs@.len(),
                matching_archetypes@ == matching_upto(
                    world.archs(),
                    fetched@,
                    filter.with_types(),
                    filter.without_types(),
                    i as int,
                ),
            decreases archs@.len() - i,
        {
            if contains_all(archs[i].signature(), fetched) && filter.matches_archetype(&archs[i]) {
                matching_archetypes.push(i);
            }
            i = i + 1;
        }
        proof {
            if world.wf() {
                lemma_query_no_duplicates(*world, fetched@, filter.with_types(), filter.without_types());
            }
        }
        Query { world, matching_archetypes }
    }

    /// The entities the query yields, in archetype then row order.
    pub open spec fn spec_entities(&self) -> Seq<Entity> {
        entities_from(self.world().archs(), self.matching(), 0)
    }

    /// Starts iterating over the matched entities.
    pub fn iter(&self) -> (it: QueryIter<'w, A, R>)
        requires
            forall|k: int|
                0 <= k < self.matching().len() ==> #[trigger] self.matching()[k]
                    < self.world().archs().len(),
        ensures
            it.wf(),
            it.remaining() == self.spec_entities(),
            it.world() == self.world(),
    {
        let mut ids: Vec<usize> = Vec::new();
        let mut i: usize = 0;
        while i < self.matching_archetypes.len()
            invariant
                i <= self.matching_archetypes@.len(),
                ids@ == self.matching_archetypes@.take(i as int),
            decreases self.matching_archetypes@.len() - i,
        {
            ids.push(self.matching_archetypes[i]);
            i = i + 1;
            assert(ids@ =~= self.matching_archetypes@.take(i as int));
        }
        assert(ids@ =~= self.matching_archetypes@);
        let it = QueryIter { world: self.world, archetype_ids: ids, pos: 0, row: 0 };
        proof {
            assert forall|k: int| 0 <= k < it.archetype_ids@.len() implies #[trigger] it.archetype_ids@[k]
                < it.world.archs().len() by {
                assert(it.archetype_ids@[k] == self.matching()[k]);
            }
            if ids@.len() > 0 {
                assert(self.world().archs()[ids@[0] as int].ents().skip(0) =~= self.world().archs()[ids@[0] as int].ents());
            }
        }
        it
    }

    /// Every matched entity, in archetype then row order.
    pub fn entities(&self) -> (r: Vec<Entity>)
        requires
            forall|k: int|
                0 <= k < self.matching().len() ==> #[trigger] self.matching()[k]
                    < self.world().archs().len(),
        ensures
            r@ == self.spec_entities(),
    {
        let mut it = self.iter();
        let mut r: Vec<Entity> = Vec::new();
        loop
            invariant
                it.wf(),
                r@ + it.remaining() == self.spec_entities(),
            decreases it.remaining().len(),
        {
            let ghost before = it.remaining();
            match it.next() {
                Some(e) => {
                    r.push(e);
                    assert(r@ + it.remaining() =~= self.spec_entities());
                },
                None => {
                    assert(r@ =~= self.spec_entities());
                    return r;
                },
            }
        }
    }
}

/// Walks the entities of the matched archetypes, archetype by archetype, row by row.
pub struct QueryIter<'w, A, R> {
    world: &'w World<A, R>,
    archetype_ids: Vec<usize>,
    pos: usize,
    row: usize,
}

impl<'w, A, R> QueryIter<'w, A, R> {
    pub closed spec fn world(&self) -> World<A, R> {
        *self.world
    }

    pub closed spec fn wf(&self) -> bool {
        &&& self.pos <= self.archetype_ids@.len()
        &&& forall|k: int|
            0 <= k < self.archetype_ids@.len() ==> #[trigger] self.archetype_ids@[k]
                < self.world.archs().len()
        &&& self.pos < self.archetype_ids@.len() ==> self.row <= self.world.archs()[self.archetype_ids@[self.pos as int] as int].ents().len()
    }

    /// The entities still to be yielded, in order.
    pub closed spec fn remaining(&self) -> Seq<Entity> {
        if self.pos < self.archetype_ids@.len() {
            self.world.archs()[self.archetype_ids@[self.pos as int] as int].ents().skip(self.row as int)
                + entities_from(self.world.archs(), self.archetype_ids@, self.pos + 1)
        } else {
            Seq::empty()
        }
    }

    /// The next matched entity.
    pub fn next(&mut self) -> (r: Option<Entity>)
        requires
            old(self).wf(),
        ensures
            final(self).wf(),
            final(self).world() == old(self).world(),
            match r {
                Some(e) => old(self).remaining().len() > 0 && e == old(self).remaining()[0]
                    && final(self).remaining() == old(self).remaining().drop_first(),
                None => old(self).remaining().len() == 0 && final(self).remaining().len() == 0,
            },
    {
        let archs = self.world.archetypes();
        while self.pos < self.archetype_ids.len()
            invariant
                self.wf(),
                archs@ == self.world.archs(),
                self.world == old(self).world,
                self.remaining() == old(self).remaining(),
            decreases self.archetype_ids@.len() - self.pos, archs@[self.archetype_ids@[self.pos as int] as int].ents().len() - self.row,
        {
            let arch = &archs[self.archetype_ids[self.pos]];
            if self.row < arch.len() {
                let e = arch.entities()[self.row];
                let ghost before = self.remaining();
                self.row = self.row + 1;
                proof {
                    let ents = arch.ents();
                    assert(ents.skip(self.row as int) =~= ents.skip((self.row - 1) as int).drop_first());
                    assert(self.remaining() =~= before.drop_first());
                }
                return Some(e);
            }
            let ghost before = self.remaining();
            self.pos = self.pos + 1;
            self.row = 0;
            proof {
                if self.pos < self.archetype_ids@.len() {
                    let ents = archs@[self.archetype_ids@[self.pos as int] as int].ents();
                    assert(ents.skip(0) =~= ents);
                }
                assert(self.remaining() =~= before);
            }
        }
        None
    }
}

/// Why a single-entity query failed.
#[derive(Clone, Copy, Debug, PartialEq, Eq, Structural)]
pub enum SingleError {
    /// No entity matched.
    NoMatch,
    /// More than one entity matched.
    MoreThanOne,
}

/// The one entity matched by a query.
pub struct Single {
    entity: Entity,
}

impl Single {
    pub closed spec fn spec_entity(&self) -> Entity {
        self.entity
    }

    /// Runs the query and succeeds when exactly one entity matches.
    pub fn new<A, R>(world: &World<A, R>, fetched: &Vec<ComponentTypeId>, filter: &QueryFilter) -> (r:
        Result<Single, SingleError>)
        ensures
            ({
                let q = matching_upto(
                    world.archs(),
                    fetched@,
                    filter.with_types(),
                    filter.without_types(),
                    world.archs().len() as int,
                );
                let all = entities_from(world.archs(), q, 0);
                match r {
                    Ok(s) => all.len() == 1 && s.spec_entity() == all[0],
                    Err(e) => (all.len() == 0 && e == SingleError::NoMatch) || (all.len() > 1 && e
                        == SingleError::MoreThanOne),
                }
            }),
    {
        let query = Query::new(world, fetched, filter);
        let n = world.archetypes().len();
        proof {
            lemma_matching_upto(
                world.archs(),
                fetched@,
                filter.with_types(),
                filter.without_types(),
                world.archs().len() as int,
            );
        }
        let mut iter = query.iter();
        let item = match iter.next() {
            Some(e) => e,
            None => return Err(SingleError::NoMatch),
        };
        if iter.next().is_some() {
            return Err(SingleError::MoreThanOne);
        }
        Ok(Single { entity: item })
    }

    /// The matched entity.
    pub fn entity(&self) -> (e: Entity)
        ensures
            e == self.spec_entity(),
    {
        self.entity
    }
}

} // verus!
