use vstd::prelude::*;

use std::collections::HashSet;

use crate::assets::handle::Handle;
use crate::assets::storage::AssetMap;
use crate::ecs::component::{
    Component, ComponentData, ComponentTypeId, ComponentView, ModelRenderer, Networked,
    MODEL_RENDERER_TYPE_ID, NETWORKED_TYPE_ID,
};
use crate::ecs::component_registry::{
    find_component_registration, find_component_registration_by_name, first_with_name,
    first_with_type, lemma_first_with_name, lemma_first_with_type, ComponentRegistration,
};
use crate::ecs::query::{
    entities_from, entity_matches, lemma_matching_upto, lemma_query_yields_matching, matching_upto,
    Query, QueryFilter,
};
use crate::ecs::world::{
    deep_components, in_type_order, lemma_deep_component_insert, lemma_deep_insert, World,
};
use crate::entity::Entity;

verus! {

/// The replicated state of one networked entity: its network id and its registered
/// components, each as the component type's name and its serialized value.
pub struct EntitySnapshot {
    pub network_id: u64,
    pub components: Vec<(String, Vec<u8>)>,
}

/// The replicated state of every networked entity.
pub struct Snapshot {
    pub entities: Vec<EntitySnapshot>,
}

impl EntitySnapshot {
    /// The components as (type name, bytes) pairs.
    pub open spec fn components_view(&self) -> Seq<(Seq<char>, Seq<u8>)> {
        self.components@.map_values(|p: (String, Vec<u8>)| (p.0@, p.1@))
    }
}

/// The serialized components of a component map, visiting types in the order of `sig`:
/// every serialized component whose type is registered, under its registered name.
pub open spec fn encode_components<A>(
    comps: Map<ComponentTypeId, Component<A>>,
    sig: Seq<ComponentTypeId>,
    regs: Seq<ComponentRegistration>,
) -> Seq<(Seq<char>, Seq<u8>)>
    decreases sig.len(),
{
    if sig.len() == 0 {
        Seq::empty()
    } else {
        let rest = encode_components(comps, sig.drop_last(), regs);
        let t = sig.last();
        match first_with_type(regs, t) {
            Some(i) => match comps[t] {
                Component::Data(d) => rest.push((regs[i].name@, d.bytes@)),
                _ => rest,
            },
            None => rest,
        }
    }
}

/// Whether a component map holds a [`crate::ecs::component::Networked`] marker.
pub open spec fn is_networked<A>(comps: Map<ComponentTypeId, Component<A>>) -> bool {
    comps.contains_key(NETWORKED_TYPE_ID) && comps[NETWORKED_TYPE_ID] is Networked
}

/// The network id of a networked component map.
pub open spec fn network_id_of<A>(comps: Map<ComponentTypeId, Component<A>>) -> u64 {
    comps[NETWORKED_TYPE_ID]->Networked_0.id
}

/// The entities, in the order the networked query yields them.
pub open spec fn networked_query_order<A, R>(w: World<A, R>) -> Seq<Entity> {
    entities_from(
        w.archs(),
        matching_upto(
            w.archs(),
            seq![NETWORKED_TYPE_ID],
            Seq::empty(),
            Seq::empty(),
            w.archs().len() as int,
        ),
        0,
    )
}

/// Those of `es` that are live and networked in `w`, in order.
pub open spec fn networked_only<A, R>(w: World<A, R>, es: Seq<Entity>) -> Seq<Entity> {
    es.filter(|e: Entity| w.view().contains_key(e) && is_networked(w.view()[e]))
}

/// Copies the bytes of a serialized component.
fn copy_bytes(b: &Vec<u8>) -> (r: Vec<u8>)
    ensures
        r@ == b@,
{
    let mut r: Vec<u8> = Vec::new();
    let mut i: usize = 0;
    while i < b.len()
        invariant
            i <= b@.len(),
            r@ == b@.take(i as int),
        decreases b@.len() - i,
    {
        r.push(b[i]);
        i = i + 1;
        assert(r@ =~= b@.take(i as int));
    }
    assert(b@.take(b@.len() as int) =~= b@);
    r
}

/// The serialized registered components of a live entity, in type order.
fn encode_entity<A, R>(
    world: &World<A, R>,
    e: Entity,
    sig: &Vec<ComponentTypeId>,
    regs: &Vec<ComponentRegistration>,
) -> (r: Vec<(String, Vec<u8>)>)
    requires
        world.wf(),
        world.view().contains_key(e),
        in_type_order(world.view()[e], sig@),
    ensures
        r@.map_values(|p: (String, Vec<u8>)| (p.0@, p.1@)) == encode_components(
            world.view()[e],
            sig@,
            regs@,
        ),
{
    let ghost comps = world.view()[e];
    let mut out: Vec<(String, Vec<u8>)> = Vec::new();
    let mut j: usize = 0;
    while j < sig.len()
        invariant
            world.wf(),
            world.view().contains_key(e),
            comps == world.view()[e],
            in_type_order(comps, sig@),
            j <= sig@.len(),
            out@.map_values(|p: (String, Vec<u8>)| (p.0@, p.1@)) == encode_components(
                comps,
                sig@.take(j as int),
                regs@,
            ),
        decreases sig@.len() - j,
    {
        let t = sig[j];
        proof {
            assert(sig@.contains(t));
            assert(sig@.take(j + 1).drop_last() =~= sig@.take(j as int));
            assert(sig@.take(j + 1).last() == t);
        }
        let ghost before = out@;
        match world.get_component(e, t) {
            Some(Component::Data(d)) => match find_component_registration(regs, t) {
                Some(reg) => {
                    out.push((reg.name.clone(), copy_bytes(&d.bytes)));
                    proof {
                        assert(out@.map_values(|p: (String, Vec<u8>)| (p.0@, p.1@)) =~= before.map_values(
                            |p: (String, Vec<u8>)| (p.0@, p.1@),
                        ).push((reg.name@, d.bytes@)));
                    }
                },
                None => {},
            },
            _ => {},
        }
        j = j + 1;
    }
    assert(sig@.take(sig@.len() as int) =~= sig@);
    out
}

/// `s` is the replicated state of `w`: one entry per live networked entity, in query order,
/// with its network id and its registered data components serialized in type order (there is
/// only one: see [`crate::ecs::world::lemma_type_order_unique`]).
pub open spec fn snapshot_of<A, R>(w: World<A, R>, s: Snapshot, regs: Seq<ComponentRegistration>) -> bool {
    let nets = networked_only(w, networked_query_order(w));
    &&& s.entities@.len() == nets.len()
    &&& forall|k: int|
        0 <= k < nets.len() ==> {
            let comps = w.view()[nets[k]];
            &&& (#[trigger] s.entities@[k]).network_id == network_id_of(comps)
            &&& exists|sig: Seq<ComponentTypeId>|
                in_type_order(comps, sig) && s.entities@[k].components_view() == encode_components(
                    comps,
                    sig,
                    regs,
                )
        }
}

/// The entities a query for the networked marker yields, in query order.
fn networked_entities<A, R>(world: &World<A, R>) -> (es: Vec<Entity>)
    requires
        world.wf(),
    ensures
        es@ == networked_query_order(*world),
        world.archs().len() <= usize::MAX,
{
    let mut fetched: Vec<ComponentTypeId> = Vec::new();
    fetched.push(NETWORKED_TYPE_ID);
    let filter = QueryFilter::none();
    let query = Query::new(world, &fetched, &filter);
    let n = world.archetypes().len();
    proof {
        assert(fetched@ =~= seq![NETWORKED_TYPE_ID]);
        assert(filter.with_types() =~= Seq::<ComponentTypeId>::empty());
        assert(filter.without_types() =~= Seq::<ComponentTypeId>::empty());
        lemma_matching_upto(world.archs(), fetched@, filter.with_types(), filter.without_types(), n as int);
    }
    query.entities()
}

/// The replicated state of every live networked entity, in query order.
#[verifier::spinoff_prover]
pub fn build_snapshot<A, R>(world: &World<A, R>, regs: &Vec<ComponentRegistration>) -> (s: Snapshot)
    requires
        world.wf(),
    ensures
        snapshot_of(*world, s, regs@),
{
    let es = networked_entities(world);
    let ghost order = networked_query_order(*world);
    let mut entities: Vec<EntitySnapshot> = Vec::new();
    let mut i: usize = 0;
    while i < es.len()
        invariant
            world.wf(),
            es@ == order,
            i <= es@.len(),
            entities@.len() == networked_only(*world, es@.take(i as int)).len(),
            forall|k: int|
                0 <= k < entities@.len() ==> {
                    let comps = world.view()[networked_only(*world, es@.take(i as int))[k]];
                    &&& (#[trigger] entities@[k]).network_id == network_id_of(comps)
                    &&& exists|sig: Seq<ComponentTypeId>|
                        in_type_order(comps, sig) && entities@[k].components_view()
                            == encode_components(comps, sig, regs@)
                },
        decreases es@.len() - i,
    {
        let e = es[i];
        let ghost prev = networked_only(*world, es@.take(i as int));
        proof {
            assert(es@.take(i + 1).drop_last() =~= es@.take(i as int));
            reveal_with_fuel(Seq::filter, 1);
        }
        match world.get_component(e, NETWORKED_TYPE_ID) {
            Some(Component::Networked(net)) => {
                let sig = world.component_types(e).unwrap();
                let comps = encode_entity(world, e, sig, regs);
                entities.push(EntitySnapshot { network_id: net.id, components: comps });
                proof {
                    let cur = networked_only(*world, es@.take(i + 1));
                    assert(cur == prev.push(e));
                    assert forall|k: int| 0 <= k < entities@.len() implies {
                        let comps = world.view()[cur[k]];
                        &&& (#[trigger] entities@[k]).network_id == network_id_of(comps)
                        &&& exists|sig: Seq<ComponentTypeId>|
                            in_type_order(comps, sig) && entities@[k].components_view()
                                == encode_components(comps, sig, regs@)
                    } by {
                        if k == entities@.len() - 1 {
                            assert(in_type_order(world.view()[e], sig@));
                        } else {
                            assert(cur[k] == prev[k]);
                        }
                    }
                }
            },
            _ => {
                proof {
                    let cur = networked_only(*world, es@.take(i + 1));
                    assert(cur == prev);
                }
            },
        }
        i = i + 1;
    }
    proof {
        assert(es@.take(es@.len() as int) =~= es@);
    }
    Snapshot { entities }
}

impl Snapshot {
    /// Each entity's network id and components, as (type name, bytes) pairs.
    pub open spec fn entries_view(&self) -> Seq<(u64, Seq<(Seq<char>, Seq<u8>)>)> {
        self.entities@.map_values(|s: EntitySnapshot| (s.network_id, s.components_view()))
    }
}

/// The path of the model given to replicated entities that arrive without one.
pub open spec fn default_model_path() -> Seq<char> {
    "meshes/cube.glb"@
}

/// The handle of the asset stored under `path`, if any.
pub open spec fn handle_at<A>(m: AssetMap<A>, path: Seq<char>) -> Option<Handle<A>> {
    if m.paths().contains_key(path) {
        let i = m.paths()[path];
        Some(
            Handle::<A> {
                index: i,
                generation: m.slots()[i as int].generation,
                _marker: std::marker::PhantomData,
            },
        )
    } else {
        None
    }
}

/// Whether `e` is a live entity of `w` marked networked under `id`.
pub open spec fn carries_id<A, R>(w: World<A, R>, e: Entity, id: u64) -> bool {
    &&& w.view().contains_key(e)
    &&& is_networked(w.view()[e])
    &&& network_id_of(w.view()[e]) == id
}

/// Whether position `k` of the networked query order is the first to carry `id`.
pub open spec fn first_carrying_at<A, R>(w: World<A, R>, id: u64, k: int) -> bool {
    let order = networked_query_order(w);
    &&& 0 <= k < order.len()
    &&& carries_id(w, order[k], id)
    &&& forall|j: int| 0 <= j < k ==> !carries_id(w, order[j], id)
}

/// The first entity, in networked query order, that carries `id`.
pub open spec fn first_carrying<A, R>(w: World<A, R>, id: u64) -> Option<Entity> {
    if exists|k: int| first_carrying_at(w, id, k) {
        Some(networked_query_order(w)[choose|k: int| first_carrying_at(w, id, k)])
    } else {
        None
    }
}

/// Components named in a snapshot entry, applied in order over `comps`: each one whose name
/// is registered replaces the component of the registered type.
pub open spec fn decode_into<A>(
    comps: Map<ComponentTypeId, ComponentView<A>>,
    cs: Seq<(Seq<char>, Seq<u8>)>,
    regs: Seq<ComponentRegistration>,
) -> Map<ComponentTypeId, ComponentView<A>>
    decreases cs.len(),
{
    if cs.len() == 0 {
        comps
    } else {
        let prev = decode_into(comps, cs.drop_last(), regs);
        match first_with_name(regs, cs.last().0) {
            Some(i) => prev.insert(regs[i].type_id, ComponentView::Data(regs[i].type_id, cs.last().1)),
            None => prev,
        }
    }
}

/// `comps` with a model renderer for `model` added when it has none and the model exists.
pub open spec fn with_default_model<A>(
    comps: Map<ComponentTypeId, ComponentView<A>>,
    model: Option<Handle<A>>,
) -> Map<ComponentTypeId, ComponentView<A>> {
    if model is Some && !comps.contains_key(MODEL_RENDERER_TYPE_ID) {
        comps.insert(MODEL_RENDERER_TYPE_ID, ComponentView::ModelRenderer(model.unwrap()))
    } else {
        comps
    }
}

/// The entity an entry for `id` lands on: the first carrying `id`, or else the entity the
/// world spawns next.
pub open spec fn entry_target<A, R>(w: World<A, R>, e: Entity, id: u64) -> bool {
    match first_carrying(w, id) {
        Some(x) => e == x,
        None => e == w.next_spawned() && !w.view().contains_key(e),
    }
}

/// The components an entry for `id` starts from on `e`: its own, or just the networked marker.
pub open spec fn entry_base<A, R>(w: World<A, R>, e: Entity, id: u64) -> Map<
    ComponentTypeId,
    ComponentView<A>,
> {
    if w.view().contains_key(e) {
        w.deep_view()[e]
    } else {
        map![NETWORKED_TYPE_ID => ComponentView::Networked(id)]
    }
}

/// `w1` is `w0` after one snapshot entry (`id`, `cs`) was applied.
pub open spec fn entry_applied<A, R>(
    w0: World<A, R>,
    w1: World<A, R>,
    id: u64,
    cs: Seq<(Seq<char>, Seq<u8>)>,
    regs: Seq<ComponentRegistration>,
    model: Option<Handle<A>>,
) -> bool {
    exists|e: Entity|
        #[trigger] entry_target(w0, e, id) && w1.deep_view() == w0.deep_view().insert(
            e,
            with_default_model(decode_into(entry_base(w0, e, id), cs, regs), model),
        )
}

/// Whether a component map is networked under an id not in `ids`.
pub open spec fn is_stale<A>(comps: Map<ComponentTypeId, Component<A>>, ids: Set<u64>) -> bool {
    is_networked(comps) && !ids.contains(network_id_of(comps))
}

/// `w1` is `w0` without its stale networked entities.
pub open spec fn stale_despawned<A, R>(w0: World<A, R>, w1: World<A, R>, ids: Set<u64>) -> bool {
    w1.view() == Map::new(
        |e: Entity| w0.view().contains_key(e) && !is_stale(w0.view()[e], ids),
        |e: Entity| w0.view()[e],
    )
}

/// The network ids of a snapshot's entries.
pub open spec fn entry_ids(entries: Seq<(u64, Seq<(Seq<char>, Seq<u8>)>)>) -> Set<u64> {
    Set::new(|x: u64| exists|k: int| 0 <= k < entries.len() && entries[k].0 == x)
}

/// `w1` is `w0` after applying `entries` in order through the worlds `ws`, then despawning
/// the networked entities whose id no entry names.
pub open spec fn snapshot_applied<A, R>(
    w0: World<A, R>,
    ws: Seq<World<A, R>>,
    w1: World<A, R>,
    entries: Seq<(u64, Seq<(Seq<char>, Seq<u8>)>)>,
    regs: Seq<ComponentRegistration>,
) -> bool {
    let model = handle_at(w0.asset_map(), default_model_path());
    &&& ws.len() == entries.len() + 1
    &&& ws[0] == w0
    &&& forall|k: int|
        #![trigger entries[k]]
        0 <= k < entries.len() ==> entry_applied(
            ws[k],
            ws[k + 1],
            entries[k].0,
            entries[k].1,
            regs,
            model,
        )
    &&& stale_despawned(ws[entries.len() as int], w1, entry_ids(entries))
}

/// The first entity, in networked query order, marked networked under `id`.
fn find_networked<A, R>(world: &World<A, R>, id: u64) -> (r: Option<Entity>)
    requires
        world.wf(),
    ensures
        r == first_carrying(*world, id),
{
    let es = networked_entities(world);
    let ghost order = networked_query_order(*world);
    let mut i: usize = 0;
    while i < es.len()
        invariant
            world.wf(),
            es@ == order,
            order == networked_query_order(*world),
            i <= es@.len(),
            forall|j: int| 0 <= j < i ==> !carries_id(*world, order[j], id),
        decreases es@.len() - i,
    {
        let e = es[i];
        match world.get_component(e, NETWORKED_TYPE_ID) {
            Some(Component::Networked(n)) => {
                if n.id == id {
                    proof {
                        assert(first_carrying_at(*world, id, i as int));
                        let k = choose|k: int| first_carrying_at(*world, id, k);
                        if k < i {
                            assert(!carries_id(*world, order[k], id));
                        } else if k > i {
                            assert(!carries_id(*world, order[i as int], id));
                        }
                        assert(k == i);
                    }
                    return Some(e);
                }
            },
            _ => {},
        }
        i = i + 1;
    }
    None
}

/// The entity carrying `network_id`, or a new networked entity carrying it.
fn find_or_spawn<A, R>(world: &mut World<A, R>, network_id: u64) -> (e: Entity)
    requires
        old(world).wf(),
        first_carrying(*old(world), network_id) is Some || old(world).spawn_capacity() > 0,
    ensures
        final(world).wf(),
        entry_target(*old(world), e, network_id),
        final(world).view().contains_key(e),
        final(world).deep_view() == old(world).deep_view().insert(
            e,
            entry_base(*old(world), e, network_id),
        ),
        final(world).spawn_capacity() + 1 >= old(world).spawn_capacity(),
        final(world).resources() == old(world).resources(),
        final(world).asset_map() == old(world).asset_map(),
{
    match find_networked(world, network_id) {
        Some(e) => {
            proof {
                let k = choose|k: int| first_carrying_at(*world, network_id, k);
                assert(carries_id(*world, e, network_id));
                assert(world.deep_view().insert(e, world.deep_view()[e]) =~= world.deep_view());
            }
            e
        },
        None => {
            let e = world.spawn();
            world.add_component(e, Component::Networked(Networked { id: network_id }));
            proof {
                let m = Map::<ComponentTypeId, Component<A>>::empty().insert(
                    NETWORKED_TYPE_ID,
                    Component::Networked(Networked { id: network_id }),
                );
                lemma_deep_insert(old(world).view(), e, m);
                assert(world.view() =~= old(world).view().insert(e, m));
                assert(deep_components(m) =~= map![NETWORKED_TYPE_ID => ComponentView::<A>::Networked(network_id)]);
            }
            e
        },
    }
}

/// Applies one snapshot entry: finds or spawns its entity, replaces each registered
/// component it carries, and gives it the default model when it has no model renderer.
fn apply_entry<A, R>(
    world: &mut World<A, R>,
    state: &EntitySnapshot,
    regs: &Vec<ComponentRegistration>,
    model: Option<Handle<A>>,
)
    requires
        old(world).wf(),
        old(world).spawn_capacity() > 0,
    ensures
        final(world).wf(),
        entry_applied(
            *old(world),
            *final(world),
            state.network_id,
            state.components_view(),
            regs@,
            model,
        ),
        final(world).spawn_capacity() + 1 >= old(world).spawn_capacity(),
        final(world).resources() == old(world).resources(),
        final(world).asset_map() == old(world).asset_map(),
{
    let id = state.network_id;
    let ghost cs = state.components_view();
    let e = find_or_spawn(world, id);
    let ghost w1 = *world;
    let ghost base = entry_base(*old(world), e, id);
    proof {
        assert(w1.deep_view()[e] == base);
        assert(cs.take(0) =~= Seq::<(Seq<char>, Seq<u8>)>::empty());
        assert(w1.deep_view().insert(e, base) =~= w1.deep_view());
    }
    let mut j: usize = 0;
    while j < state.components.len()
        invariant
            world.wf(),
            world.view().contains_key(e),
            w1.deep_view()[e] == base,
            cs == state.components_view(),
            j <= state.components@.len(),
            world.deep_view() == w1.deep_view().insert(e, decode_into(base, cs.take(j as int), regs@)),
            world.spawn_capacity() == w1.spawn_capacity(),
            world.resources() == w1.resources(),
            world.asset_map() == w1.asset_map(),
        decreases state.components@.len() - j,
    {
        let pair = &state.components[j];
        let ghost prev = *world;
        proof {
            assert(cs.take(j + 1).drop_last() =~= cs.take(j as int));
            assert(cs.take(j + 1).last() == (pair.0@, pair.1@));
        }
        match find_component_registration_by_name(regs, &pair.0) {
            Some(reg) => {
                let t = reg.type_id;
                let c = Component::Data(ComponentData { type_id: t, bytes: copy_bytes(&pair.1) });
                world.insert_component(e, c);
                proof {
                    let pm = prev.view()[e];
                    lemma_deep_insert(prev.view(), e, pm.insert(t, c));
                    lemma_deep_component_insert(pm, t, c);
                    assert(deep_components(pm) == prev.deep_view()[e]);
                    assert(world.deep_view() =~= w1.deep_view().insert(
                        e,
                        decode_into(base, cs.take(j + 1), regs@),
                    ));
                }
            },
            None => {},
        }
        j = j + 1;
    }
    proof {
        assert(cs.take(cs.len() as int) =~= cs);
    }
    let ghost decoded = decode_into(base, cs, regs@);
    if !world.has_component(e, MODEL_RENDERER_TYPE_ID) {
        match model {
            Some(h) => {
                let ghost prev = *world;
                let c = Component::ModelRenderer(ModelRenderer { model: h });
                world.add_component(e, c);
                proof {
                    let pm = prev.view()[e];
                    lemma_deep_insert(prev.view(), e, pm.insert(MODEL_RENDERER_TYPE_ID, c));
                    lemma_deep_component_insert(pm, MODEL_RENDERER_TYPE_ID, c);
                    assert(deep_components(pm) == prev.deep_view()[e]);
                    assert(world.deep_view() =~= w1.deep_view().insert(
                        e,
                        with_default_model(decoded, model),
                    ));
                }
            },
            None => {},
        }
    }
    proof {
        assert(world.deep_view() =~= old(world).deep_view().insert(
            e,
            with_default_model(decoded, model),
        ));
        assert(entry_target(*old(world), e, id));
    }
}

/// Despawns every live entity networked under an id not in `ids`.
fn despawn_stale<A, R>(world: &mut World<A, R>, ids: &HashSet<u64>)
    requires
        old(world).wf(),
    ensures
        final(world).wf(),
        stale_despawned(*old(world), *final(world), ids@),
        final(world).resources() == old(world).resources(),
        final(world).asset_map() == old(world).asset_map(),
{
    broadcast use vstd::std_specs::hash::group_hash_axioms;

    let ghost w0 = *world;
    let es = networked_entities(world);
    let mut to_despawn: Vec<Entity> = Vec::new();
    let mut i: usize = 0;
    while i < es.len()
        invariant
            world.wf(),
            *world == w0,
            i <= es@.len(),
            forall|x: Entity|
                #[trigger] to_despawn@.contains(x) <==> (es@.take(i as int).contains(x)
                    && w0.view().contains_key(x) && is_stale(w0.view()[x], ids@)),
        decreases es@.len() - i,
    {
        let e = es[i];
        let ghost before = to_despawn@;
        proof {
            assert(es@.take(i + 1) =~= es@.take(i as int).push(e));
        }
        match world.get_component(e, NETWORKED_TYPE_ID) {
            Some(Component::Networked(n)) => {
                if !ids.contains(&n.id) {
                    to_despawn.push(e);
                }
            },
            _ => {},
        }
        proof {
            if to_despawn@.len() > before.len() {
                assert(to_despawn@ == before.push(e));
            } else {
                assert(to_despawn@ == before);
            }
            assert((to_despawn@.len() > before.len()) <==> (w0.view().contains_key(e) && is_stale(
                w0.view()[e],
                ids@,
            )));
        }
        let ghost pt = es@.take(i as int);
        let ghost ct = es@.take(i + 1);
        proof {
            assert(ct =~= pt.push(e));
            assert forall|x: Entity| #[trigger] ct.contains(x) <==> (pt.contains(x) || x == e) by {
                if ct.contains(x) && x != e {
                    let q = choose|q: int| 0 <= q < ct.len() && ct[q] == x;
                    assert(pt[q] == x);
                }
                if pt.contains(x) {
                    let q = choose|q: int| 0 <= q < pt.len() && pt[q] == x;
                    assert(ct[q] == x);
                }
                if x == e {
                    assert(ct[pt.len() as int] == e);
                }
            }
            assert forall|x: Entity| #[trigger] to_despawn@.contains(x) <==> (before.contains(x) || (
            x == e && to_despawn@.len() > before.len())) by {
                if to_despawn@.contains(x) && !(x == e && to_despawn@.len() > before.len()) {
                    let q = choose|q: int| 0 <= q < to_despawn@.len() && to_despawn@[q] == x;
                    assert(before[q] == x);
                }
                if before.contains(x) {
                    let q = choose|q: int| 0 <= q < before.len() && before[q] == x;
                    assert(to_despawn@[q] == x);
                }
                if x == e && to_despawn@.len() > before.len() {
                    assert(to_despawn@[before.len() as int] == e);
                }
            }
        }
        i = i + 1;
    }
    proof {
        assert(es@.take(es@.len() as int) =~= es@);
        assert forall|x: Entity|
            w0.view().contains_key(x) && is_stale(w0.view()[x], ids@) implies es@.contains(x) by {
            let f = seq![NETWORKED_TYPE_ID];
            lemma_query_yields_matching(w0, f, Seq::empty(), Seq::empty(), x);
            assert(entity_matches(w0.view()[x], f, Seq::empty(), Seq::empty()));
        }
        assert(Seq::<Entity>::empty() =~= to_despawn@.take(0));
        assert(w0.view() =~= Map::new(
            |x: Entity| w0.view().contains_key(x) && !to_despawn@.take(0).contains(x),
            |x: Entity| w0.view()[x],
        ));
    }
    let mut k: usize = 0;
    while k < to_despawn.len()
        invariant
            world.wf(),
            k <= to_despawn@.len(),
            world.view() == Map::new(
                |x: Entity| w0.view().contains_key(x) && !to_despawn@.take(k as int).contains(x),
                |x: Entity| w0.view()[x],
            ),
            world.resources() == w0.resources(),
            world.asset_map() == w0.asset_map(),
        decreases to_despawn@.len() - k,
    {
        let x = to_despawn[k];
        let ghost pre = to_despawn@.take(k as int);
        let ghost cur = to_despawn@.take(k + 1);
        world.despawn(x);
        k = k + 1;
        proof {
            assert(cur =~= pre.push(x));
            assert forall|y: Entity| #[trigger] cur.contains(y) <==> (pre.contains(y) || y == x) by {
                if cur.contains(y) && y != x {
                    let q = choose|q: int| 0 <= q < cur.len() && cur[q] == y;
                    assert(pre[q] == y);
                }
                if pre.contains(y) {
                    let q = choose|q: int| 0 <= q < pre.len() && pre[q] == y;
                    assert(cur[q] == y);
                }
                if y == x {
                    assert(cur[pre.len() as int] == x);
                }
            }
            assert(world.view() =~= Map::new(
                |y: Entity| w0.view().contains_key(y) && !to_despawn@.take(k as int).contains(y),
                |y: Entity| w0.view()[y],
            ));
        }
    }
    proof {
        assert(to_despawn@.take(to_despawn@.len() as int) =~= to_despawn@);
        assert(world.view() =~= Map::new(
            |x: Entity| w0.view().contains_key(x) && !is_stale(w0.view()[x], ids@),
            |x: Entity| w0.view()[x],
        ));
    }
}

/// Applies a snapshot received from the server to the world: each entry in order lands on
/// the entity carrying its network id (spawned if there is none) and replaces the registered
/// components it carries; entities arriving without a model renderer get the default model;
/// then the networked entities whose id the snapshot no longer names are despawned.
pub fn apply_snapshot<A, R>(
    world: &mut World<A, R>,
    snapshot: Snapshot,
    regs: &Vec<ComponentRegistration>,
)
    requires
        old(world).wf(),
        old(world).spawn_capacity() >= snapshot.entities@.len(),
    ensures
        final(world).wf(),
        exists|ws: Seq<World<A, R>>|
            snapshot_applied(*old(world), ws, *final(world), snapshot.entries_view(), regs@),
        final(world).resources() == old(world).resources(),
        final(world).asset_map() == old(world).asset_map(),
{
    broadcast use vstd::std_specs::hash::group_hash_axioms;

    let ghost entries = snapshot.entries_view();
    let ghost w0 = *world;
    let n = snapshot.entities.len();
    let mut ids: HashSet<u64> = HashSet::new();
    let mut i: usize = 0;
    while i < n
        invariant
            n == snapshot.entities@.len(),
            entries == snapshot.entries_view(),
            i <= n,
            ids@ == Set::new(|x: u64| exists|k: int| 0 <= k < i && entries[k].0 == x),
        decreases n - i,
    {
        let id = snapshot.entities[i].network_id;
        ids.insert(id);
        proof {
            assert(entries[i as int].0 == id);
            assert(ids@ =~= Set::new(|x: u64| exists|k: int| 0 <= k < i + 1 && entries[k].0 == x));
        }
        i = i + 1;
    }
    proof {
        assert(ids@ =~= entry_ids(entries));
    }
    let model = world.get_asset_handle("meshes/cube.glb");
    let ghost m = handle_at(w0.asset_map(), default_model_path());
    let ghost mut ws: Seq<World<A, R>> = seq![w0];
    let mut i: usize = 0;
    while i < n
        invariant
            world.wf(),
            n == snapshot.entities@.len(),
            entries == snapshot.entries_view(),
            i <= n,
            model == m,
            ws.len() == i + 1,
            ws[0] == w0,
            ws[i as int] == *world,
            forall|k: int|
                #![trigger entries[k]]
                0 <= k < i ==> entry_applied(ws[k], ws[k + 1], entries[k].0, entries[k].1, regs@, m),
            world.spawn_capacity() >= n - i,
            world.resources() == w0.resources(),
            world.asset_map() == w0.asset_map(),
        decreases n - i,
    {
        apply_entry(world, &snapshot.entities[i], regs, model);
        proof {
            ws = ws.push(*world);
            assert(entries[i as int] == (snapshot.entities@[i as int].network_id, snapshot.entities@[i as int].components_view()));
        }
        i = i + 1;
    }
    despawn_stale(world, &ids);
    proof {
        assert(snapshot_applied(w0, ws, *world, entries, regs@));
    }
}

/// After a snapshot is applied, every live networked entity carries an id the snapshot names.
pub proof fn lemma_applied_only_named_ids<A, R>(
    w0: World<A, R>,
    ws: Seq<World<A, R>>,
    w1: World<A, R>,
    entries: Seq<(u64, Seq<(Seq<char>, Seq<u8>)>)>,
    regs: Seq<ComponentRegistration>,
    e: Entity,
)
    requires
        snapshot_applied(w0, ws, w1, entries, regs),
        w1.view().contains_key(e),
        is_networked(w1.view()[e]),
    ensures
        entry_ids(entries).contains(network_id_of(w1.view()[e])),
{
    let wn = ws[entries.len() as int];
    assert(w1.view().contains_key(e));
    assert(wn.view().contains_key(e) && !is_stale(wn.view()[e], entry_ids(entries)));
}

/// No two registrations share a name or a type.
pub open spec fn unique_registrations(regs: Seq<ComponentRegistration>) -> bool {
    forall|i: int, j: int|
        0 <= i < regs.len() && 0 <= j < regs.len() && i != j ==> regs[i].name@ != regs[j].name@
            && regs[i].type_id != regs[j].type_id
}

/// Under unique registrations, the registration of a registered type is found again by its
/// name.
proof fn lemma_name_of_type(regs: Seq<ComponentRegistration>, t: ComponentTypeId, i: int)
    requires
        unique_registrations(regs),
        0 <= i < regs.len(),
        regs[i].type_id == t,
    ensures
        first_with_type(regs, t) == Some(i),
        first_with_name(regs, regs[i].name@) == Some(i),
{
    lemma_first_with_type(regs, t, i);
    lemma_first_with_name(regs, regs[i].name@, i);
}

/// A registered component survives replication: serializing a component map and decoding
/// the entries over any starting components gives back each registered data component.
pub proof fn lemma_replicated_component_restored<A>(
    comps: Map<ComponentTypeId, Component<A>>,
    sig: Seq<ComponentTypeId>,
    regs: Seq<ComponentRegistration>,
    base: Map<ComponentTypeId, ComponentView<A>>,
    t: ComponentTypeId,
)
    requires
        unique_registrations(regs),
        sig.contains(t),
        exists|i: int| 0 <= i < regs.len() && regs[i].type_id == t,
        comps[t] is Data,
        comps[t]->Data_0.type_id == t,
    ensures
        decode_into(base, encode_components(comps, sig, regs), regs).contains_key(t),
        decode_into(base, encode_components(comps, sig, regs), regs)[t] == comps[t].deep(),
    decreases sig.len(),
{
    let sp = sig.drop_last();
    let last = sig.last();
    let rest = encode_components(comps, sp, regs);
    let i = choose|i: int| 0 <= i < regs.len() && regs[i].type_id == t;
    lemma_name_of_type(regs, t, i);
    if last == t {
        let d = comps[t]->Data_0;
        let cs = rest.push((regs[i].name@, d.bytes@));
        assert(cs.drop_last() =~= rest);
        assert(encode_components(comps, sig, regs) == cs);
    } else {
        assert(sp.contains(t)) by {
            let k = choose|k: int| 0 <= k < sig.len() && sig[k] == t;
            assert(k != sig.len() - 1);
            assert(sp[k] == t);
        }
        lemma_replicated_component_restored(comps, sp, regs, base, t);
        match first_with_type(regs, last) {
            Some(j) => match comps[last] {
                Component::Data(d) => {
                    let cs = rest.push((regs[j].name@, d.bytes@));
                    assert(cs.drop_last() =~= rest);
                    let k = choose|k: int|
                        0 <= k < regs.len() && regs[k].type_id == last && forall|q: int|
                            0 <= q < k ==> regs[q].type_id != last;
                    lemma_name_of_type(regs, last, k);
                    assert(regs[k].type_id != t);
                },
                _ => {},
            },
            None => {},
        }
    }
}

/// Replication round trip: on the client, the entity that a snapshot entry lands on ends
/// that step with every registered data component of the server entity the entry was built
/// from.
pub proof fn lemma_snapshot_round_trip<A, R>(
    server: World<A, R>,
    s: Snapshot,
    regs: Seq<ComponentRegistration>,
    k: int,
    client0: World<A, R>,
    client1: World<A, R>,
    model: Option<Handle<A>>,
    t: ComponentTypeId,
)
    requires
        server.wf(),
        unique_registrations(regs),
        snapshot_of(server, s, regs),
        0 <= k < s.entities@.len(),
        entry_applied(
            client0,
            client1,
            s.entities@[k].network_id,
            s.entities@[k].components_view(),
            regs,
            model,
        ),
        server.view()[networked_only(server, networked_query_order(server))[k]].contains_key(t),
        server.view()[networked_only(server, networked_query_order(server))[k]][t] is Data,
        exists|i: int| 0 <= i < regs.len() && regs[i].type_id == t,
    ensures
        exists|e: Entity|
            #[trigger] entry_target(client0, e, s.entities@[k].network_id)
                && client1.deep_view().contains_key(e) && client1.deep_view()[e].contains_key(t)
                && client1.deep_view()[e][t] == server.view()[networked_only(
                server,
                networked_query_order(server),
            )[k]][t].deep(),
{
    let nets = networked_only(server, networked_query_order(server));
    let x = nets[k];
    let comps = server.view()[x];
    assert(server.view().contains_key(x)) by {
        let p = |e: Entity| server.view().contains_key(e) && is_networked(server.view()[e]);
        networked_query_order(server).lemma_filter_pred(p, k);
    }
    server.lemma_component_type(x, t);
    let sig = choose|sig: Seq<ComponentTypeId>|
        in_type_order(comps, sig) && s.entities@[k].components_view() == encode_components(
            comps,
            sig,
            regs,
        );
    let id = s.entities@[k].network_id;
    let cs = s.entities@[k].components_view();
    let e = choose|e: Entity|
        #[trigger] entry_target(client0, e, id) && client1.deep_view() == client0.deep_view().insert(
            e,
            with_default_model(decode_into(entry_base(client0, e, id), cs, regs), model),
        );
    lemma_replicated_component_restored(comps, sig, regs, entry_base(client0, e, id), t);
}

/// Whether a deep component map carries the networked marker under `id`.
pub open spec fn marked<A>(comps: Map<ComponentTypeId, ComponentView<A>>, id: u64) -> bool {
    comps.contains_key(NETWORKED_TYPE_ID) && comps[NETWORKED_TYPE_ID] == ComponentView::<A>::Networked(id)
}

/// An entity carries a network id exactly when its deep view holds that marker.
proof fn lemma_carries_deep<A, R>(w: World<A, R>, e: Entity, id: u64)
    ensures
        carries_id(w, e, id) <==> (w.deep_view().contains_key(e) && marked(w.deep_view()[e], id)),
{
    if w.view().contains_key(e) {
        assert(w.deep_view()[e] == deep_components(w.view()[e]));
        if w.view()[e].contains_key(NETWORKED_TYPE_ID) {
            assert(w.deep_view()[e][NETWORKED_TYPE_ID] == w.view()[e][NETWORKED_TYPE_ID].deep());
        }
    }
}

/// The entity found for an id carries it.
proof fn lemma_first_carrying_carries<A, R>(w: World<A, R>, id: u64)
    ensures
        first_carrying(w, id) matches Some(x) ==> carries_id(w, x, id),
{
    if exists|k: int| first_carrying_at(w, id, k) {
        let k = choose|k: int| first_carrying_at(w, id, k);
        assert(first_carrying_at(w, id, k));
    }
}

/// The first registration with a name lies in range and has that name.
proof fn lemma_first_with_name_found(regs: Seq<ComponentRegistration>, name: Seq<char>)
    ensures
        first_with_name(regs, name) matches Some(i) ==> 0 <= i < regs.len() && regs[i].name@ == name,
{
    if exists|i: int| 0 <= i < regs.len() && regs[i].name@ == name {
        let i = choose|i: int| 0 <= i < regs.len() && regs[i].name@ == name;
        lemma_least_named(regs, name, i);
    }
}

proof fn lemma_least_named(regs: Seq<ComponentRegistration>, name: Seq<char>, i: int)
    requires
        0 <= i < regs.len(),
        regs[i].name@ == name,
    ensures
        exists|k: int|
            0 <= k < regs.len() && regs[k].name@ == name && forall|j: int| 0 <= j < k ==> regs[j].name@ != name,
    decreases i,
{
    if exists|j: int| 0 <= j < i && regs[j].name@ == name {
        let j = choose|j: int| 0 <= j < i && regs[j].name@ == name;
        lemma_least_named(regs, name, j);
    } else {
        assert(forall|j: int| 0 <= j < i ==> regs[j].name@ != name);
    }
}

/// Decoding leaves a type that nothing is registered under as it was.
proof fn lemma_decode_keeps_unregistered<A>(
    base: Map<ComponentTypeId, ComponentView<A>>,
    cs: Seq<(Seq<char>, Seq<u8>)>,
    regs: Seq<ComponentRegistration>,
    q: ComponentTypeId,
)
    requires
        forall|i: int| 0 <= i < regs.len() ==> #[trigger] regs[i].type_id != q,
    ensures
        decode_into(base, cs, regs).contains_key(q) == base.contains_key(q),
        base.contains_key(q) ==> decode_into(base, cs, regs)[q] == base[q],
    decreases cs.len(),
{
    if cs.len() > 0 {
        lemma_decode_keeps_unregistered(base, cs.drop_last(), regs, q);
        lemma_first_with_name_found(regs, cs.last().0);
        match first_with_name(regs, cs.last().0) {
            Some(i) => {
                assert(regs[i].type_id != q);
            },
            None => {},
        }
    }
}

/// An entry for another id leaves an entity marked with `id_e` untouched.
proof fn lemma_entry_keeps_other<A, R>(
    w0: World<A, R>,
    w1: World<A, R>,
    id: u64,
    cs: Seq<(Seq<char>, Seq<u8>)>,
    regs: Seq<ComponentRegistration>,
    model: Option<Handle<A>>,
    e: Entity,
    id_e: u64,
)
    requires
        entry_applied(w0, w1, id, cs, regs, model),
        w0.deep_view().contains_key(e),
        marked(w0.deep_view()[e], id_e),
        id_e != id,
    ensures
        w1.deep_view().contains_key(e),
        w1.deep_view()[e] == w0.deep_view()[e],
{
    let x = choose|x: Entity|
        #[trigger] entry_target(w0, x, id) && w1.deep_view() == w0.deep_view().insert(
            x,
            with_default_model(decode_into(entry_base(w0, x, id), cs, regs), model),
        );
    lemma_first_carrying_carries(w0, id);
    lemma_carries_deep(w0, x, id);
    assert(w0.deep_view().contains_key(e) == w0.view().contains_key(e));
    assert(x != e);
}

/// The entity an entry for `id` lands on carries `id` afterwards.
proof fn lemma_entry_marks_target<A, R>(
    w0: World<A, R>,
    w1: World<A, R>,
    id: u64,
    cs: Seq<(Seq<char>, Seq<u8>)>,
    regs: Seq<ComponentRegistration>,
    model: Option<Handle<A>>,
    x: Entity,
)
    requires
        forall|i: int| 0 <= i < regs.len() ==> #[trigger] regs[i].type_id != NETWORKED_TYPE_ID,
        entry_target(w0, x, id),
        w1.deep_view() == w0.deep_view().insert(
            x,
            with_default_model(decode_into(entry_base(w0, x, id), cs, regs), model),
        ),
    ensures
        w1.deep_view().contains_key(x),
        marked(w1.deep_view()[x], id),
{
    lemma_first_carrying_carries(w0, id);
    lemma_carries_deep(w0, x, id);
    let base = entry_base(w0, x, id);
    assert(marked(base, id)) by {
        if !w0.view().contains_key(x) {
            assert(base == map![NETWORKED_TYPE_ID => ComponentView::<A>::Networked(id)]);
        }
    }
    lemma_decode_keeps_unregistered(base, cs, regs, NETWORKED_TYPE_ID);
}

/// Entries after the `k`-th, all for other ids, leave the `k`-th entry's entity as it was.
proof fn lemma_kept_through<A, R>(
    ws: Seq<World<A, R>>,
    entries: Seq<(u64, Seq<(Seq<char>, Seq<u8>)>)>,
    regs: Seq<ComponentRegistration>,
    model: Option<Handle<A>>,
    k: int,
    e: Entity,
    j: int,
)
    requires
        0 <= k < entries.len(),
        k + 1 <= j <= entries.len(),
        ws.len() == entries.len() + 1,
        forall|m: int|
            #![trigger entries[m]]
            0 <= m < entries.len() ==> entry_applied(ws[m], ws[m + 1], entries[m].0, entries[m].1, regs, model),
        forall|m: int| 0 <= m < entries.len() && m != k ==> #[trigger] entries[m].0 != entries[k].0,
        ws[k + 1].deep_view().contains_key(e),
        marked(ws[k + 1].deep_view()[e], entries[k].0),
    ensures
        ws[j].deep_view().contains_key(e),
        ws[j].deep_view()[e] == ws[k + 1].deep_view()[e],
    decreases j - k,
{
    if j > k + 1 {
        lemma_kept_through(ws, entries, regs, model, k, e, j - 1);
        let m = j - 1;
        assert(entries[m].0 != entries[k].0);
        assert(entry_applied(ws[m], ws[m + 1], entries[m].0, entries[m].1, regs, model));
        lemma_entry_keeps_other(ws[m], ws[m + 1], entries[m].0, entries[m].1, regs, model, e, entries[k].0);
    }
}

/// Replication round trip over a whole snapshot: after a client applies a snapshot whose
/// entries carry distinct network ids, and no registration claims the networked marker's
/// type, the client has an entity marked with each entry's id holding every registered data
/// component of the server entity that entry was built from.
pub proof fn lemma_snapshot_applied_round_trip<A, R>(
    server: World<A, R>,
    s: Snapshot,
    regs: Seq<ComponentRegistration>,
    k: int,
    t: ComponentTypeId,
    client0: World<A, R>,
    ws: Seq<World<A, R>>,
    client1: World<A, R>,
)
    requires
        server.wf(),
        unique_registrations(regs),
        forall|i: int| 0 <= i < regs.len() ==> #[trigger] regs[i].type_id != NETWORKED_TYPE_ID,
        snapshot_of(server, s, regs),
        forall|i: int, j: int|
            0 <= i < s.entities@.len() && 0 <= j < s.entities@.len() && i != j
                ==> s.entities@[i].network_id != s.entities@[j].network_id,
        snapshot_applied(client0, ws, client1, s.entries_view(), regs),
        0 <= k < s.entities@.len(),
        server.view()[networked_only(server, networked_query_order(server))[k]].contains_key(t),
        server.view()[networked_only(server, networked_query_order(server))[k]][t] is Data,
        exists|i: int| 0 <= i < regs.len() && regs[i].type_id == t,
    ensures
        exists|e: Entity|
            #![trigger client1.deep_view()[e]]
            client1.deep_view().contains_key(e) && marked(client1.deep_view()[e], s.entities@[k].network_id)
                && client1.deep_view()[e].contains_key(t)
                && client1.deep_view()[e][t] == server.view()[networked_only(
                server,
                networked_query_order(server),
            )[k]][t].deep(),
{
    let entries = s.entries_view();
    let n = entries.len() as int;
    let model = handle_at(client0.asset_map(), default_model_path());
    let id = s.entities@[k].network_id;
    assert(entries[k] == (id, s.entities@[k].components_view()));
    assert(entry_applied(ws[k], ws[k + 1], entries[k].0, entries[k].1, regs, model));
    let e = choose|x: Entity|
        #[trigger] entry_target(ws[k], x, id) && ws[k + 1].deep_view() == ws[k].deep_view().insert(
            x,
            with_default_model(decode_into(entry_base(ws[k], x, id), entries[k].1, regs), model),
        );
    lemma_snapshot_round_trip(server, s, regs, k, ws[k], ws[k + 1], model, t);
    let e2 = choose|x: Entity|
        #[trigger] entry_target(ws[k], x, id) && ws[k + 1].deep_view().contains_key(x)
            && ws[k + 1].deep_view()[x].contains_key(t) && ws[k + 1].deep_view()[x][t] == server.view()[networked_only(
            server,
            networked_query_order(server),
        )[k]][t].deep();
    assert(e2 == e);
    lemma_entry_marks_target(ws[k], ws[k + 1], id, entries[k].1, regs, model, e);
    assert forall|m: int| 0 <= m < entries.len() && m != k implies #[trigger] entries[m].0 != entries[k].0 by {
        assert(entries[m].0 == s.entities@[m].network_id);
    }
    lemma_kept_through(ws, entries, regs, model, k, e, n);
    let wn = ws[n];
    lemma_carries_deep(wn, e, id);
    assert(entry_ids(entries).contains(id)) by {
        assert(0 <= k < entries.len() && entries[k].0 == id);
    }
    assert(wn.view().contains_key(e));
    assert(!is_stale(wn.view()[e], entry_ids(entries)));
    assert(client1.view().contains_key(e));
    assert(client1.view()[e] == wn.view()[e]);
    assert(client1.deep_view()[e] == wn.deep_view()[e]);
}

/// After a snapshot with distinct entry ids is applied, some client entity carries the id of
/// each entry.
proof fn lemma_entry_id_kept<A, R>(
    client0: World<A, R>,
    ws: Seq<World<A, R>>,
    client1: World<A, R>,
    entries: Seq<(u64, Seq<(Seq<char>, Seq<u8>)>)>,
    regs: Seq<ComponentRegistration>,
    k: int,
)
    requires
        forall|i: int| 0 <= i < regs.len() ==> #[trigger] regs[i].type_id != NETWORKED_TYPE_ID,
        forall|i: int, j: int|
            0 <= i < entries.len() && 0 <= j < entries.len() && i != j ==> entries[i].0 != entries[j].0,
        snapshot_applied(client0, ws, client1, entries, regs),
        0 <= k < entries.len(),
    ensures
        exists|e: Entity| #[trigger] carries_id(client1, e, entries[k].0),
{
    let n = entries.len() as int;
    let model = handle_at(client0.asset_map(), default_model_path());
    let id = entries[k].0;
    assert(entry_applied(ws[k], ws[k + 1], entries[k].0, entries[k].1, regs, model));
    let e = choose|x: Entity|
        #[trigger] entry_target(ws[k], x, id) && ws[k + 1].deep_view() == ws[k].deep_view().insert(
            x,
            with_default_model(decode_into(entry_base(ws[k], x, id), entries[k].1, regs), model),
        );
    lemma_entry_marks_target(ws[k], ws[k + 1], id, entries[k].1, regs, model, e);
    assert forall|m: int| 0 <= m < entries.len() && m != k implies #[trigger] entries[m].0 != entries[k].0 by {}
    lemma_kept_through(ws, entries, regs, model, k, e, n);
    let wn = ws[n];
    lemma_carries_deep(wn, e, id);
    assert(entry_ids(entries).contains(id)) by {
        assert(0 <= k < entries.len() && entries[k].0 == id);
    }
    assert(!is_stale(wn.view()[e], entry_ids(entries)));
    assert(client1.view().contains_key(e));
    assert(client1.view()[e] == wn.view()[e]);
    assert(carries_id(client1, e, id));
}

/// Replication keeps the set of network ids: after a client applies a snapshot of the server
/// whose entries carry distinct ids, with no registration claiming the networked marker's
/// type, a network id is carried by a live client entity exactly when it is carried by a live
/// server entity.
pub proof fn lemma_snapshot_ids_round_trip<A, R>(
    server: World<A, R>,
    s: Snapshot,
    regs: Seq<ComponentRegistration>,
    client0: World<A, R>,
    ws: Seq<World<A, R>>,
    client1: World<A, R>,
    id: u64,
)
    requires
        server.wf(),
        server.archs().len() <= usize::MAX,
        forall|i: int| 0 <= i < regs.len() ==> #[trigger] regs[i].type_id != NETWORKED_TYPE_ID,
        snapshot_of(server, s, regs),
        forall|i: int, j: int|
            0 <= i < s.entities@.len() && 0 <= j < s.entities@.len() && i != j
                ==> s.entities@[i].network_id != s.entities@[j].network_id,
        snapshot_applied(client0, ws, client1, s.entries_view(), regs),
    ensures
        (exists|e: Entity| #[trigger] carries_id(client1, e, id)) <==> (exists|x: Entity|
            #[trigger] carries_id(server, x, id)),
{
    let entries = s.entries_view();
    let order = networked_query_order(server);
    let nets = networked_only(server, order);
    let p = |e: Entity| server.view().contains_key(e) && is_networked(server.view()[e]);
    assert forall|i: int, j: int|
        0 <= i < entries.len() && 0 <= j < entries.len() && i != j implies entries[i].0 != entries[j].0 by {
        assert(entries[i].0 == s.entities@[i].network_id);
        assert(entries[j].0 == s.entities@[j].network_id);
    }
    if exists|e: Entity| #[trigger] carries_id(client1, e, id) {
        let e = choose|e: Entity| #[trigger] carries_id(client1, e, id);
        lemma_applied_only_named_ids(client0, ws, client1, entries, regs, e);
        let k = choose|k: int| 0 <= k < entries.len() && entries[k].0 == id;
        assert(entries[k].0 == s.entities@[k].network_id);
        order.lemma_filter_pred(p, k);
        assert(carries_id(server, nets[k], id));
    }
    if exists|x: Entity| #[trigger] carries_id(server, x, id) {
        let x = choose|x: Entity| #[trigger] carries_id(server, x, id);
        lemma_query_yields_matching(server, seq![NETWORKED_TYPE_ID], Seq::empty(), Seq::empty(), x);
        assert(entity_matches(server.view()[x], seq![NETWORKED_TYPE_ID], Seq::<ComponentTypeId>::empty(), Seq::<ComponentTypeId>::empty()));
        assert(order.contains(x));
        let i = choose|i: int| 0 <= i < order.len() && order[i] == x;
        order.lemma_filter_contains(p, i);
        assert(nets.contains(x));
        let k = choose|k: int| 0 <= k < nets.len() && nets[k] == x;
        assert(entries[k].0 == s.entities@[k].network_id);
        lemma_entry_id_kept(client0, ws, client1, entries, regs, k);
    }
}

} // verus!
