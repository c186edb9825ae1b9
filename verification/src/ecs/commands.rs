use vstd::prelude::*;

use crate::ecs::component::{Component, ComponentTypeId};
use crate::ecs::resources::ResourceTypeId;
use crate::ecs::world::{attached, detached, index_in_use, World};
use crate::entity::Entity;

verus! {

/// A deferred change to the world.
pub enum Command<A, R> {
    Spawn { entity: Entity },
    AddComponent { entity: Entity, component: Component<A> },
    RemoveComponent { entity: Entity, type_id: ComponentTypeId },
    Despawn { entity: Entity },
    AddResource { resource_type: ResourceTypeId, resource: R },
    RemoveResource { resource_type: ResourceTypeId },
    SetParent { child: Entity, parent: Option<Entity> },
}

/// `w1` is `w0` after `c` was carried out.
pub open spec fn command_applied<A, R>(w0: World<A, R>, w1: World<A, R>, c: Command<A, R>) -> bool {
    &&& w1.asset_map() == w0.asset_map()
    &&& match c {
        Command::Spawn { entity } => {
            &&& w1.view() == (if index_in_use(w0.view(), entity.index) {
                w0.view()
            } else {
                w0.view().insert(entity, Map::empty())
            })
            &&& w1.resources() == w0.resources()
        },
        Command::AddComponent { entity, component } => {
            &&& w1.view() == (if w0.view().contains_key(entity) {
                w0.view().insert(entity, w0.view()[entity].insert(component.spec_type_id(), component))
            } else {
                w0.view()
            })
            &&& w1.resources() == w0.resources()
        },
        Command::RemoveComponent { entity, type_id } => {
            &&& w1.view() == (if w0.view().contains_key(entity) {
                w0.view().insert(entity, w0.view()[entity].remove(type_id))
            } else {
                w0.view()
            })
            &&& w1.resources() == w0.resources()
        },
        Command::Despawn { entity } => {
            &&& w1.view() == w0.view().remove(entity)
            &&& w1.resources() == w0.resources()
        },
        Command::AddResource { resource_type, resource } => {
            &&& w1.view() == w0.view()
            &&& w1.resources() == w0.resources().insert(resource_type, resource)
        },
        Command::RemoveResource { resource_type } => {
            &&& w1.view() == w0.view()
            &&& w1.resources() == w0.resources().remove(resource_type)
        },
        Command::SetParent { child, parent } => {
            &&& exists|v1: Map<Entity, Map<ComponentTypeId, Component<A>>>|
                detached(w0.view(), v1, child) && attached(v1, w1.view(), child, parent)
            &&& w1.resources() == w0.resources()
        },
    }
}

/// Whether every spawn in `cs` has an index below the largest one.
pub open spec fn spawns_fit<A, R>(cs: Seq<Command<A, R>>) -> bool {
    forall|k: int|
        0 <= k < cs.len() ==> (#[trigger] cs[k] matches Command::Spawn { entity } ==> entity.index
            < u32::MAX)
}

/// Changes queued for the world, carried out in order by [`Commands::apply`].
pub struct Commands<A, R> {
    next_index: u32,
    queue: Vec<Command<A, R>>,
}

impl<A, R> Commands<A, R> {
    /// The queued commands, oldest first.
    pub closed spec fn queued(&self) -> Seq<Command<A, R>> {
        self.queue@
    }

    /// The next entity index a spawn reserves.
    pub closed spec fn next_reserved(&self) -> u32 {
        self.next_index
    }

    /// An empty queue whose spawns reserve entity indices from `counter` on. The queue keeps
    /// its own copy of the counter: a spawn made directly on the world before the queue is
    /// applied may take a reserved index, and the queued spawn of that index is then skipped
    /// (see [`crate::ecs::world::World::spawn_reserved`]).
    pub fn new(counter: u32) -> (c: Self)
        ensures
            c.queued() == Seq::<Command<A, R>>::empty(),
            c.next_reserved() == counter,
    {
        Commands { next_index: counter, queue: Vec::new() }
    }

    /// Reserves a new entity (generation 0 at the next index) and queues its spawn.
    pub fn spawn(&mut self) -> (e: Entity)
        ensures
            e == (Entity { index: old(self).next_reserved(), generation: 0 }),
            final(self).next_reserved() == old(self).next_reserved().wrapping_add(1),
            final(self).queued() == old(self).queued().push(Command::Spawn { entity: e }),
    {
        let index = self.next_index;
        self.next_index = self.next_index.wrapping_add(1);
        let entity = Entity { index, generation: 0 };
        self.queue.push(Command::Spawn { entity });
        entity
    }

    /// Queues adding `component` to `entity`.
    pub fn add_component(&mut self, entity: Entity, component: Component<A>)
        ensures
            final(self).next_reserved() == old(self).next_reserved(),
            final(self).queued() == old(self).queued().push(
                Command::AddComponent { entity, component },
            ),
    {
        self.queue.push(Command::AddComponent { entity, component });
    }

    /// Queues removing the component of type `type_id` from `entity`.
    pub fn remove_component(&mut self, entity: Entity, type_id: ComponentTypeId)
        ensures
            final(self).next_reserved() == old(self).next_reserved(),
            final(self).queued() == old(self).queued().push(
                Command::RemoveComponent { entity, type_id },
            ),
    {
        self.queue.push(Command::RemoveComponent { entity, type_id });
    }

    /// Queues despawning `entity`.
    pub fn despawn(&mut self, entity: Entity)
        ensures
            final(self).next_reserved() == old(self).next_reserved(),
            final(self).queued() == old(self).queued().push(Command::Despawn { entity }),
    {
        self.queue.push(Command::Despawn { entity });
    }

    /// Queues adding (or replacing) the resource of type `type_id`.
    pub fn add_resource(&mut self, type_id: ResourceTypeId, resource: R)
        ensures
            final(self).next_reserved() == old(self).next_reserved(),
            final(self).queued() == old(self).queued().push(
                Command::AddResource { resource_type: type_id, resource },
            ),
    {
        self.queue.push(Command::AddResource { resource_type: type_id, resource });
    }

    /// Queues removing the resource of type `type_id`.
    pub fn remove_resource(&mut self, type_id: ResourceTypeId)
        ensures
            final(self).next_reserved() == old(self).next_reserved(),
            final(self).queued() == old(self).queued().push(
                Command::RemoveResource { resource_type: type_id },
            ),
    {
        self.queue.push(Command::RemoveResource { resource_type: type_id });
    }

    /// Queues re-parenting `child` under `parent` (or detaching it).
    pub fn set_parent(&mut self, child: Entity, parent: Option<Entity>)
        ensures
            final(self).next_reserved() == old(self).next_reserved(),
            final(self).queued() == old(self).queued().push(Command::SetParent { child, parent }),
    {
        self.queue.push(Command::SetParent { child, parent });
    }

    /// Queues detaching `child` from its parent.
    pub fn clear_parent(&mut self, child: Entity)
        ensures
            final(self).next_reserved() == old(self).next_reserved(),
            final(self).queued() == old(self).queued().push(
                Command::SetParent { child, parent: None },
            ),
    {
        self.set_parent(child, None);
    }

    /// Carries out the queued commands on `world`, oldest first.
    pub fn apply(self, world: &mut World<A, R>)
        requires
            old(world).wf(),
            spawns_fit(self.queued()),
        ensures
            final(world).wf(),
            exists|ws: Seq<World<A, R>>|
                {
                    &&& ws.len() == self.queued().len() + 1
                    &&& ws[0] == *old(world)
                    &&& ws[self.queued().len() as int] == *final(world)
                    &&& forall|k: int|
                        #![trigger self.queued()[k]]
                        0 <= k < self.queued().len() ==> command_applied(
                            ws[k],
                            ws[k + 1],
                            self.queued()[k],
                        )
                },
    {
        let ghost cs = self.queued();
        let ghost mut ws: Seq<World<A, R>> = seq![*world];
        let mut queue = self.queue;
        let n = queue.len();
        let mut i: usize = 0;
        while queue.len() > 0
            invariant
                world.wf(),
                n == cs.len(),
                i <= n,
                queue@ == cs.skip(i as int),
                spawns_fit(cs),
                ws.len() == i + 1,
                ws[0] == *old(world),
                ws[i as int] == *world,
                forall|k: int|
                    #![trigger cs[k]]
                    0 <= k < i ==> command_applied(ws[k], ws[k + 1], cs[k]),
            decreases queue@.len(),
        {
            let command = queue.remove(0);
            proof {
                assert(cs[i as int] == command);
            }
            match command {
                Command::Spawn { entity } => world.spawn_reserved(entity),
                Command::AddComponent { entity, component } => world.insert_component(
                    entity,
                    component,
                ),
                Command::RemoveComponent { entity, type_id } => world.remove_component_by_type_id(
                    entity,
                    type_id,
                ),
                Command::Despawn { entity } => {
                    world.despawn(entity);
                },
                Command::AddResource { resource_type, resource } => world.add_resource(
                    resource_type,
                    resource,
                ),
                Command::RemoveResource { resource_type } => {
                    world.remove_resource(resource_type);
                },
                Command::SetParent { child, parent } => world.set_parent(child, parent),
            }
            proof {
                ws = ws.push(*world);
                assert(queue@ =~= cs.skip(i + 1));
            }
            i = i + 1;
        }
        proof {
            assert(cs.skip(i as int).len() == 0);
        }
    }
}

} // verus!
