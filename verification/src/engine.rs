use vstd::prelude::*;

use crate::ecs::resources::ResourceTypeId;
use crate::ecs::world::World;

verus! {

/// The engine: the world everything lives in.
pub struct Engine<A, R> {
    pub ecs_world: World<A, R>,
}

impl<A, R> Engine<A, R> {
    /// An engine whose world holds only the input manager resource `input`, stored under
    /// `input_type`.
    pub fn new(input_type: ResourceTypeId, input: R) -> (e: Self)
        ensures
            e.ecs_world.wf(),
            e.ecs_world.view() == Map::<
                crate::entity::Entity,
                Map<crate::ecs::component::ComponentTypeId, crate::ecs::component::Component<A>>,
            >::empty(),
            e.ecs_world.resources() == Map::<u64, R>::empty().insert(input_type, input),
    {
        let mut ecs_world = World::new();
        ecs_world.add_resource(input_type, input);
        Engine { ecs_world }
    }
}

} // verus!
