use vstd::prelude::*;

use crate::ecs::commands::{Command, Commands};
use crate::entity::Entity;

verus! {

/// The editor hierarchy panel's decision for one frame: its spawn button queues the spawn of
/// a new entity, then the entity chosen for deletion, if any, is queued for despawn.
pub fn hierarchy_action<A, R>(commands: &mut Commands<A, R>, spawn_clicked: bool, delete: Option<Entity>)
    ensures
        final(commands).next_reserved() == (if spawn_clicked {
            old(commands).next_reserved().wrapping_add(1)
        } else {
            old(commands).next_reserved()
        }),
        final(commands).queued() == old(commands).queued() + (if spawn_clicked {
            seq![Command::<A, R>::Spawn { entity: Entity { index: old(commands).next_reserved(), generation: 0 } }]
        } else {
            Seq::<Command<A, R>>::empty()
        }) + (match delete {
            Some(e) => seq![Command::<A, R>::Despawn { entity: e }],
            None => Seq::<Command<A, R>>::empty(),
        }),
{
    if spawn_clicked {
        let _e = commands.spawn();
    }
    match delete {
        Some(e) => commands.despawn(e),
        None => {},
    }
}

} // verus!
