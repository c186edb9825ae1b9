use vstd::prelude::*;

use crate::assets::handle::Handle;
use crate::ecs::resources::{ResourceError, ResourceTypeId};
use crate::ecs::world::World;

verus! {

/// Shared access to one resource of the world, for a system.
pub struct Res<'w, R> {
    value: &'w R,
}

impl<'w, R> Res<'w, R> {
    /// The resource held.
    pub closed spec fn spec_value(&self) -> R {
        *self.value
    }

    /// Borrows the resource of type `t`, or says it is missing.
    pub fn fetch<A>(world: &'w World<A, R>, t: ResourceTypeId) -> (r: Result<Self, ResourceError>)
        requires
            world.wf(),
        ensures
            match r {
                Ok(res) => world.resources().contains_key(t) && world.resources()[t]
                    == res.spec_value(),
                Err(e) => !world.resources().contains_key(t) && e == ResourceError::Missing(t),
            },
    {
        match world.get_resource(t) {
            Ok(value) => Ok(Res { value }),
            Err(e) => Err(e),
        }
    }

    /// The resource.
    pub fn get(&self) -> (r: &R)
        ensures
            *r == self.spec_value(),
    {
        self.value
    }
}

/// Read access to the assets of a world, for a system.
pub struct Assets<'w, A, R> {
    world: &'w World<A, R>,
}

impl<'w, A, R> Assets<'w, A, R> {
    /// The world read.
    pub closed spec fn spec_world(&self) -> World<A, R> {
        *self.world
    }

    /// Read access to `world`'s assets.
    pub fn fetch(world: &'w World<A, R>) -> (r: Self)
        ensures
            r.spec_world() == *world,
    {
        Assets { world }
    }

    /// The asset `handle` refers to, if it is still live.
    pub fn get(&self, handle: Handle<A>) -> (r: Option<&A>)
        requires
            self.spec_world().wf(),
        ensures
            match r {
                Some(v) => self.spec_world().asset_map().spec_get(handle) == Some(*v),
                None => self.spec_world().asset_map().spec_get(handle) is None,
            },
    {
        self.world.get_asset(handle)
    }

    /// The handle of the asset registered under `path`.
    pub fn get_handle(&self, path: &str) -> (r: Option<Handle<A>>)
        requires
            self.spec_world().wf(),
        ensures
            r == (if self.spec_world().asset_map().paths().contains_key(path@) {
                let i = self.spec_world().asset_map().paths()[path@];
                Some(
                    Handle::<A> {
                        index: i,
                        generation: self.spec_world().asset_map().slots()[i as int].generation,
                        _marker: std::marker::PhantomData,
                    },
                )
            } else {
                None::<Handle<A>>
            }),
    {
        self.world.get_asset_handle(path)
    }
}

} // verus!
