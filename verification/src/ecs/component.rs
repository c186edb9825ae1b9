use vstd::prelude::*;

use crate::assets::handle::Handle;
use crate::entity::Entity;

verus! {

/// Identifier of a component type (stands for the type's `TypeId`).
pub type ComponentTypeId = u64;

/// Type identifier of [`Parent`].
pub const PARENT_TYPE_ID: u64 = 1;

/// Type identifier of [`Children`].
pub const CHILDREN_TYPE_ID: u64 = 2;

/// Type identifier of [`Networked`].
pub const NETWORKED_TYPE_ID: u64 = 3;

/// Type identifier of [`ModelRenderer`].
pub const MODEL_RENDERER_TYPE_ID: u64 = 4;

/// Type identifier of [`GameCamera`].
pub const GAME_CAMERA_TYPE_ID: u64 = 5;

/// Type identifier of [`EditorCamera`].
pub const EDITOR_CAMERA_TYPE_ID: u64 = 6;

/// Type identifier of [`IgnoreCollisions`].
pub const IGNORE_COLLISIONS_TYPE_ID: u64 = 7;

/// Type identifier of [`Hi`].
pub const HI_TYPE_ID: u64 = 8;

/// The entity this entity is attached to.
#[derive(Clone, Copy, Debug, PartialEq, Eq, Structural)]
pub struct Parent(pub Entity);

/// The entities attached to this entity, in attachment order.
#[derive(Clone, Debug)]
pub struct Children(pub Vec<Entity>);

/// Marks an entity as replicated over the network under a stable id.
#[derive(Clone, Copy, Debug, PartialEq, Eq, Structural)]
pub struct Networked {
    pub id: u64,
}

/// Draws the model an asset handle refers to.
pub struct ModelRenderer<A> {
    pub model: Handle<A>,
}

/// Any other component: its type and its serialized value.
#[derive(Clone, Debug)]
pub struct ComponentData {
    pub type_id: ComponentTypeId,
    pub bytes: Vec<u8>,
}

/// A component value as stored in the world.
pub enum Component<A> {
    Parent(Parent),
    Children(Children),
    Networked(Networked),
    ModelRenderer(ModelRenderer<A>),
    Data(ComponentData),
}

/// The mathematical value of a component: its variant and contents, lists as sequences.
pub ghost enum ComponentView<A> {
    Parent(Entity),
    Children(Seq<Entity>),
    Networked(u64),
    ModelRenderer(Handle<A>),
    Data(ComponentTypeId, Seq<u8>),
}

impl<A> Component<A> {
    /// The component's value, with its lists seen as sequences.
    pub open spec fn deep(&self) -> ComponentView<A> {
        match self {
            Component::Parent(p) => ComponentView::Parent(p.0),
            Component::Children(c) => ComponentView::Children(c.0@),
            Component::Networked(n) => ComponentView::Networked(n.id),
            Component::ModelRenderer(m) => ComponentView::ModelRenderer(m.model),
            Component::Data(d) => ComponentView::Data(d.type_id, d.bytes@),
        }
    }

    /// The type of the component.
    pub open spec fn spec_type_id(&self) -> ComponentTypeId {
        match self {
            Component::Parent(_) => PARENT_TYPE_ID,
            Component::Children(_) => CHILDREN_TYPE_ID,
            Component::Networked(_) => NETWORKED_TYPE_ID,
            Component::ModelRenderer(_) => MODEL_RENDERER_TYPE_ID,
            Component::Data(d) => d.type_id,
        }
    }

    /// The type of the component.
    pub fn type_id(&self) -> (t: ComponentTypeId)
        ensures
            t == self.spec_type_id(),
    {
        match self {
            Component::Parent(_) => PARENT_TYPE_ID,
            Component::Children(_) => CHILDREN_TYPE_ID,
            Component::Networked(_) => NETWORKED_TYPE_ID,
            Component::ModelRenderer(_) => MODEL_RENDERER_TYPE_ID,
            Component::Data(d) => d.type_id,
        }
    }
}

/// Marks the camera a game renders through.
#[derive(Clone, Copy, Debug, PartialEq, Eq, Structural)]
pub struct GameCamera;

/// Marks the editor's fly camera.
#[derive(Clone, Copy, Debug, PartialEq, Eq, Structural)]
pub struct EditorCamera;

/// Marks an entity that collision handling skips.
#[derive(Clone, Copy, Debug, PartialEq, Eq, Structural)]
pub struct IgnoreCollisions;

/// A test marker component.
#[derive(Clone, Copy, Debug, PartialEq, Eq, Structural)]
pub struct Hi;

/// A value-less component of the given type.
pub fn marker_component<A>(type_id: ComponentTypeId) -> (c: Component<A>)
    ensures
        c == Component::<A>::Data(ComponentData { type_id, bytes: c->Data_0.bytes }),
        c->Data_0.bytes@.len() == 0,
{
    Component::Data(ComponentData { type_id, bytes: Vec::new() })
}

impl GameCamera {
    pub fn component<A>(&self) -> (c: Component<A>)
        ensures
            c.spec_type_id() == GAME_CAMERA_TYPE_ID,
            c is Data && c->Data_0.bytes@.len() == 0,
    {
        marker_component(GAME_CAMERA_TYPE_ID)
    }
}

impl EditorCamera {
    pub fn component<A>(&self) -> (c: Component<A>)
        ensures
            c.spec_type_id() == EDITOR_CAMERA_TYPE_ID,
            c is Data && c->Data_0.bytes@.len() == 0,
    {
        marker_component(EDITOR_CAMERA_TYPE_ID)
    }
}

impl IgnoreCollisions {
    pub fn component<A>(&self) -> (c: Component<A>)
        ensures
            c.spec_type_id() == IGNORE_COLLISIONS_TYPE_ID,
            c is Data && c->Data_0.bytes@.len() == 0,
    {
        marker_component(IGNORE_COLLISIONS_TYPE_ID)
    }
}

impl Hi {
    pub fn component<A>(&self) -> (c: Component<A>)
        ensures
            c.spec_type_id() == HI_TYPE_ID,
            c is Data && c->Data_0.bytes@.len() == 0,
    {
        marker_component(HI_TYPE_ID)
    }
}

} // verus!
