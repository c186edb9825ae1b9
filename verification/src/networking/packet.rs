use vstd::prelude::*;

use crate::ecs::component_registry::ComponentRegistration;
use crate::ecs::world::World;
use crate::networking::snapshot::{apply_snapshot, snapshot_applied, Snapshot};

verus! {

/// Unreliable channel carrying snapshot broadcasts from server to client.
pub const SNAPSHOT_CHANNEL: u8 = 0;

/// Reliable ordered channel carrying client to server messages.
pub const INPUT_CHANNEL: u8 = 2;

/// Stable numeric id of the `MoveTo` packet.
pub const MOVE_TO_PACKET_ID: u32 = 1;

/// A message with a stable numeric id.
pub trait Packet {
    fn id() -> u32;
}

/// Describes something the server is sending to a client.
pub enum ServerMessage {
    /// The authoritative state of all networked entities.
    Snapshot(Snapshot),
}

/// The little-endian bytes of `x`.
pub open spec fn le_bytes_u32(x: u32) -> Seq<u8> {
    seq![
        (x % 256) as u8,
        ((x / 256) % 256) as u8,
        ((x / 65536) % 256) as u8,
        ((x / 16777216) % 256) as u8,
    ]
}

/// Frames a serialized packet for sending: its id in little-endian order, then the payload.
pub fn frame_packet(id: u32, payload: &Vec<u8>) -> (frame: Vec<u8>)
    ensures
        frame@ == le_bytes_u32(id) + payload@,
{
    let mut frame: Vec<u8> = Vec::new();
    frame.push((id % 256) as u8);
    frame.push(((id / 256) % 256) as u8);
    frame.push(((id / 65536) % 256) as u8);
    frame.push(((id / 16777216) % 256) as u8);
    let mut i: usize = 0;
    while i < payload.len()
        invariant
            i <= payload@.len(),
            frame@ == le_bytes_u32(id) + payload@.take(i as int),
        decreases payload@.len() - i,
    {
        frame.push(payload[i]);
        i = i + 1;
        assert(frame@ =~= le_bytes_u32(id) + payload@.take(i as int));
    }
    assert(payload@.take(payload@.len() as int) =~= payload@);
    frame
}

/// Acts on a message from the server: a snapshot is applied to the world.
pub fn handle_server_message<A, R>(
    world: &mut World<A, R>,
    message: ServerMessage,
    regs: &Vec<ComponentRegistration>,
)
    requires
        old(world).wf(),
        message matches ServerMessage::Snapshot(s) ==> old(world).spawn_capacity()
            >= s.entities@.len(),
    ensures
        final(world).wf(),
        match message {
            ServerMessage::Snapshot(s) => exists|ws: Seq<World<A, R>>|
                snapshot_applied(*old(world), ws, *final(world), s.entries_view(), regs@),
        },
        final(world).resources() == old(world).resources(),
        final(world).asset_map() == old(world).asset_map(),
{
    match message {
        ServerMessage::Snapshot(snapshot) => apply_snapshot(world, snapshot, regs),
    }
}

/// The number four little-endian bytes stand for.
pub open spec fn le_value_u32(b: Seq<u8>) -> int {
    b[0] + 256 * b[1] + 65536 * b[2] + 16777216 * b[3]
}

/// A frame's first four bytes give back the packet id, and the rest is the payload.
pub proof fn lemma_frame_roundtrip(id: u32, payload: Seq<u8>)
    ensures
        le_value_u32((le_bytes_u32(id) + payload).take(4)) == id,
        (le_bytes_u32(id) + payload).skip(4) == payload,
{
    let f = le_bytes_u32(id) + payload;
    assert(f.take(4) =~= le_bytes_u32(id));
    assert(f.skip(4) =~= payload);
    assert(id % 256 + 256 * ((id / 256) % 256) + 65536 * ((id / 65536) % 256) + 16777216 * ((id
        / 16777216) % 256) == id) by (bit_vector);
}

} // verus!
