//! The wire's vocabulary as this server speaks it: the protocol's published numbers, the status
//! codes of the client library, and the messages whose fields are all integers. Fields that the
//! wire carries as binary32 floats are held here as their IEEE-754 bit patterns, because what
//! the rules of record do with them is carry them, never compute with them.

use vstd::prelude::*;

verus! {

/// `LNK_PROTOCOL_VERSION` as this server was built. The handshake carries the fingerprint, not
/// this number; the number exists for logs and refusals.
pub const PROTOCOL_VERSION: u32 = 5;

/// `LNK_DEFAULT_PORT`: where Master Control listens when nobody names another port.
pub const DEFAULT_PORT: u16 = 30_702;

/// `LNK_KEEPALIVE_PING_MILLIS`: heard nothing for this long - send a PING.
pub const KEEPALIVE_PING_MILLIS: u64 = 1_000;

/// `LNK_KEEPALIVE_DEAD_MILLIS`: heard nothing for this long - the peer is dead, reap it.
pub const KEEPALIVE_DEAD_MILLIS: u64 = 10_000;

/// `LNK_ACTIONS_REPEAT_TICKS`: how long a connected host's last accepted intent is re-applied
/// when its ACTIONS are merely missing, before zeroed coast.
pub const ACTIONS_REPEAT_TICKS: u32 = 1;

/// `LNK_TICK_STATE_MAX_CREATURES`: the most creatures one TICK_STATE may carry.
pub const TICK_STATE_MAX_CREATURES: u32 = 256;

pub const MSG_HELLO: u8 = 1;
pub const MSG_WELCOME: u8 = 2;
pub const MSG_REZ: u8 = 3;
pub const MSG_TICK_STATE: u8 = 4;
pub const MSG_ACTIONS: u8 = 5;
pub const MSG_EVENT: u8 = 6;
pub const MSG_DEREZ: u8 = 7;
pub const MSG_PING: u8 = 8;
pub const MSG_PONG: u8 = 9;
pub const MSG_BYE: u8 = 10;
pub const MSG_PROPRIOCEPTION: u8 = 11;

pub const ROLE_SPECTATOR: u8 = 1;
pub const ROLE_CREATURE_HOST: u8 = 2;

pub const EVENT_VOCALISATION: u8 = 1;

/// `LNK_REZ_MAX_*`: the three caps of the one variable-size client input.
pub const REZ_MAX_VERTICES: u32 = 1_024;
pub const REZ_MAX_TRIANGLES: u32 = 2_048;
pub const REZ_MAX_MATERIALS: u32 = 16;

/// `LNK_CONTACTS_MAX`: the most contacts the owner's letter carries.
pub const CONTACTS_MAX: u32 = 16;

/// `LNK_SEGMENTS_MAX`: the most segments a creature's chain has, its head among them.
pub const SEGMENTS_MAX: u32 = 8;

/// The reasons a refused `REZ` is answered with, one per way the roster refuses.
pub const REFUSED_OWNED: u8 = 1;
pub const REFUSED_FULL: u8 = 2;
pub const REFUSED_CROWDED: u8 = 3;
pub const REFUSED_BOUNDS: u8 = 4;

/// `LNK_CLIENT_ABI_VERSION` this binding was written against; the library refuses any other.
pub const CLIENT_ABI_VERSION: u32 = 6;

/// A status the client library answers with.
pub type LnkStatus = i32;

pub const LNK_OK: LnkStatus = 0;
pub const LNK_NOTHING_YET: LnkStatus = 1;
pub const LNK_REFUSED: LnkStatus = 2;
pub const LNK_HANDSHAKE_TIMED_OUT: LnkStatus = 3;
pub const LNK_PEER_CLOSED: LnkStatus = 4;
pub const LNK_FRAME_REFUSED: LnkStatus = 5;
pub const LNK_GARBLED: LnkStatus = 6;
pub const LNK_IO: LnkStatus = 7;
pub const LNK_BAD_ARGUMENT: LnkStatus = 8;
pub const LNK_PANIC: LnkStatus = 9;

/// `LnkHello`: what a client says at the door.
#[derive(Clone, Copy, PartialEq, Eq, Debug)]
pub struct Hello {
    pub protocol_version: u32,
    pub fingerprint: [u8; 32],
    pub role: u8,
    pub reserved0: [u8; 3],
    pub world_fingerprint: u64,
}

/// `LnkRezTriangle`: three vertex indices and a material index.
#[derive(Clone, Copy, PartialEq, Eq, Debug)]
pub struct RezTriangle {
    pub vertices: [u32; 3],
    pub material: u32,
}

/// `LnkTickStateHeader`: which tick a snapshot tells, and how many rows follow.
#[derive(Clone, Copy, PartialEq, Eq, Debug)]
pub struct TickStateHeader {
    pub tick: u64,
    pub creature_count: u32,
    pub reserved0: [u8; 4],
}

/// `LnkDerez`: a creature leaves the world at a tick.
#[derive(Clone, Copy, PartialEq, Eq, Debug)]
pub struct Derez {
    pub tick: u64,
    pub creature_id: u32,
    pub reserved0: [u8; 4],
}

/// `LnkPing`.
#[derive(Clone, Copy, PartialEq, Eq, Debug)]
pub struct Ping {
    pub nonce: u64,
}

/// `LnkPong`.
#[derive(Clone, Copy, PartialEq, Eq, Debug)]
pub struct Pong {
    pub nonce: u64,
}

/// Opaque: a connection handle the client library owns.
pub struct LnkClient {
    _opaque: [u8; 0],
}

/// Opaque: a listening handle the client library owns.
pub struct LnkServer {
    _opaque: [u8; 0],
}

/// `LnkActions`: one host's word for one creature at one tick - the intent for `tick`, and
/// beside it the intent it sent for the tick before. The six intent fields are binary32 values
/// carried as their bit patterns.
#[derive(Clone, Copy, PartialEq, Eq, Debug)]
pub struct Actions {
    pub tick: u64,
    pub creature_id: u32,
    pub desired_forward_speed: u32,
    pub desired_turn_rate: u32,
    pub vocalisation_strength: u32,
    pub previous_forward_speed: u32,
    pub previous_turn_rate: u32,
    pub previous_vocalisation: u32,
    pub reserved0: [u8; 4],
}

/// The words a knock's role is named by in the world's own lines.
pub open spec fn role_words(role: u8) -> Seq<char> {
    if role == ROLE_SPECTATOR {
        "a spectator"@
    } else if role == ROLE_CREATURE_HOST {
        "a creature host"@
    } else {
        "an unknown role the wire should have refused"@
    }
}

/// How a citizen is named by the role it knocked with.
pub fn role_name(hello: &Hello) -> (name: &'static str)
    ensures
        name@ == role_words(hello.role),
{
    if hello.role == ROLE_SPECTATOR {
        "a spectator"
    } else if hello.role == ROLE_CREATURE_HOST {
        "a creature host"
    } else {
        "an unknown role the wire should have refused"
    }
}

/// The length of the text the client library writes into a detail buffer: up to its first NUL,
/// or the whole buffer when it holds none.
pub fn detail_len(detail: &[u8; 256]) -> (end: usize)
    ensures
        end <= 256,
        forall|i: int| 0 <= i < end ==> #[trigger] detail@[i] != 0,
        end < 256 ==> detail@[end as int] == 0,
{
    let mut end: usize = 0;
    while end < 256
        invariant
            end <= 256,
            detail@.len() == 256,
            forall|i: int| 0 <= i < end ==> #[trigger] detail@[i] != 0,
        decreases 256 - end,
    {
        if detail[end] == 0 {
            return end;
        }
        end = end + 1;
    }
    end
}

} // verus!
