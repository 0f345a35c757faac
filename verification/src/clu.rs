//! Clu: reading the record, and finding out what really happened.
//!
//! The input log holds everything the world was told and did with it - every body rezzed with
//! its bounds, every leave, every intent applied at its tick, and a hash of every body on the
//! beat. Clu reads it line by line and re-simulates the world from it alone. What a line says
//! is decided here, byte by byte; so is what the re-simulation does with it - when a step is
//! whole, whether the log runs forwards, whether it was made under this wire and in this world,
//! and whether a logged hash agrees. The stepping and the hashing of the bodies are the
//! physics', done by the caller between the calls.

use vstd::prelude::*;
use crate::text::{words, parse_u64, parse_hex_u32, parse_bounded, split_words};
use crate::record::{
    DeclaredBounds, same_bytes, word, word_views, KW_PROTOCOL, KW_WORLD, KW_START, KW_HASH_EVERY,
    KW_JUDGED, KW_APPLIED, KW_HASH, KW_REZ, KW_DEREZ, KW_CLAIM, KW_END, KW_HASH_MARK, KW_BUILD,
};
use crate::record::{fingerprint_hex, fingerprint_text, stamp_hex, stamp_bytes};
use crate::roster::{Admission, DerezRefusal, Resident, Roster, rezzed, GUEST_CREATURE_ID};
use crate::stager::{Intent, zero_intent};
use crate::table::Table;
use crate::validator::{
    bounds_refusal, chain_refusal, coordinate_refusal, extent_refusal, judgement, single_body, DeclaredChain,
};

verus! {

/// What Clu found.
#[derive(Clone, PartialEq, Debug)]
pub enum Verdict {
    /// Every hash on the beat agreed: the log re-simulates to the world it describes. `ended`
    /// is whether the log carries the world's own end line - without it the world stopped some
    /// other way, and whatever followed the last line was never written.
    /// `other_build` names the build that made the log when it is not this one: not a lie, but
    /// said, so a later disagreement is read right.
    Agreed { ticks: u64, hashes: u32, ended: bool, other_build: Option<Vec<u8>> },
    /// The first hash that did not agree, and the diff if a Disk was given.
    Diverged { tick: u64, logged: u64, resimulated: u64, diff: Vec<String> },
}

/// One parsed record of the input log. Every binary32 value is its bit pattern.
#[derive(Clone, Debug)]
pub enum Record {
    Protocol { version: u32, fingerprint: Vec<u8> },
    Build(Vec<u8>),
    World(u64),
    End { tick: u64 },
    Rez { creature_id: u32, bounds: DeclaredBounds, vertices: Vec<[u32; 3]> },
    Derez { creature_id: u32 },
    Claim { creature_id: u32 },
    Applied { tick: u64, creature_id: u32, intent: Intent },
    Hash { tick: u64, hash: u64 },
}

/// A record as a value: the fingerprint as its bytes, each vertex as its three coordinates.
pub enum RecordView {
    Protocol { version: u32, fingerprint: Seq<u8> },
    Build(Seq<u8>),
    World(u64),
    End { tick: u64 },
    Rez { creature_id: u32, bounds: DeclaredBounds, vertices: Seq<(u32, u32, u32)> },
    Derez { creature_id: u32 },
    Claim { creature_id: u32 },
    Applied { tick: u64, creature_id: u32, intent: Intent },
    Hash { tick: u64, hash: u64 },
}

/// A vertex's three coordinates.
pub open spec fn triple(v: [u32; 3]) -> (u32, u32, u32) {
    (v[0], v[1], v[2])
}

impl View for Record {
    type V = RecordView;

    open spec fn view(&self) -> RecordView {
        match *self {
            Record::Protocol { version, fingerprint } => RecordView::Protocol { version, fingerprint: fingerprint@ },
            Record::Build(stamp) => RecordView::Build(stamp@),
            Record::World(f) => RecordView::World(f),
            Record::End { tick } => RecordView::End { tick },
            Record::Rez { creature_id, bounds, vertices } => RecordView::Rez {
                creature_id,
                bounds,
                vertices: vertices@.map_values(|v: [u32; 3]| triple(v)),
            },
            Record::Derez { creature_id } => RecordView::Derez { creature_id },
            Record::Claim { creature_id } => RecordView::Claim { creature_id },
            Record::Applied { tick, creature_id, intent } => RecordView::Applied { tick, creature_id, intent },
            Record::Hash { tick, hash } => RecordView::Hash { tick, hash },
        }
    }
}

/// Why a line is no record.
#[derive(Clone, Copy, PartialEq, Eq, Debug)]
pub enum LogError {
    /// A number the record needs is missing, or no decimal number that fits.
    MalformedRecord,
    /// A protocol line without its fingerprint.
    MalformedProtocol,
    /// A build line without its stamp.
    MalformedBuild,
    /// A world line without its fingerprint in hex.
    MalformedWorld,
    /// A rez line without one of its three limits.
    MalformedRez,
    /// A rez line with fewer coordinates than its vertex count names.
    ShortOfVertices,
    /// The word at this place among the line's words is no binary32 bit pattern in hex.
    NotFloatBits { at: usize },
    /// An applied line without one of its three values.
    MalformedApplied,
    /// A hash line without its hash in hex.
    MalformedHash,
    /// A record this reader does not know.
    UnknownRecord,
}

/// The decimal number the word at `at` holds, as the record needs it.
pub open spec fn number_at(ws: Seq<Seq<u8>>, at: int) -> Result<u64, LogError> {
    if 0 <= at < ws.len() {
        match parse_bounded(ws[at], 10, u64::MAX as nat) {
            Some(n) => Ok(n as u64),
            None => Err(LogError::MalformedRecord),
        }
    } else {
        Err(LogError::MalformedRecord)
    }
}

/// The binary32 bit pattern the word at `at` holds in hex; `missing` when there is no word.
pub open spec fn bits_at(ws: Seq<Seq<u8>>, at: int, missing: LogError) -> Result<u32, LogError> {
    if 0 <= at < ws.len() {
        match parse_bounded(ws[at], 16, u32::MAX as nat) {
            Some(n) => Ok(n as u32),
            None => Err(LogError::NotFloatBits { at: at as usize }),
        }
    } else {
        Err(missing)
    }
}

/// The 64-bit number the word at `at` holds in hex, if there is one.
pub open spec fn hex64_at(ws: Seq<Seq<u8>>, at: int) -> Option<u64> {
    if 0 <= at < ws.len() {
        match parse_bounded(ws[at], 16, u64::MAX as nat) {
            Some(n) => Some(n as u64),
            None => None,
        }
    } else {
        None
    }
}

/// The vertices from the `done`-th on of a rez line that names `count`: three coordinates
/// each, from the ninth word on; the first word missing or no bit pattern is the error.
pub open spec fn scan_vertices(ws: Seq<Seq<u8>>, count: nat, done: nat) -> Result<Seq<(u32, u32, u32)>, LogError>
    decreases count - done,
{
    if done >= count {
        Ok(Seq::empty())
    } else {
        let at = 8 + 3 * (done as int);
        match bits_at(ws, at, LogError::ShortOfVertices) {
            Err(e) => Err(e),
            Ok(x) => match bits_at(ws, at + 1, LogError::ShortOfVertices) {
                Err(e) => Err(e),
                Ok(y) => match bits_at(ws, at + 2, LogError::ShortOfVertices) {
                    Err(e) => Err(e),
                    Ok(z) => match scan_vertices(ws, count, done + 1) {
                        Err(e) => Err(e),
                        Ok(rest) => Ok(seq![(x, y, z)] + rest),
                    },
                },
            },
        }
    }
}

/// A rez line's record: the creature, its three limits and its contact count, then - on
/// logs that carry them - its vertex count and vertices. An older log ends at the contact
/// count: a body without a mesh, as they were.
pub open spec fn rez_record(ws: Seq<Seq<u8>>) -> Result<Option<RecordView>, LogError> {
    match number_at(ws, 2) {
        Err(e) => Err(e),
        Ok(creature) => match bits_at(ws, 3, LogError::MalformedRez) {
            Err(e) => Err(e),
            Ok(forward) => match bits_at(ws, 4, LogError::MalformedRez) {
                Err(e) => Err(e),
                Ok(turn) => match bits_at(ws, 5, LogError::MalformedRez) {
                    Err(e) => Err(e),
                    Ok(voice) => match number_at(ws, 6) {
                        Err(e) => Err(e),
                        Ok(contacts) => {
                            let count = if ws.len() > 7 { number_at(ws, 7) } else { Ok(0u64) };
                            match count {
                                Err(e) => Err(e),
                                Ok(count) => match scan_vertices(ws, count as nat, 0) {
                                    Err(e) => Err(e),
                                    Ok(vertices) => Ok(Some(RecordView::Rez {
                                        creature_id: creature as u32,
                                        bounds: DeclaredBounds {
                                            max_forward_speed: forward,
                                            max_turn_rate: turn,
                                            max_vocalisation_strength: voice,
                                            max_contact_count: contacts as usize,
                                        },
                                        vertices,
                                    })),
                                },
                            }
                        },
                    },
                },
            },
        },
    }
}

/// An applied line's record: the tick, the creature, and the three values - the word that
/// names how the intent came to be is not the physics' business.
pub open spec fn applied_record(ws: Seq<Seq<u8>>) -> Result<Option<RecordView>, LogError> {
    match number_at(ws, 1) {
        Err(e) => Err(e),
        Ok(tick) => match number_at(ws, 2) {
            Err(e) => Err(e),
            Ok(creature) => match bits_at(ws, 4, LogError::MalformedApplied) {
                Err(e) => Err(e),
                Ok(forward) => match bits_at(ws, 5, LogError::MalformedApplied) {
                    Err(e) => Err(e),
                    Ok(turn) => match bits_at(ws, 6, LogError::MalformedApplied) {
                        Err(e) => Err(e),
                        Ok(voice) => Ok(Some(RecordView::Applied {
                            tick,
                            creature_id: creature as u32,
                            intent: Intent { forward_speed: forward, turn_rate: turn, vocalisation: voice },
                        })),
                    },
                },
            },
        },
    }
}

/// What a line's words say. No words, a comment, the start and the hash period, and a
/// judged intent are no record for the re-simulation; a record this reader does not know is
/// the log being newer than the reader.
pub open spec fn parse_words(ws: Seq<Seq<u8>>) -> Result<Option<RecordView>, LogError> {
    if ws.len() == 0 {
        Ok(None)
    } else {
        let kind = ws[0];
        if kind == KW_HASH_MARK@ || kind == KW_START@ || kind == KW_HASH_EVERY@ || kind == KW_JUDGED@ {
            Ok(None)
        } else if kind == KW_PROTOCOL@ {
            match number_at(ws, 1) {
                Err(e) => Err(e),
                Ok(version) => if ws.len() > 2 {
                    Ok(Some(RecordView::Protocol { version: version as u32, fingerprint: ws[2] }))
                } else {
                    Err(LogError::MalformedProtocol)
                },
            }
        } else if kind == KW_BUILD@ {
            if ws.len() > 1 { Ok(Some(RecordView::Build(ws[1]))) } else { Err(LogError::MalformedBuild) }
        } else if kind == KW_END@ {
            match number_at(ws, 1) {
                Err(e) => Err(e),
                Ok(tick) => Ok(Some(RecordView::End { tick })),
            }
        } else if kind == KW_WORLD@ {
            match hex64_at(ws, 1) {
                Some(f) => Ok(Some(RecordView::World(f))),
                None => Err(LogError::MalformedWorld),
            }
        } else if kind == KW_REZ@ {
            rez_record(ws)
        } else if kind == KW_DEREZ@ {
            match number_at(ws, 2) {
                Err(e) => Err(e),
                Ok(creature) => Ok(Some(RecordView::Derez { creature_id: creature as u32 })),
            }
        } else if kind == KW_CLAIM@ {
            match number_at(ws, 2) {
                Err(e) => Err(e),
                Ok(creature) => Ok(Some(RecordView::Claim { creature_id: creature as u32 })),
            }
        } else if kind == KW_APPLIED@ {
            applied_record(ws)
        } else if kind == KW_HASH@ {
            match number_at(ws, 1) {
                Err(e) => Err(e),
                Ok(tick) => match hex64_at(ws, 2) {
                    Some(hash) => Ok(Some(RecordView::Hash { tick, hash })),
                    None => Err(LogError::MalformedHash),
                },
            }
        } else {
            Err(LogError::UnknownRecord)
        }
    }
}

/// What a parse came to, as values.
pub open spec fn parsed_view(r: Result<Option<Record>, LogError>) -> Result<Option<RecordView>, LogError> {
    match r {
        Ok(Some(record)) => Ok(Some(record@)),
        Ok(None) => Ok(None),
        Err(e) => Err(e),
    }
}

/// The decimal number at `at`.
fn number_of(ws: &Vec<Vec<u8>>, at: usize) -> (r: Result<u64, LogError>)
    ensures
        r == number_at(word_views(ws@), at as int),
{
    if at < ws.len() {
        match parse_u64(&ws[at], 10) {
            Some(n) => Ok(n),
            None => Err(LogError::MalformedRecord),
        }
    } else {
        Err(LogError::MalformedRecord)
    }
}

/// The bit pattern at `at`.
fn bits_of(ws: &Vec<Vec<u8>>, at: usize, missing: LogError) -> (r: Result<u32, LogError>)
    ensures
        r == bits_at(word_views(ws@), at as int, missing),
{
    if at < ws.len() {
        match parse_hex_u32(&ws[at]) {
            Some(n) => Ok(n),
            None => Err(LogError::NotFloatBits { at }),
        }
    } else {
        Err(missing)
    }
}

/// The 64-bit hex number at `at`.
fn hex64_of(ws: &Vec<Vec<u8>>, at: usize) -> (r: Option<u64>)
    ensures
        r == hex64_at(word_views(ws@), at as int),
{
    if at < ws.len() {
        parse_u64(&ws[at], 16)
    } else {
        None
    }
}

/// The vertices of a rez line that names `count` of them.
fn vertices_of(ws: &Vec<Vec<u8>>, count: u64) -> (r: Result<Vec<[u32; 3]>, LogError>)
    ensures
        match r {
            Ok(v) => scan_vertices(word_views(ws@), count as nat, 0) == Ok::<Seq<(u32, u32, u32)>, LogError>(
                v@.map_values(|t: [u32; 3]| triple(t)),
            ),
            Err(e) => scan_vertices(word_views(ws@), count as nat, 0) == Err::<Seq<(u32, u32, u32)>, LogError>(e),
        },
{
    let ghost wv = word_views(ws@);
    let mut out: Vec<[u32; 3]> = Vec::new();
    let mut done: usize = 0;
    let n = ws.len();
    while (done as u64) < count
        invariant
            wv == word_views(ws@),
            n == ws@.len(),
            done <= count,
            done > 0 ==> 8 + 3 * done <= ws@.len(),
            scan_vertices(wv, count as nat, 0) == (match scan_vertices(wv, count as nat, done as nat) {
                Ok(rest) => Ok(out@.map_values(|t: [u32; 3]| triple(t)) + rest),
                Err(e) => Err(e),
            }),
        decreases count - done,
    {
        proof { if done > 0 { assert(8 + 3 * done <= n); } }
        let at: usize = 8 + 3 * done;
        let x = match bits_of(ws, at, LogError::ShortOfVertices) {
            Ok(x) => x,
            Err(e) => { return Err(e); },
        };
        let y = match bits_of(ws, at + 1, LogError::ShortOfVertices) {
            Ok(y) => y,
            Err(e) => { return Err(e); },
        };
        assert(at + 1 < n);
        let z = match bits_of(ws, at + 2, LogError::ShortOfVertices) {
            Ok(z) => z,
            Err(e) => { return Err(e); },
        };
        let ghost before = out@;
        out.push([x, y, z]);
        proof {
            assert(triple([x, y, z]) == (x, y, z));
            assert(out@.map_values(|t: [u32; 3]| triple(t)) =~= before.map_values(|t: [u32; 3]| triple(t)).push((x, y, z)));
            match scan_vertices(wv, count as nat, (done + 1) as nat) {
                Ok(rest) => {
                    assert(before.map_values(|t: [u32; 3]| triple(t)) + (seq![(x, y, z)] + rest)
                        =~= out@.map_values(|t: [u32; 3]| triple(t)) + rest);
                },
                Err(e) => {},
            }
        }
        done = done + 1;
    }
    proof {
        assert(out@.map_values(|t: [u32; 3]| triple(t)) + Seq::<(u32, u32, u32)>::empty()
            =~= out@.map_values(|t: [u32; 3]| triple(t)));
    }
    Ok(out)
}

/// What one line of the input log says: no record, a record, or why it is none.
pub fn parse_line(line: &[u8]) -> (r: Result<Option<Record>, LogError>)
    ensures
        parsed_view(r) == parse_words(split_words(line@)),
{
    let ws = words(line);
    let ghost wv = word_views(ws@);
    proof { assert(wv =~= split_words(line@)); }
    if ws.len() == 0 {
        return Ok(None);
    }
    let kind = &ws[0];
    if same_bytes(kind, &KW_HASH_MARK) || same_bytes(kind, &KW_START) || same_bytes(kind, &KW_HASH_EVERY)
        || same_bytes(kind, &KW_JUDGED) {
        return Ok(None);
    }
    if same_bytes(kind, &KW_PROTOCOL) {
        let version = match number_of(&ws, 1) {
            Ok(v) => v,
            Err(e) => { return Err(e); },
        };
        if ws.len() > 2 {
            return Ok(Some(Record::Protocol { version: version as u32, fingerprint: word(&ws[2]) }));
        }
        return Err(LogError::MalformedProtocol);
    }
    if same_bytes(kind, &KW_BUILD) {
        if ws.len() > 1 {
            return Ok(Some(Record::Build(word(&ws[1]))));
        }
        return Err(LogError::MalformedBuild);
    }
    if same_bytes(kind, &KW_END) {
        return match number_of(&ws, 1) {
            Ok(tick) => Ok(Some(Record::End { tick })),
            Err(e) => Err(e),
        };
    }
    if same_bytes(kind, &KW_WORLD) {
        return match hex64_of(&ws, 1) {
            Some(f) => Ok(Some(Record::World(f))),
            None => Err(LogError::MalformedWorld),
        };
    }
    if same_bytes(kind, &KW_REZ) {
        let creature = match number_of(&ws, 2) {
            Ok(v) => v,
            Err(e) => { return Err(e); },
        };
        let forward = match bits_of(&ws, 3, LogError::MalformedRez) {
            Ok(v) => v,
            Err(e) => { return Err(e); },
        };
        let turn = match bits_of(&ws, 4, LogError::MalformedRez) {
            Ok(v) => v,
            Err(e) => { return Err(e); },
        };
        let voice = match bits_of(&ws, 5, LogError::MalformedRez) {
            Ok(v) => v,
            Err(e) => { return Err(e); },
        };
        let contacts = match number_of(&ws, 6) {
            Ok(v) => v,
            Err(e) => { return Err(e); },
        };
        let count = if ws.len() > 7 {
            match number_of(&ws, 7) {
                Ok(v) => v,
                Err(e) => { return Err(e); },
            }
        } else {
            0
        };
        let vertices = match vertices_of(&ws, count) {
            Ok(v) => v,
            Err(e) => { return Err(e); },
        };
        return Ok(Some(Record::Rez {
            creature_id: creature as u32,
            bounds: DeclaredBounds {
                max_forward_speed: forward,
                max_turn_rate: turn,
                max_vocalisation_strength: voice,
                max_contact_count: contacts as usize,
            },
            vertices,
        }));
    }
    if same_bytes(kind, &KW_DEREZ) {
        return match number_of(&ws, 2) {
            Ok(c) => Ok(Some(Record::Derez { creature_id: c as u32 })),
            Err(e) => Err(e),
        };
    }
    if same_bytes(kind, &KW_CLAIM) {
        return match number_of(&ws, 2) {
            Ok(c) => Ok(Some(Record::Claim { creature_id: c as u32 })),
            Err(e) => Err(e),
        };
    }
    if same_bytes(kind, &KW_APPLIED) {
        let tick = match number_of(&ws, 1) {
            Ok(v) => v,
            Err(e) => { return Err(e); },
        };
        let creature = match number_of(&ws, 2) {
            Ok(v) => v,
            Err(e) => { return Err(e); },
        };
        let forward = match bits_of(&ws, 4, LogError::MalformedApplied) {
            Ok(v) => v,
            Err(e) => { return Err(e); },
        };
        let turn = match bits_of(&ws, 5, LogError::MalformedApplied) {
            Ok(v) => v,
            Err(e) => { return Err(e); },
        };
        let voice = match bits_of(&ws, 6, LogError::MalformedApplied) {
            Ok(v) => v,
            Err(e) => { return Err(e); },
        };
        return Ok(Some(Record::Applied {
            tick,
            creature_id: creature as u32,
            intent: Intent { forward_speed: forward, turn_rate: turn, vocalisation: voice },
        }));
    }
    if same_bytes(kind, &KW_HASH) {
        let tick = match number_of(&ws, 1) {
            Ok(v) => v,
            Err(e) => { return Err(e); },
        };
        return match hex64_of(&ws, 2) {
            Some(hash) => Ok(Some(Record::Hash { tick, hash })),
            None => Err(LogError::MalformedHash),
        };
    }
    Err(LogError::UnknownRecord)
}

/// What the physics tells the re-simulation about a record before it is taken: for a rez, the
/// model the body wears and where it stands if admitted - `None` for a newcomer when the spawn
/// pad is full; for a hash line, the hash of the re-simulated bodies. Every other record needs
/// nothing. The rez itself - its bounds and its mesh - the re-simulation judges on its own.
pub enum Fact<B, M> {
    Nothing,
    Placed { model: M, body: Option<B> },
    Hashed(u64),
}

/// The fact a record needs: a placement for a rez, a hash for a hash line, nothing otherwise.
pub open spec fn fits<B, M>(r: RecordView, fact: Fact<B, M>) -> bool {
    match r {
        RecordView::Rez { .. } => fact is Placed,
        RecordView::Hash { .. } => fact is Hashed,
        _ => fact is Nothing,
    }
}

/// Why the log does not re-simulate.
#[derive(Clone, Copy, PartialEq, Eq, Debug)]
pub enum ReplayError {
    /// A record after the world's end line: the log was appended to.
    AfterEnd,
    /// A tick before one already read: the log is out of order.
    OutOfOrder { tick: u64, last: u64 },
    /// The log was made under another wire.
    ForeignProtocol { version: u32 },
    /// The log was made in another world.
    ForeignWorld { fingerprint: u64 },
    /// The log's rez is refused on re-simulation.
    RezRefused { creature_id: u32, admission: Admission },
    /// The log's derez is refused on re-simulation.
    DerezRefused { creature_id: u32, refusal: DerezRefusal },
    /// The log applies an intent to a creature the re-simulation does not hold.
    NotEmbodied { creature_id: u32, tick: u64 },
}

/// The first logged hash that the re-simulation does not agree with.
#[derive(Clone, Copy, PartialEq, Eq, Debug)]
pub struct Divergence {
    pub tick: u64,
    pub logged: u64,
    pub resimulated: u64,
}

/// The re-simulation's state, as values.
#[verifier::ext_equal]
pub struct ReplayState<B, M> {
    /// The roster as the log has built it.
    pub roster: Map<u32, Resident<B, M>>,
    /// The intents read for the step not yet taken, by creature.
    pub pending: Map<u64, Intent>,
    /// The tick of that step.
    pub pending_tick: Option<u64>,
    /// Steps taken.
    pub ticks: u64,
    /// Hashes that agreed.
    pub hashes: u32,
    /// The latest tick read.
    pub last_tick: u64,
    /// Whether the world's end line was read.
    pub ended: bool,
    /// The wire this build speaks, and its fingerprint as the log writes it.
    pub own_protocol: u32,
    pub own_fingerprint: Seq<u8>,
    /// The world this build simulates.
    pub own_world: u64,
    /// This build's stamp, as the log writes it.
    pub own_build: Seq<u8>,
    /// The stamp of another build, when the log names one.
    pub other_build: Option<Seq<u8>>,
}

/// The tick a record carries, for those that carry one.
pub open spec fn record_tick(r: RecordView) -> Option<u64> {
    match r {
        RecordView::Applied { tick, .. } => Some(tick),
        RecordView::Hash { tick, .. } => Some(tick),
        RecordView::End { tick } => Some(tick),
        _ => None,
    }
}

/// Whether a record completes the step being gathered: a step is whole when the next record
/// is not another intent for the same tick.
pub open spec fn completes<B, M>(s: ReplayState<B, M>, r: RecordView) -> bool {
    &&& s.pending_tick is Some
    &&& !(r matches RecordView::Applied { tick, .. } && tick == s.pending_tick.unwrap())
}

/// The intent a creature steps with: the one read for it, or the zero intent.
pub open spec fn intent_or_zero(pending: Map<u64, Intent>, creature_id: u32) -> Intent {
    if pending.contains_key(creature_id as u64) { pending[creature_id as u64] } else { zero_intent() }
}

/// The state once the gathered step is taken.
pub open spec fn settled<B, M>(s: ReplayState<B, M>) -> ReplayState<B, M> {
    ReplayState { pending: Map::empty(), pending_tick: None, ticks: (s.ticks + 1) as u64, ..s }
}

/// The first refusal among a mesh's vertices as the log writes them, vertex by vertex and axis
/// by axis: the validator's word on a mesh.
pub open spec fn mesh_refusal(vertices: Seq<(u32, u32, u32)>) -> Option<&'static str>
    decreases vertices.len(),
{
    if vertices.len() == 0 {
        None
    } else {
        let (x, y, z) = vertices[0];
        if coordinate_refusal(x) is Some {
            coordinate_refusal(x)
        } else if coordinate_refusal(y) is Some {
            coordinate_refusal(y)
        } else if coordinate_refusal(z) is Some {
            coordinate_refusal(z)
        } else {
            mesh_refusal(vertices.drop_first())
        }
    }
}

/// The validator's word on a logged rez: its bounds, then its mesh, then its chain - and the
/// log carries no chain, so the body is a single one, as the re-simulation rezzes it.
pub open spec fn logged_judgement(bounds: DeclaredBounds, vertices: Seq<(u32, u32, u32)>) -> Result<(), &'static str> {
    match bounds_refusal(bounds) {
        Some(reason) => Err(reason),
        None => match mesh_refusal(vertices) {
            Some(reason) => Err(reason),
            None => match chain_refusal(single_body()) {
                Some(reason) => Err(reason),
                None => Ok(()),
            },
        },
    }
}

/// A mesh judged as the log writes it is judged as the world judged it when it came in.
pub proof fn law_a_logged_mesh_is_judged_as_it_came(vertices: Seq<[u32; 3]>)
    ensures
        mesh_refusal(vertices.map_values(|t: [u32; 3]| triple(t))) == extent_refusal(vertices),
    decreases vertices.len(),
{
    if vertices.len() > 0 {
        law_a_logged_mesh_is_judged_as_it_came(vertices.drop_first());
        assert(vertices.map_values(|t: [u32; 3]| triple(t)).drop_first()
            =~= vertices.drop_first().map_values(|t: [u32; 3]| triple(t)));
    }
}

/// The re-simulation judges a logged rez as the world judged the rez it logged: by the same
/// bounds, the same mesh written bit for bit, and the single body the log's wire declares.
pub proof fn law_replay_judges_a_rez_as_the_world_did(bounds: DeclaredBounds, vertices: Seq<[u32; 3]>)
    ensures
        logged_judgement(bounds, vertices.map_values(|t: [u32; 3]| triple(t)))
            == judgement(bounds, single_body(), vertices),
{
    law_a_logged_mesh_is_judged_as_it_came(vertices);
}

/// The state after a record is taken, and what it came to. A record with a tick is refused
/// after the end line, and when its tick goes backwards; a protocol or world line must name
/// this build's; a rez and a derez must stand on re-simulation, by the host the log was made
/// for (connection 0); an intent must be for a creature embodied; a hash line that disagrees
/// is the divergence.
pub open spec fn took<B, M>(s: ReplayState<B, M>, r: RecordView, fact: Fact<B, M>) -> (ReplayState<B, M>, Result<Option<Divergence>, ReplayError>) {
    if record_tick(r) is Some && s.ended {
        (s, Err(ReplayError::AfterEnd))
    } else if record_tick(r) is Some && record_tick(r).unwrap() < s.last_tick {
        (s, Err(ReplayError::OutOfOrder { tick: record_tick(r).unwrap(), last: s.last_tick }))
    } else {
        let s = if record_tick(r) is Some { ReplayState { last_tick: record_tick(r).unwrap(), ..s } } else { s };
        match r {
            RecordView::Protocol { version, fingerprint } => {
                if version != s.own_protocol || fingerprint != s.own_fingerprint {
                    (s, Err(ReplayError::ForeignProtocol { version }))
                } else {
                    (s, Ok(None))
                }
            },
            RecordView::Build(stamp) => {
                if stamp != s.own_build { (ReplayState { other_build: Some(stamp), ..s }, Ok(None)) } else { (s, Ok(None)) }
            },
            RecordView::End { .. } => (ReplayState { ended: true, ..s }, Ok(None)),
            RecordView::World(f) => {
                if f != s.own_world { (s, Err(ReplayError::ForeignWorld { fingerprint: f })) } else { (s, Ok(None)) }
            },
            RecordView::Rez { creature_id, bounds, vertices } => match fact {
                Fact::Placed { model, body } => {
                    let (m, a) = rezzed(s.roster, 0, creature_id, logged_judgement(bounds, vertices), model, body);
                    if a is Embodied || a is Adopted {
                        (ReplayState { roster: m, ..s }, Ok(None))
                    } else {
                        (ReplayState { roster: m, ..s }, Err(ReplayError::RezRefused { creature_id, admission: a }))
                    }
                },
                _ => (s, Ok(None)),
            },
            RecordView::Derez { creature_id } => {
                if !s.roster.contains_key(creature_id) {
                    (s, Err(ReplayError::DerezRefused { creature_id, refusal: DerezRefusal::NotResident }))
                } else if s.roster[creature_id].owner != Some(0u64) {
                    (s, Err(ReplayError::DerezRefused {
                        creature_id,
                        refusal: DerezRefusal::NotOwner { owner: s.roster[creature_id].owner },
                    }))
                } else {
                    (ReplayState { roster: s.roster.remove(creature_id), ..s }, Ok(None))
                }
            },
            RecordView::Claim { creature_id } => {
                if s.roster.contains_key(creature_id) && s.roster[creature_id].owner is None {
                    (
                        ReplayState {
                            roster: s.roster.insert(creature_id, Resident { owner: Some(0u64), ..s.roster[creature_id] }),
                            ..s
                        },
                        Ok(None),
                    )
                } else {
                    (s, Ok(None))
                }
            },
            RecordView::Applied { tick, creature_id, intent } => {
                if !s.roster.contains_key(creature_id) {
                    (s, Err(ReplayError::NotEmbodied { creature_id, tick }))
                } else {
                    (
                        ReplayState {
                            pending_tick: Some(tick),
                            pending: s.pending.insert(creature_id as u64, intent),
                            ..s
                        },
                        Ok(None),
                    )
                }
            },
            RecordView::Hash { tick, hash } => match fact {
                Fact::Hashed(resimulated) => {
                    if resimulated != hash {
                        (s, Ok(Some(Divergence { tick, logged: hash, resimulated })))
                    } else {
                        (ReplayState { hashes: (s.hashes + 1) as u32, ..s }, Ok(None))
                    }
                },
                _ => (s, Ok(None)),
            },
        }
    }
}

/// The re-simulation, record by record.
pub struct Replay<B, M> {
    roster: Roster<B, M>,
    pending: Table<Intent>,
    pending_tick: Option<u64>,
    ticks_stepped: u64,
    hashes_agreed: u32,
    last_tick: u64,
    ended: bool,
    own_protocol: u32,
    own_fingerprint: Vec<u8>,
    own_world: u64,
    own_build: Vec<u8>,
    other_build: Option<Vec<u8>>,
}

/// A stamp held, as its bytes.
pub open spec fn stamp_view(stamp: Option<Vec<u8>>) -> Option<Seq<u8>> {
    match stamp {
        Some(b) => Some(b@),
        None => None,
    }
}

impl<B, M> View for Replay<B, M> {
    type V = ReplayState<B, M>;

    closed spec fn view(&self) -> ReplayState<B, M> {
        ReplayState {
            roster: self.roster@,
            pending: self.pending@,
            pending_tick: self.pending_tick,
            ticks: self.ticks_stepped,
            hashes: self.hashes_agreed,
            last_tick: self.last_tick,
            ended: self.ended,
            own_protocol: self.own_protocol,
            own_fingerprint: self.own_fingerprint@,
            own_world: self.own_world,
            own_build: self.own_build@,
            other_build: stamp_view(self.other_build),
        }
    }
}

impl<B, M> Replay<B, M> {
    /// The re-simulation's own invariant: its roster and its gathered intents are well formed.
    pub closed spec fn wf(&self) -> bool {
        self.roster.wf() && self.pending.wf()
    }

    /// The residents' identities, in the order the physics steps them.
    pub closed spec fn ids(&self) -> Seq<u32> {
        self.roster.ids()
    }

    /// A re-simulation as the world opened: the guest alone, nothing read, under this build's
    /// wire and world.
    pub fn new(own_protocol: u32, own_fingerprint: &[u8; 32], own_build: u64, own_world: u64, guest_body: B, guest_model: M) -> (replay: Replay<B, M>)
        ensures
            replay.wf(),
            replay@ == (ReplayState {
                roster: Map::<u32, Resident<B, M>>::empty().insert(
                    GUEST_CREATURE_ID,
                    Resident { owner: None, body: guest_body, model: guest_model },
                ),
                pending: Map::empty(),
                pending_tick: None,
                ticks: 0,
                hashes: 0,
                last_tick: 0,
                ended: false,
                own_protocol,
                own_fingerprint: fingerprint_text(own_fingerprint@),
                own_world,
                own_build: fingerprint_text(stamp_bytes(own_build)),
                other_build: None,
            }),
    {
        let replay = Replay {
            roster: Roster::with_the_guest(guest_body, guest_model),
            pending: Table::new(),
            pending_tick: None,
            ticks_stepped: 0,
            hashes_agreed: 0,
            last_tick: 0,
            ended: false,
            own_protocol,
            own_fingerprint: fingerprint_hex(own_fingerprint),
            own_world,
            own_build: stamp_hex(own_build),
            other_build: None,
        };
        proof { assert(replay@ =~= replay@); }
        replay
    }

    /// The roster as the log has built it, for the physics to step and hash.
    pub fn roster(&self) -> (roster: &Roster<B, M>)
        requires
            self.wf(),
        ensures
            roster.wf(),
            roster@ == self@.roster,
            roster.ids() == self.ids(),
    {
        &self.roster
    }

    /// Steps taken.
    pub fn ticks_stepped(&self) -> (n: u64)
        ensures
            n == self@.ticks,
    {
        self.ticks_stepped
    }

    /// Hashes that agreed.
    pub fn hashes_agreed(&self) -> (n: u32)
        ensures
            n == self@.hashes,
    {
        self.hashes_agreed
    }

    /// A resident's body, replaced by what the physics made of it.
    pub fn set_body(&mut self, creature_id: u32, body: B)
        requires
            old(self).wf(),
            old(self)@.roster.contains_key(creature_id),
        ensures
            final(self).wf(),
            final(self)@ == (ReplayState {
                roster: old(self)@.roster.insert(creature_id, Resident { body, ..old(self)@.roster[creature_id] }),
                ..old(self)@
            }),
            final(self).ids() == old(self).ids(),
    {
        self.roster.set_body(creature_id, body);
    }

    /// The gathered step, taken: its tick, and every resident's intent in roster order.
    fn take_step(&mut self) -> (step: (u64, Vec<(u32, Intent)>))
        requires
            old(self).wf(),
            old(self)@.pending_tick is Some,
            old(self)@.ticks < u64::MAX,
        ensures
            final(self).wf(),
            final(self)@ == settled(old(self)@),
            final(self).ids() == old(self).ids(),
            step.0 == old(self)@.pending_tick.unwrap(),
            step.1@.len() == old(self).ids().len(),
            forall|i: int| 0 <= i < step.1@.len() ==> #[trigger] step.1@[i] == (
                old(self).ids()[i],
                intent_or_zero(old(self)@.pending, old(self).ids()[i]),
            ),
    {
        let tick = match self.pending_tick {
            Some(t) => t,
            None => 0,
        };
        let ids = self.roster.ids_in_order();
        let mut intents: Vec<(u32, Intent)> = Vec::new();
        let mut i: usize = 0;
        while i < ids.len()
            invariant
                self.wf(),
                self@ == old(self)@,
                ids@ == self.ids(),
                i <= ids@.len(),
                intents@.len() == i,
                forall|j: int| 0 <= j < i ==> #[trigger] intents@[j] == (ids@[j], intent_or_zero(self@.pending, ids@[j])),
            decreases ids@.len() - i,
        {
            let id = ids[i];
            let intent = match self.pending.get(id as u64) {
                Some(found) => *found,
                None => Intent { forward_speed: 0, turn_rate: 0, vocalisation: 0 },
            };
            intents.push((id, intent));
            i = i + 1;
        }
        self.pending = Table::new();
        self.pending_tick = None;
        self.ticks_stepped = self.ticks_stepped + 1;
        proof { assert(self@ =~= settled(old(self)@)); }
        (tick, intents)
    }

    /// Before a record is taken: the step it completes, if it completes one - the tick and every
    /// resident's intent in roster order, for the physics to take - and nothing otherwise.
    pub fn settle(&mut self, record: &Record) -> (step: Option<(u64, Vec<(u32, Intent)>)>)
        requires
            old(self).wf(),
            completes(old(self)@, record@) ==> old(self)@.ticks < u64::MAX,
        ensures
            final(self).wf(),
            final(self).ids() == old(self).ids(),
            !completes(final(self)@, record@),
            completes(old(self)@, record@) ==> final(self)@ == settled(old(self)@),
            !completes(old(self)@, record@) ==> final(self)@ == old(self)@,
            step is Some <==> completes(old(self)@, record@),
            step matches Some(st) ==> {
                &&& st.0 == old(self)@.pending_tick.unwrap()
                &&& st.1@.len() == old(self).ids().len()
                &&& forall|i: int| 0 <= i < st.1@.len() ==> #[trigger] st.1@[i] == (
                    old(self).ids()[i],
                    intent_or_zero(old(self)@.pending, old(self).ids()[i]),
                )
            },
    {
        let same_tick = match (self.pending_tick, record) {
            (Some(t), Record::Applied { tick, .. }) => *tick == t,
            _ => false,
        };
        if self.pending_tick.is_some() && !same_tick {
            Some(self.take_step())
        } else {
            None
        }
    }

    /// At the log's end: the step still gathered, if any, for the physics to take.
    pub fn finish(&mut self) -> (step: Option<(u64, Vec<(u32, Intent)>)>)
        requires
            old(self).wf(),
            old(self)@.pending_tick is Some ==> old(self)@.ticks < u64::MAX,
        ensures
            final(self).wf(),
            final(self).ids() == old(self).ids(),
            final(self)@.pending_tick is None,
            old(self)@.pending_tick is Some ==> final(self)@ == settled(old(self)@),
            old(self)@.pending_tick is None ==> final(self)@ == old(self)@,
            step is Some <==> old(self)@.pending_tick is Some,
            step matches Some(st) ==> {
                &&& st.0 == old(self)@.pending_tick.unwrap()
                &&& st.1@.len() == old(self).ids().len()
                &&& forall|i: int| 0 <= i < st.1@.len() ==> #[trigger] st.1@[i] == (
                    old(self).ids()[i],
                    intent_or_zero(old(self)@.pending, old(self).ids()[i]),
                )
            },
    {
        if self.pending_tick.is_some() {
            Some(self.take_step())
        } else {
            None
        }
    }

    /// What Clu found, when every hash agreed: the steps taken, the hashes that agreed, and
    /// whether the log carries the world's own end line.
    pub fn agreed(&self) -> (verdict: Verdict)
        ensures
            verdict matches Verdict::Agreed { ticks, hashes, ended, other_build }
                && ticks == self@.ticks && hashes == self@.hashes && ended == self@.ended
                && stamp_view(other_build) == self@.other_build,
    {
        let other_build = match &self.other_build {
            Some(stamp) => Some(word(stamp)),
            None => None,
        };
        Verdict::Agreed { ticks: self.ticks_stepped, hashes: self.hashes_agreed, ended: self.ended, other_build }
    }

    /// The stamp of the build that made the log, when it is not this one - what a divergence's
    /// diff says first.
    pub fn other_build(&self) -> (stamp: Option<&Vec<u8>>)
        ensures
            stamp matches Some(b) ==> self@.other_build == Some(b@),
            stamp is None ==> self@.other_build is None,
    {
        self.other_build.as_ref()
    }

    /// One record taken, once the step it completes is taken: the log's order checked, its
    /// wire and world checked, the roster moved as the log says, the intent gathered, or the
    /// hash compared.
    pub fn take(&mut self, record: &Record, fact: Fact<B, M>) -> (result: Result<Option<Divergence>, ReplayError>)
        requires
            old(self).wf(),
            fits(record@, fact),
            !completes(old(self)@, record@),
            record@ is Hash ==> old(self)@.hashes < u32::MAX,
        ensures
            final(self).wf(),
            (final(self)@, result) == took(old(self)@, record@, fact),
    {
        let tick = match record {
            Record::Applied { tick, .. } => Some(*tick),
            Record::Hash { tick, .. } => Some(*tick),
            Record::End { tick } => Some(*tick),
            _ => None,
        };
        if let Some(t) = tick {
            if self.ended {
                return Err(ReplayError::AfterEnd);
            }
            if t < self.last_tick {
                return Err(ReplayError::OutOfOrder { tick: t, last: self.last_tick });
            }
            self.last_tick = t;
        }
        let ghost s = self@;
        match record {
            Record::Protocol { version, fingerprint } => {
                if *version != self.own_protocol || !same_bytes(fingerprint, &self.own_fingerprint) {
                    return Err(ReplayError::ForeignProtocol { version: *version });
                }
                Ok(None)
            },
            Record::Build(stamp) => {
                if !same_bytes(stamp, &self.own_build) {
                    self.other_build = Some(word(stamp));
                    proof { assert(self@ =~= ReplayState { other_build: Some(stamp@), ..s }); }
                }
                Ok(None)
            },
            Record::End { .. } => {
                self.ended = true;
                proof { assert(self@ =~= ReplayState { ended: true, ..s }); }
                Ok(None)
            },
            Record::World(f) => {
                if *f != self.own_world {
                    return Err(ReplayError::ForeignWorld { fingerprint: *f });
                }
                Ok(None)
            },
            Record::Rez { creature_id, bounds, vertices } => match fact {
                Fact::Placed { model, body } => {
                    let single = DeclaredChain { segment_count: 1, segment_spacing: 0 };
                    proof { law_replay_judges_a_rez_as_the_world_did(*bounds, vertices@); }
                    let admission = self.roster.rez(0, *creature_id, bounds, &single, vertices, model, body);
                    proof { assert(self@ =~= ReplayState { roster: self.roster@, ..s }); }
                    match admission {
                        Admission::Embodied | Admission::Adopted => Ok(None),
                        _ => Err(ReplayError::RezRefused { creature_id: *creature_id, admission }),
                    }
                },
                _ => Ok(None),
            },
            Record::Derez { creature_id } => {
                match self.roster.derez(0, *creature_id) {
                    Ok(()) => {
                        proof { assert(self@ =~= ReplayState { roster: s.roster.remove(*creature_id), ..s }); }
                        Ok(None)
                    },
                    Err(refusal) => Err(ReplayError::DerezRefused { creature_id: *creature_id, refusal }),
                }
            },
            Record::Claim { creature_id } => {
                let claimed = self.roster.claim(*creature_id, 0);
                proof { assert(self@ =~= ReplayState { roster: self.roster@, ..s }); }
                Ok(None)
            },
            Record::Applied { tick, creature_id, intent } => {
                if self.roster.resident(*creature_id).is_none() {
                    return Err(ReplayError::NotEmbodied { creature_id: *creature_id, tick: *tick });
                }
                self.pending_tick = Some(*tick);
                self.pending.insert(*creature_id as u64, *intent);
                proof {
                    assert(self@ =~= ReplayState {
                        pending_tick: Some(*tick),
                        pending: s.pending.insert(*creature_id as u64, *intent),
                        ..s
                    });
                }
                Ok(None)
            },
            Record::Hash { tick, hash } => match fact {
                Fact::Hashed(resimulated) => {
                    if resimulated != *hash {
                        return Ok(Some(Divergence { tick: *tick, logged: *hash, resimulated }));
                    }
                    self.hashes_agreed = self.hashes_agreed + 1;
                    proof { assert(self@ =~= ReplayState { hashes: (s.hashes + 1) as u32, ..s }); }
                    Ok(None)
                },
                _ => Ok(None),
            },
        }
    }
}

/// The log is a life told forwards: a record that carries a tick, read after the end line, is
/// refused - the log was appended to - and so is one whose tick goes backwards - the log was
/// rearranged; either way the re-simulation is left as it was.
pub proof fn law_log_runs_forwards<B, M>(s: ReplayState<B, M>, r: RecordView, fact: Fact<B, M>)
    requires
        record_tick(r) is Some,
    ensures
        s.ended ==> took(s, r, fact) == (s, Err::<Option<Divergence>, ReplayError>(ReplayError::AfterEnd)),
        !s.ended && record_tick(r).unwrap() < s.last_tick ==> took(s, r, fact) == (
            s,
            Err::<Option<Divergence>, ReplayError>(ReplayError::OutOfOrder { tick: record_tick(r).unwrap(), last: s.last_tick }),
        ),
        took(s, r, fact).1 is Ok ==> !s.ended && s.last_tick <= record_tick(r).unwrap()
            && took(s, r, fact).0.last_tick == record_tick(r).unwrap(),
{
}

/// A derez the re-simulation accepts takes the creature out of the roster, and only it: it was
/// there, worn by the log's host (connection 0), and afterwards it is gone while every other
/// resident stays as it was. A refused derez leaves the roster as it was.
pub proof fn law_an_accepted_derez_removes_the_creature<B, M>(s: ReplayState<B, M>, creature_id: u32, fact: Fact<B, M>)
    ensures
        ({
            let (after, result) = took(s, RecordView::Derez { creature_id }, fact);
            &&& result is Ok ==> {
                &&& s.roster.contains_key(creature_id)
                &&& s.roster[creature_id].owner == Some(0u64)
                &&& !after.roster.contains_key(creature_id)
                &&& forall|other: u32| other != creature_id ==>
                    (#[trigger] after.roster.contains_key(other) <==> s.roster.contains_key(other))
                &&& forall|other: u32| other != creature_id && s.roster.contains_key(other) ==>
                    #[trigger] after.roster[other] == s.roster[other]
            }
            &&& result is Err ==> after.roster == s.roster
            &&& (s.roster.contains_key(creature_id) && s.roster[creature_id].owner == Some(0u64)) ==> result is Ok
        }),
{
}

/// A rez the re-simulation accepts leaves the creature in the roster, worn by the log's host and
/// wearing the model the rez brought, every other resident as it was; a refused rez changes no
/// resident - a rez only ever stands or is refused, it never leaves half a body.
pub proof fn law_an_accepted_rez_embodies_the_creature<B, M>(
    s: ReplayState<B, M>,
    creature_id: u32,
    bounds: DeclaredBounds,
    vertices: Seq<(u32, u32, u32)>,
    model: M,
    body: Option<B>,
)
    ensures
        ({
            let (after, result) = took(s, RecordView::Rez { creature_id, bounds, vertices }, Fact::Placed { model, body });
            &&& result is Ok ==> {
                &&& after.roster.contains_key(creature_id)
                &&& after.roster[creature_id].owner == Some(0u64)
                &&& after.roster[creature_id].model == model
                &&& forall|other: u32| other != creature_id ==>
                    (#[trigger] after.roster.contains_key(other) <==> s.roster.contains_key(other))
                &&& forall|other: u32| other != creature_id && s.roster.contains_key(other) ==>
                    #[trigger] after.roster[other] == s.roster[other]
            }
            &&& result is Err ==> after.roster == s.roster
            &&& logged_judgement(bounds, vertices) is Err ==> result is Err
        }),
{
}

/// A claim takes up an orphan for the log's host and changes nothing else; a claim on a body
/// someone wears, or on none, changes nothing at all.
pub proof fn law_a_claim_takes_up_only_an_orphan<B, M>(s: ReplayState<B, M>, creature_id: u32, fact: Fact<B, M>)
    ensures
        ({
            let (after, result) = took(s, RecordView::Claim { creature_id }, fact);
            &&& result is Ok
            &&& (s.roster.contains_key(creature_id) && s.roster[creature_id].owner is None) ==> {
                &&& after.roster.contains_key(creature_id)
                &&& after.roster[creature_id].owner == Some(0u64)
                &&& after.roster[creature_id].body == s.roster[creature_id].body
                &&& after.roster[creature_id].model == s.roster[creature_id].model
                &&& after.roster.remove(creature_id) == s.roster.remove(creature_id)
            }
            &&& !(s.roster.contains_key(creature_id) && s.roster[creature_id].owner is None) ==> after == s
        }),
{
    if s.roster.contains_key(creature_id) && s.roster[creature_id].owner is None {
        let after = took(s, RecordView::Claim { creature_id }, fact).0;
        assert(after.roster.remove(creature_id) =~= s.roster.remove(creature_id));
    }
}

/// A tick's intents are gathered until a record that is not another intent for the same tick:
/// that record - a rez, a derez, a claim, a hash, an end, an intent for a later tick - has the
/// gathered tick stepped first, before it is taken. Nothing is stepped while nothing is gathered.
pub proof fn law_a_gathered_tick_is_stepped_before_anything_else<B, M>(s: ReplayState<B, M>, r: RecordView)
    ensures
        s.pending_tick is None ==> !completes(s, r),
        s.pending_tick is Some ==> (completes(s, r) <==> !(r matches RecordView::Applied { tick, .. } && tick == s.pending_tick.unwrap())),
        s.pending_tick is Some && (r is Rez || r is Derez || r is Claim || r is Hash || r is End
            || r is Protocol || r is World || r is Build) ==> completes(s, r),
{
}

/// An intent read for a creature is stepped before the creature leaves: a derez, or any other
/// roster record, that follows an intent for its tick has that tick stepped first, with the
/// intent read.
pub proof fn law_an_intent_is_stepped_before_its_creature_leaves<B, M>(s: ReplayState<B, M>, tick: u64, creature_id: u32, intent: Intent)
    requires
        s.roster.contains_key(creature_id),
        !s.ended,
        s.last_tick <= tick,
    ensures
        ({
            let after = took(s, RecordView::Applied { tick, creature_id, intent }, Fact::<B, M>::Nothing).0;
            &&& completes(after, RecordView::Derez { creature_id })
            &&& completes(after, RecordView::Claim { creature_id })
            &&& after.pending_tick == Some(tick)
            &&& intent_or_zero(after.pending, creature_id) == intent
        }),
{
}

/// An intent read for a creature embodied is the intent that creature steps with when its
/// tick's step is taken - the last one read for it, if the log names it twice.
pub proof fn law_read_intent_is_stepped<B, M>(s: ReplayState<B, M>, tick: u64, creature_id: u32, intent: Intent)
    requires
        s.roster.contains_key(creature_id),
        !s.ended,
        s.last_tick <= tick,
    ensures
        ({
            let (after, result) = took(s, RecordView::Applied { tick, creature_id, intent }, Fact::<B, M>::Nothing);
            &&& result == Ok::<Option<Divergence>, ReplayError>(None)
            &&& after.pending_tick == Some(tick)
            &&& intent_or_zero(after.pending, creature_id) == intent
            &&& after.roster == s.roster
        }),
{
}

/// A hash line is the divergence exactly when the re-simulated hash differs from the logged
/// one; an agreeing hash is counted and changes nothing else.
pub proof fn law_hash_decides<B, M>(s: ReplayState<B, M>, tick: u64, hash: u64, resimulated: u64)
    requires
        !s.ended,
        s.last_tick <= tick,
    ensures
        ({
            let (after, result) = took(s, RecordView::Hash { tick, hash }, Fact::<B, M>::Hashed(resimulated));
            &&& (resimulated != hash <==> result == Ok::<Option<Divergence>, ReplayError>(
                Some(Divergence { tick, logged: hash, resimulated }),
            ))
            &&& (resimulated == hash ==> result == Ok::<Option<Divergence>, ReplayError>(None)
                && after == ReplayState { hashes: (s.hashes + 1) as u32, last_tick: tick, ..s })
        }),
{
}

/// A log made by another build is not a lie: its build line is taken, the re-simulation goes
/// on, and the other build is named; this build's own stamp names nothing.
pub proof fn law_another_build_is_said<B, M>(s: ReplayState<B, M>, stamp: Seq<u8>)
    ensures
        took(s, RecordView::Build(stamp), Fact::<B, M>::Nothing).1 == Ok::<Option<Divergence>, ReplayError>(None),
        stamp != s.own_build ==> took(s, RecordView::Build(stamp), Fact::<B, M>::Nothing).0
            == (ReplayState { other_build: Some(stamp), ..s }),
        stamp == s.own_build ==> took(s, RecordView::Build(stamp), Fact::<B, M>::Nothing).0 == s,
{
}

} // verus!
