//! The validator, the only path into the world: a body's declared bounds refused by name when
//! the world does not allow them, a mesh that reaches too far or holds a number that is not a
//! normal one refused, a chain too long or spaced wrongly refused, and every intent sanitised -
//! what is not a normal number or zero becomes zero - and clamped against its body's own bounds.
//!
//! All of it on binary32 bit patterns, exactly as the comparisons read on the values: a finite
//! binary32 is its sign bit over a magnitude whose bit pattern orders as the value does, so
//! `0 < x <= b` for a positive finite `b` holds exactly when `x`'s pattern lies in `(0, b's]`,
//! and `x > b` exactly when `x` is positive and its pattern lies above `b`'s. An infinity's
//! exponent is all ones and a NaN's too, with a mantissa; a subnormal's exponent is all zeros,
//! with a mantissa.

use vstd::prelude::*;
use crate::record::DeclaredBounds;
use crate::stager::{stepped_with, Applied, Intent};
use crate::wire::{CONTACTS_MAX, SEGMENTS_MAX};

verus! {

/// The sign bit of a binary32: set for the negatives, `-0.0` among them.
pub open spec fn negative(bits: u32) -> bool {
    bits >= 0x8000_0000
}

/// A binary32's magnitude: its pattern with the sign bit cleared.
pub open spec fn magnitude(bits: u32) -> u32 {
    (bits % 0x8000_0000) as u32
}

/// A binary32's biased exponent.
pub open spec fn exponent(bits: u32) -> u32 {
    ((bits / 0x80_0000) % 0x100) as u32
}

/// Not an infinity and not a NaN.
pub open spec fn finite(bits: u32) -> bool {
    exponent(bits) != 0xFF
}

/// A normal number: neither zero, nor subnormal, nor infinite, nor a NaN.
pub open spec fn normal(bits: u32) -> bool {
    exponent(bits) != 0 && exponent(bits) != 0xFF
}

/// A NaN: the exponent all ones, and a mantissa.
pub open spec fn nan(bits: u32) -> bool {
    exponent(bits) == 0xFF && bits % 0x80_0000 != 0
}

/// `0 < x <= limit`, for a positive finite `limit`.
pub open spec fn positive_at_most(bits: u32, limit: u32) -> bool {
    0 < bits <= limit
}

/// `10.0`, the fastest forward speed a body may declare, in metres a second.
pub const WORLD_MAX_FORWARD_SPEED_BITS: u32 = 0x4120_0000;
/// `2 pi` in binary32, the fastest turn a body may declare, in radians a second.
pub const WORLD_MAX_TURN_RATE_BITS: u32 = 0x40C9_0FDB;
/// `1.0`, the loudest call a body may declare.
pub const WORLD_MAX_VOCALISATION_BITS: u32 = 0x3F80_0000;
/// No more contacts than the owner's letter can carry - the wire's cap is the world's.
pub const WORLD_MAX_CONTACTS: u32 = CONTACTS_MAX;
/// `4.0`, how far from its own origin a body may reach, in metres, on every axis.
pub const BODY_MAX_EXTENT_BITS: u32 = 0x4080_0000;

/// The world's word on a body's declared bounds: positive and no larger than the world allows,
/// each refused by name - a refusal is a log line, and a silent clamp is a creature whose host
/// believes a lie.
pub open spec fn bounds_refusal(b: DeclaredBounds) -> Option<&'static str> {
    if !positive_at_most(b.max_forward_speed, WORLD_MAX_FORWARD_SPEED_BITS) {
        Some("max_forward_speed must lie in (0, 10] m/s")
    } else if !positive_at_most(b.max_turn_rate, WORLD_MAX_TURN_RATE_BITS) {
        Some("max_turn_rate must lie in (0, 2*pi] rad/s")
    } else if !positive_at_most(b.max_vocalisation_strength, WORLD_MAX_VOCALISATION_BITS) {
        Some("max_vocalisation_strength must lie in (0, 1]")
    } else if b.max_contact_count == 0 || b.max_contact_count > WORLD_MAX_CONTACTS {
        Some("max_contact_count must lie in [1, 16]")
    } else {
        None
    }
}

/// The declared bounds, admitted only inside the world's own.
pub fn world_bounds(bounds: &DeclaredBounds) -> (judged: Result<DeclaredBounds, &'static str>)
    ensures
        judged == (match bounds_refusal(*bounds) {
            Some(reason) => Err::<DeclaredBounds, &'static str>(reason),
            None => Ok(*bounds),
        }),
{
    if !(0 < bounds.max_forward_speed && bounds.max_forward_speed <= WORLD_MAX_FORWARD_SPEED_BITS) {
        return Err("max_forward_speed must lie in (0, 10] m/s");
    }
    if !(0 < bounds.max_turn_rate && bounds.max_turn_rate <= WORLD_MAX_TURN_RATE_BITS) {
        return Err("max_turn_rate must lie in (0, 2*pi] rad/s");
    }
    if !(0 < bounds.max_vocalisation_strength && bounds.max_vocalisation_strength <= WORLD_MAX_VOCALISATION_BITS) {
        return Err("max_vocalisation_strength must lie in (0, 1]");
    }
    if bounds.max_contact_count == 0 || bounds.max_contact_count > WORLD_MAX_CONTACTS as usize {
        return Err("max_contact_count must lie in [1, 16]");
    }
    Ok(*bounds)
}

/// What is wrong with one coordinate of a mesh, if anything: a number that is neither zero nor
/// normal - a subnormal rounds to zero on one machine and not on another, and an infinity or a
/// NaN is no place - or one farther from the body's origin than the world allows.
pub open spec fn coordinate_refusal(bits: u32) -> Option<&'static str> {
    if magnitude(bits) != 0 && !normal(bits) {
        Some("a vertex coordinate is not a normal number")
    } else if magnitude(bits) > BODY_MAX_EXTENT_BITS {
        Some("a vertex lies farther than 4 m from the body origin")
    } else {
        None
    }
}

/// The first refusal among a mesh's vertices, vertex by vertex and axis by axis.
pub open spec fn extent_refusal(vertices: Seq<[u32; 3]>) -> Option<&'static str>
    decreases vertices.len(),
{
    if vertices.len() == 0 {
        None
    } else {
        let v = vertices[0];
        if coordinate_refusal(v[0]) is Some {
            coordinate_refusal(v[0])
        } else if coordinate_refusal(v[1]) is Some {
            coordinate_refusal(v[1])
        } else if coordinate_refusal(v[2]) is Some {
            coordinate_refusal(v[2])
        } else {
            extent_refusal(vertices.drop_first())
        }
    }
}

fn coordinate_check(bits: u32) -> (refusal: Option<&'static str>)
    ensures
        refusal == coordinate_refusal(bits),
{
    let magnitude = bits % 0x8000_0000;
    let exponent = (bits / 0x80_0000) % 0x100;
    if magnitude != 0 && !(exponent != 0 && exponent != 0xFF) {
        Some("a vertex coordinate is not a normal number")
    } else if magnitude > BODY_MAX_EXTENT_BITS {
        Some("a vertex lies farther than 4 m from the body origin")
    } else {
        None
    }
}

/// Every vertex within 4 m of the body's origin on every axis, and none of its coordinates a
/// number that is neither zero nor normal: the first that is not, refused by name.
pub fn body_extent(vertices: &Vec<[u32; 3]>) -> (judged: Result<(), &'static str>)
    ensures
        judged == (match extent_refusal(vertices@) {
            Some(reason) => Err::<(), &'static str>(reason),
            None => Ok(()),
        }),
{
    let mut i: usize = 0;
    proof { assert(vertices@.skip(0) =~= vertices@); }
    while i < vertices.len()
        invariant
            i <= vertices@.len(),
            extent_refusal(vertices@) == extent_refusal(vertices@.skip(i as int)),
        decreases vertices@.len() - i,
    {
        let v = vertices[i];
        proof {
            assert(vertices@.skip(i as int)[0] == v);
            assert(vertices@.skip(i as int).drop_first() =~= vertices@.skip(i + 1));
        }
        if let Some(reason) = coordinate_check(v[0]) {
            return Err(reason);
        }
        if let Some(reason) = coordinate_check(v[1]) {
            return Err(reason);
        }
        if let Some(reason) = coordinate_check(v[2]) {
            return Err(reason);
        }
        i = i + 1;
    }
    proof { assert(vertices@.skip(i as int).len() == 0); }
    Ok(())
}

/// A body's declared chain as its `REZ` carries it: how many segments, the head among them, and
/// how far apart they stand, as a binary32 bit pattern.
#[derive(Clone, Copy, PartialEq, Eq, Debug)]
pub struct DeclaredChain {
    pub segment_count: u32,
    pub segment_spacing: u32,
}

/// A single body: one segment, no spacing - what a body that declares no chain is.
pub open spec fn single_body() -> DeclaredChain {
    DeclaredChain { segment_count: 1, segment_spacing: 0 }
}

/// The world's word on a declared chain: at least its head and at most `SEGMENTS_MAX`
/// segments; a single body has no spacing, `+0.0` or `-0.0`; a chain has a positive one, a
/// normal number for the reason a vertex must be one, no longer than the extent a body may
/// reach.
pub open spec fn chain_refusal(chain: DeclaredChain) -> Option<&'static str> {
    if chain.segment_count == 0 || chain.segment_count > SEGMENTS_MAX {
        Some("segment_count must lie in [1, 8]")
    } else if chain.segment_count == 1 {
        if magnitude(chain.segment_spacing) != 0 {
            Some("segment_spacing must be 0 for a single body")
        } else {
            None
        }
    } else if !(normal(chain.segment_spacing) && !negative(chain.segment_spacing)
        && chain.segment_spacing <= BODY_MAX_EXTENT_BITS) {
        Some("segment_spacing must lie in (0, 4] m for a chain")
    } else {
        None
    }
}

/// The declared chain, admitted only inside the wire's cap and the world's own sense.
pub fn chain_bounds(chain: &DeclaredChain) -> (judged: Result<(), &'static str>)
    ensures
        judged == (match chain_refusal(*chain) {
            Some(reason) => Err::<(), &'static str>(reason),
            None => Ok(()),
        }),
{
    if chain.segment_count == 0 || chain.segment_count > SEGMENTS_MAX {
        return Err("segment_count must lie in [1, 8]");
    }
    let spacing = chain.segment_spacing;
    if chain.segment_count == 1 {
        if spacing % 0x8000_0000 != 0 {
            return Err("segment_spacing must be 0 for a single body");
        }
        return Ok(());
    }
    let exponent = (spacing / 0x80_0000) % 0x100;
    if !(exponent != 0 && exponent != 0xFF && spacing < 0x8000_0000 && spacing <= BODY_MAX_EXTENT_BITS) {
        return Err("segment_spacing must lie in (0, 4] m for a chain");
    }
    Ok(())
}

/// The first refusal of a `REZ`'s declaration: its bounds, then its mesh's extent, then its
/// chain.
pub open spec fn rez_refusal(bounds: DeclaredBounds, chain: DeclaredChain, vertices: Seq<[u32; 3]>) -> Option<&'static str> {
    if bounds_refusal(bounds) is Some {
        bounds_refusal(bounds)
    } else if extent_refusal(vertices) is Some {
        extent_refusal(vertices)
    } else {
        chain_refusal(chain)
    }
}

/// The validator's word on a `REZ`: the declared bounds first, then the mesh's extent, then
/// the chain.
pub open spec fn judgement(bounds: DeclaredBounds, chain: DeclaredChain, vertices: Seq<[u32; 3]>) -> Result<(), &'static str> {
    match rez_refusal(bounds, chain, vertices) {
        Some(reason) => Err(reason),
        None => Ok(()),
    }
}

/// The world's judgement of a `REZ`'s declared bounds, mesh and chain, in that order. The
/// bounds admitted when all three stand.
pub fn judge_rez(bounds: &DeclaredBounds, chain: &DeclaredChain, vertices: &Vec<[u32; 3]>) -> (judged: Result<DeclaredBounds, &'static str>)
    ensures
        judged == (match rez_refusal(*bounds, *chain, vertices@) {
            Some(reason) => Err::<DeclaredBounds, &'static str>(reason),
            None => Ok(*bounds),
        }),
{
    let admitted = world_bounds(bounds)?;
    body_extent(vertices)?;
    chain_bounds(chain)?;
    Ok(admitted)
}

/// A value that is not a real number is zero, and so is a subnormal one - a machine running
/// flush-to-zero would read it as zero and another as itself, and the world steps alike on both.
/// A zero keeps its sign; everything else is a normal number and stays what it is.
pub open spec fn normal_or_zero(bits: u32) -> u32 {
    if normal(bits) || magnitude(bits) == 0 { bits } else { 0 }
}

/// Where a binary32 that is not a NaN stands among the others: its magnitude's pattern, signed,
/// both zeroes at 0. Patterns order this way exactly as the values do, infinities included.
pub open spec fn ordinal(bits: u32) -> int {
    if negative(bits) { -(magnitude(bits) as int) } else { magnitude(bits) as int }
}

/// `a < b` as binary32 compares: never when either is a NaN.
pub open spec fn below(a: u32, b: u32) -> bool {
    !nan(a) && !nan(b) && ordinal(a) < ordinal(b)
}

/// A binary32 negated: its sign bit flipped.
pub open spec fn negated(bits: u32) -> u32 {
    if negative(bits) { (bits - 0x8000_0000) as u32 } else { (bits + 0x8000_0000) as u32 }
}

/// A value clamped by comparison to `[-bound, bound]`: above the bound it is the bound, below
/// the bound's negation it is the negation, anything else is itself - comparisons as binary32
/// makes them, whatever the bound.
#[verifier::opaque]
pub open spec fn clamp_magnitude(bits: u32, bound: u32) -> u32 {
    if below(bound, bits) {
        bound
    } else if below(bits, negated(bound)) {
        negated(bound)
    } else {
        bits
    }
}

/// A bound as the world admits them: positive and finite.
pub open spec fn sound_bound(bound: u32) -> bool {
    0 < bound < 0x7F80_0000
}

/// An intent sanitised and clamped against a body's bounds: a value that is not a real number,
/// or is subnormal, becomes zero, and never a bound; each then clamps to its bound by comparison; a negative
/// call is silence, because a call is loudness, not a signed quantity.
pub open spec fn sanitised(intent: Intent, bounds: DeclaredBounds) -> Intent {
    let vocalisation = normal_or_zero(intent.vocalisation);
    Intent {
        forward_speed: clamp_magnitude(normal_or_zero(intent.forward_speed), bounds.max_forward_speed),
        turn_rate: clamp_magnitude(normal_or_zero(intent.turn_rate), bounds.max_turn_rate),
        vocalisation: if below(vocalisation, 0) {
            0
        } else {
            clamp_magnitude(vocalisation, bounds.max_vocalisation_strength)
        },
    }
}

fn normal_or_zero_exec(bits: u32) -> (out: u32)
    ensures
        out == normal_or_zero(bits),
{
    let exponent = (bits / 0x80_0000) % 0x100;
    if (exponent != 0 && exponent != 0xFF) || bits % 0x8000_0000 == 0 { bits } else { 0 }
}

fn below_exec(a: u32, b: u32) -> (out: bool)
    ensures
        out == below(a, b),
{
    let a_nan = (a / 0x80_0000) % 0x100 == 0xFF && a % 0x80_0000 != 0;
    let b_nan = (b / 0x80_0000) % 0x100 == 0xFF && b % 0x80_0000 != 0;
    if a_nan || b_nan {
        return false;
    }
    let a_at: i64 = if a >= 0x8000_0000 { -((a % 0x8000_0000) as i64) } else { (a % 0x8000_0000) as i64 };
    let b_at: i64 = if b >= 0x8000_0000 { -((b % 0x8000_0000) as i64) } else { (b % 0x8000_0000) as i64 };
    a_at < b_at
}

fn negated_exec(bits: u32) -> (out: u32)
    ensures
        out == negated(bits),
{
    if bits >= 0x8000_0000 { bits - 0x8000_0000 } else { bits + 0x8000_0000 }
}

fn clamp_exec(bits: u32, bound: u32) -> (out: u32)
    ensures
        out == clamp_magnitude(bits, bound),
{
    proof { reveal(clamp_magnitude); }
    if below_exec(bound, bits) {
        bound
    } else {
        let floor = negated_exec(bound);
        if below_exec(bits, floor) { floor } else { bits }
    }
}

/// Zero if not a real number or subnormal, then clamped by comparison to the body's bounds. What
/// must be true is that a NaN becomes zero and never a bound: sanitise precedes clamp, and the
/// clamp is comparison-based.
pub fn sanitise_and_clamp(intent: Intent, bounds: &DeclaredBounds) -> (out: Intent)
    ensures
        out == sanitised(intent, *bounds),
{
    let vocalisation = normal_or_zero_exec(intent.vocalisation);
    Intent {
        forward_speed: clamp_exec(normal_or_zero_exec(intent.forward_speed), bounds.max_forward_speed),
        turn_rate: clamp_exec(normal_or_zero_exec(intent.turn_rate), bounds.max_turn_rate),
        vocalisation: if below_exec(vocalisation, 0) {
            0
        } else {
            clamp_exec(vocalisation, bounds.max_vocalisation_strength)
        },
    }
}

/// Against a positive finite bound, a value that is zero or normal clamps to itself when it lies
/// within the bound, and to the bound or its negation, by its sign, when it lies beyond.
proof fn lemma_clamp_within(bits: u32, bound: u32)
    requires
        sound_bound(bound),
        normal(bits) || magnitude(bits) == 0,
    ensures
        clamp_magnitude(bits, bound) == (if magnitude(bits) <= bound {
            bits
        } else if negative(bits) {
            (bound + 0x8000_0000) as u32
        } else {
            bound
        }),
        !below(bits, 0) <==> !(negative(bits) && magnitude(bits) != 0),
        !nan(bits),
        finite(bits),
{
    reveal(clamp_magnitude);
    assert(!nan(bound));
    assert(negated(bound) == (bound + 0x8000_0000) as u32);
    assert(!nan(negated(bound)));
    assert(ordinal(negated(bound)) == -(bound as int));
    assert(!nan(0u32));
    assert(ordinal(0u32) == 0);
}

/// One field sanitised and clamped against a positive finite bound: what is not a real number,
/// and a subnormal, comes out zero; what comes out is finite, within the bound, and a zero, a
/// normal number or the bound itself.
proof fn lemma_field(bits: u32, bound: u32)
    requires
        sound_bound(bound),
    ensures
        ({
            let out = clamp_magnitude(normal_or_zero(bits), bound);
            &&& nan(bits) ==> out == 0
            &&& !finite(bits) ==> out == 0
            &&& exponent(bits) == 0 && magnitude(bits) != 0 ==> out == 0
            &&& finite(out)
            &&& magnitude(out) <= bound
            &&& exponent(out) == 0 ==> magnitude(out) == 0 || magnitude(out) == bound
        }),
{
    lemma_clamp_within(normal_or_zero(bits), bound);
}

/// Every body's intent for one step, in the order given, sanitised and clamped against that
/// body's own bounds - `bounds[i]` are those of the body stepped `i`-th.
pub fn clamp_intents(intents: &Vec<(u32, Intent)>, bounds: &Vec<DeclaredBounds>) -> (steered: Vec<(u32, Intent)>)
    requires
        intents@.len() == bounds@.len(),
    ensures
        steered@.len() == intents@.len(),
        forall|i: int| 0 <= i < intents@.len() ==> #[trigger] steered@[i]
            == (intents@[i].0, sanitised(intents@[i].1, bounds@[i])),
{
    let mut steered: Vec<(u32, Intent)> = Vec::new();
    let mut i: usize = 0;
    while i < intents.len()
        invariant
            intents@.len() == bounds@.len(),
            i <= intents@.len(),
            steered@.len() == i,
            forall|j: int| 0 <= j < i ==> #[trigger] steered@[j] == (intents@[j].0, sanitised(intents@[j].1, bounds@[j])),
        decreases intents@.len() - i,
    {
        let (creature_id, intent) = intents[i];
        steered.push((creature_id, sanitise_and_clamp(intent, &bounds[i])));
        i += 1;
    }
    steered
}

/// Every body's intent for one step of the world, in the order given: the one the silence rules
/// applied to it, sanitised and clamped against that body's own bounds - `bounds[i]` are those
/// of the body stepped `i`-th. Nothing reaches the physics but through here.
pub fn clamp_applied(applied: &Vec<(u32, Applied)>, bounds: &Vec<DeclaredBounds>) -> (steered: Vec<(u32, Intent)>)
    requires
        applied@.len() == bounds@.len(),
    ensures
        steered@.len() == applied@.len(),
        forall|i: int| 0 <= i < applied@.len() ==> #[trigger] steered@[i]
            == (applied@[i].0, sanitised(stepped_with(applied@[i].1), bounds@[i])),
{
    let mut intents: Vec<(u32, Intent)> = Vec::new();
    let mut i: usize = 0;
    while i < applied.len()
        invariant
            i <= applied@.len(),
            intents@.len() == i,
            forall|j: int| 0 <= j < i ==> #[trigger] intents@[j] == (applied@[j].0, stepped_with(applied@[j].1)),
        decreases applied@.len() - i,
    {
        let (creature_id, how) = applied[i];
        let intent = match how {
            Applied::Fresh(intent) => intent,
            Applied::Repeated(intent) => intent,
            Applied::Coasted => Intent { forward_speed: 0, turn_rate: 0, vocalisation: 0 },
        };
        intents.push((creature_id, intent));
        i += 1;
    }
    clamp_intents(&intents, bounds)
}

/// Bounds the world admitted are bounds the clamp may compare against.
pub proof fn law_admitted_bounds_are_sound(bounds: DeclaredBounds)
    requires
        bounds_refusal(bounds) is None,
    ensures
        sound_bound(bounds.max_forward_speed),
        sound_bound(bounds.max_turn_rate),
        sound_bound(bounds.max_vocalisation_strength),
        1 <= bounds.max_contact_count <= WORLD_MAX_CONTACTS,
{
}

/// A NaN becomes zero and never a bound; so does an infinity, and so does a subnormal, which
/// becomes `+0.0`; and whatever comes in, what goes out lies within the body's bounds - forward
/// speed and turn rate in `[-bound, bound]`, the call in `[0, bound]` save a silent `-0.0` - and
/// is a zero, a normal number or the bound itself, never a subnormal the intent carried in.
pub proof fn law_nothing_unreal_and_nothing_beyond(intent: Intent, bounds: DeclaredBounds)
    requires
        sound_bound(bounds.max_forward_speed),
        sound_bound(bounds.max_turn_rate),
        sound_bound(bounds.max_vocalisation_strength),
    ensures
        nan(intent.forward_speed) ==> sanitised(intent, bounds).forward_speed == 0,
        nan(intent.turn_rate) ==> sanitised(intent, bounds).turn_rate == 0,
        nan(intent.vocalisation) ==> sanitised(intent, bounds).vocalisation == 0,
        !finite(intent.forward_speed) ==> sanitised(intent, bounds).forward_speed == 0,
        !finite(intent.turn_rate) ==> sanitised(intent, bounds).turn_rate == 0,
        !finite(intent.vocalisation) ==> sanitised(intent, bounds).vocalisation == 0,
        exponent(intent.forward_speed) == 0 && magnitude(intent.forward_speed) != 0
            ==> sanitised(intent, bounds).forward_speed == 0,
        exponent(intent.turn_rate) == 0 && magnitude(intent.turn_rate) != 0
            ==> sanitised(intent, bounds).turn_rate == 0,
        exponent(intent.vocalisation) == 0 && magnitude(intent.vocalisation) != 0
            ==> sanitised(intent, bounds).vocalisation == 0,
        finite(sanitised(intent, bounds).forward_speed),
        finite(sanitised(intent, bounds).turn_rate),
        finite(sanitised(intent, bounds).vocalisation),
        magnitude(sanitised(intent, bounds).forward_speed) <= bounds.max_forward_speed,
        magnitude(sanitised(intent, bounds).turn_rate) <= bounds.max_turn_rate,
        magnitude(sanitised(intent, bounds).vocalisation) <= bounds.max_vocalisation_strength,
        negative(sanitised(intent, bounds).vocalisation) ==> magnitude(sanitised(intent, bounds).vocalisation) == 0,
        exponent(sanitised(intent, bounds).forward_speed) == 0 ==> magnitude(sanitised(intent, bounds).forward_speed) == 0
            || magnitude(sanitised(intent, bounds).forward_speed) == bounds.max_forward_speed,
        exponent(sanitised(intent, bounds).turn_rate) == 0 ==> magnitude(sanitised(intent, bounds).turn_rate) == 0
            || magnitude(sanitised(intent, bounds).turn_rate) == bounds.max_turn_rate,
        exponent(sanitised(intent, bounds).vocalisation) == 0 ==> magnitude(sanitised(intent, bounds).vocalisation) == 0
            || magnitude(sanitised(intent, bounds).vocalisation) == bounds.max_vocalisation_strength,
{
    lemma_field(intent.forward_speed, bounds.max_forward_speed);
    lemma_field(intent.turn_rate, bounds.max_turn_rate);
    lemma_field(intent.vocalisation, bounds.max_vocalisation_strength);
    lemma_clamp_within(normal_or_zero(intent.vocalisation), bounds.max_vocalisation_strength);
}

} // verus!
