//! The input log's lines as the world writes them: one record per line, words separated by
//! single spaces, counts and ticks in decimal, every binary32 value as its bit pattern in eight
//! upper-case hex digits - because a decimal float is a rounding, and a rounding is
//! information lost. Refusals are logged too.

use vstd::prelude::*;
use crate::text::{dec, hex_fixed, join, plain_word, decimal, hex};
use crate::stager::{Intent, Verdict, Applied, zero_intent};
use crate::wire::Actions;

verus! {

/// A body's declared bounds as the log and Clu carry them: the three limits as binary32 bit
/// patterns, and the most contacts it may feel.
#[derive(Clone, Copy, PartialEq, Eq, Debug)]
pub struct DeclaredBounds {
    pub max_forward_speed: u32,
    pub max_turn_rate: u32,
    pub max_vocalisation_strength: u32,
    pub max_contact_count: usize,
}

/// The word `protocol`.
pub const KW_PROTOCOL: [u8; 8] = [112, 114, 111, 116, 111, 99, 111, 108];

/// The word `world`.
pub const KW_WORLD: [u8; 5] = [119, 111, 114, 108, 100];

/// The word `start`.
pub const KW_START: [u8; 5] = [115, 116, 97, 114, 116];

/// The word `hash_every`.
pub const KW_HASH_EVERY: [u8; 10] = [104, 97, 115, 104, 95, 101, 118, 101, 114, 121];

/// The word `build`.
pub const KW_BUILD: [u8; 5] = [98, 117, 105, 108, 100];

/// The word `judged`.
pub const KW_JUDGED: [u8; 6] = [106, 117, 100, 103, 101, 100];

/// The word `applied`.
pub const KW_APPLIED: [u8; 7] = [97, 112, 112, 108, 105, 101, 100];

/// The word `hash`.
pub const KW_HASH: [u8; 4] = [104, 97, 115, 104];

/// The word `rez`.
pub const KW_REZ: [u8; 3] = [114, 101, 122];

/// The word `derez`.
pub const KW_DEREZ: [u8; 5] = [100, 101, 114, 101, 122];

/// The word `claim`.
pub const KW_CLAIM: [u8; 5] = [99, 108, 97, 105, 109];

/// The word `end`.
pub const KW_END: [u8; 3] = [101, 110, 100];

/// The word `#`.
pub const KW_HASH_MARK: [u8; 1] = [35];

/// The word `fresh`.
pub const KW_FRESH: [u8; 5] = [102, 114, 101, 115, 104];

/// The word `repeated`.
pub const KW_REPEATED: [u8; 8] = [114, 101, 112, 101, 97, 116, 101, 100];

/// The word `coasted`.
pub const KW_COASTED: [u8; 7] = [99, 111, 97, 115, 116, 101, 100];

/// The word `accepted`.
pub const KW_ACCEPTED: [u8; 8] = [97, 99, 99, 101, 112, 116, 101, 100];

/// The word `already_applied`.
pub const KW_ALREADY_APPLIED: [u8; 15] = [97, 108, 114, 101, 97, 100, 121, 95, 97, 112, 112, 108, 105, 101, 100];

/// The word `before_first_intent`.
pub const KW_BEFORE_FIRST_INTENT: [u8; 19] = [98, 101, 102, 111, 114, 101, 95, 102, 105, 114, 115, 116, 95, 105, 110, 116, 101, 110, 116];

/// The word `refused_stale`.
pub const KW_REFUSED_STALE: [u8; 13] = [114, 101, 102, 117, 115, 101, 100, 95, 115, 116, 97, 108, 101];

/// The word `refused_future`.
pub const KW_REFUSED_FUTURE: [u8; 14] = [114, 101, 102, 117, 115, 101, 100, 95, 102, 117, 116, 117, 114, 101];

/// The word `refused_not_owner`.
pub const KW_REFUSED_NOT_OWNER: [u8; 17] = [114, 101, 102, 117, 115, 101, 100, 95, 110, 111, 116, 95, 111, 119, 110, 101, 114];

/// The word `refused_not_embodied`.
pub const KW_REFUSED_NOT_EMBODIED: [u8; 20] = [114, 101, 102, 117, 115, 101, 100, 95, 110, 111, 116, 95, 101, 109, 98, 111, 100, 105, 101, 100];

/// Whether two byte runs are the same.
pub fn same_bytes(a: &[u8], b: &[u8]) -> (same: bool)
    ensures
        same == (a@ == b@),
{
    if a.len() != b.len() {
        return false;
    }
    let mut i: usize = 0;
    while i < a.len()
        invariant
            a@.len() == b@.len(),
            i <= a@.len(),
            forall|j: int| 0 <= j < i ==> a@[j] == b@[j],
        decreases a@.len() - i,
    {
        if a[i] != b[i] {
            return false;
        }
        i = i + 1;
    }
    proof { assert(a@ =~= b@); }
    true
}

/// The header line `# master-control input log`.
pub const HEADER_TITLE: [u8; 26] = [35, 32, 109, 97, 115, 116, 101, 114, 45, 99, 111, 110, 116, 114, 111, 108, 32, 105, 110, 112, 117, 116, 32, 108, 111, 103];

/// The header line `# judged <sender> <creature> <intent_tick> <next_tick> <forward_bits> <turn_bits> <voice_bits> <verdict>`.
pub const HEADER_JUDGED: [u8; 104] = [35, 32, 106, 117, 100, 103, 101, 100, 32, 60, 115, 101, 110, 100, 101, 114, 62, 32, 60, 99, 114, 101, 97, 116, 117, 114, 101, 62, 32, 60, 105, 110, 116, 101, 110, 116, 95, 116, 105, 99, 107, 62, 32, 60, 110, 101, 120, 116, 95, 116, 105, 99, 107, 62, 32, 60, 102, 111, 114, 119, 97, 114, 100, 95, 98, 105, 116, 115, 62, 32, 60, 116, 117, 114, 110, 95, 98, 105, 116, 115, 62, 32, 60, 118, 111, 105, 99, 101, 95, 98, 105, 116, 115, 62, 32, 60, 118, 101, 114, 100, 105, 99, 116, 62];

/// The header line `# applied <tick> <creature> <fresh|repeated|coasted> <forward_bits> <turn_bits> <voice_bits>`.
pub const HEADER_APPLIED: [u8; 92] = [35, 32, 97, 112, 112, 108, 105, 101, 100, 32, 60, 116, 105, 99, 107, 62, 32, 60, 99, 114, 101, 97, 116, 117, 114, 101, 62, 32, 60, 102, 114, 101, 115, 104, 124, 114, 101, 112, 101, 97, 116, 101, 100, 124, 99, 111, 97, 115, 116, 101, 100, 62, 32, 60, 102, 111, 114, 119, 97, 114, 100, 95, 98, 105, 116, 115, 62, 32, 60, 116, 117, 114, 110, 95, 98, 105, 116, 115, 62, 32, 60, 118, 111, 105, 99, 101, 95, 98, 105, 116, 115, 62];

/// The header line `# hash <tick> <fnv1a_64_hex>`.
pub const HEADER_HASH: [u8; 28] = [35, 32, 104, 97, 115, 104, 32, 60, 116, 105, 99, 107, 62, 32, 60, 102, 110, 118, 49, 97, 95, 54, 52, 95, 104, 101, 120, 62];

/// Words joined one word further: the line so far, a space, the word.
pub proof fn lemma_join_push(ws: Seq<Seq<u8>>, w: Seq<u8>)
    requires
        ws.len() >= 1,
    ensures
        join(ws.push(w)) == join(ws) + seq![0x20u8] + w,
    decreases ws.len(),
{
    if ws.len() == 1 {
        assert(ws.push(w).drop_first() =~= seq![w]);
        assert(join(seq![w]) == w);
    } else {
        assert(ws.push(w).drop_first() =~= ws.drop_first().push(w));
        lemma_join_push(ws.drop_first(), w);
        assert(join(ws.push(w)) =~= join(ws) + seq![0x20u8] + w);
    }
}

/// The bytes of every word, in order.
pub open spec fn word_views(words: Seq<Vec<u8>>) -> Seq<Seq<u8>> {
    words.map_values(|w: Vec<u8>| w@)
}

/// Words joined into a line by single spaces.
pub fn line_of(words: &Vec<Vec<u8>>) -> (line: Vec<u8>)
    requires
        words@.len() >= 1,
    ensures
        line@ == join(word_views(words@)),
{
    let mut line: Vec<u8> = Vec::new();
    let first = &words[0];
    let mut k: usize = 0;
    while k < first.len()
        invariant
            k <= first@.len(),
            line@ == first@.take(k as int),
        decreases first@.len() - k,
    {
        line.push(first[k]);
        proof { assert(line@ =~= first@.take(k + 1)); }
        k = k + 1;
    }
    proof {
        assert(first@.take(first@.len() as int) =~= first@);
        assert(word_views(words@).take(1) =~= seq![first@]);
    }
    let mut i: usize = 1;
    while i < words.len()
        invariant
            1 <= i <= words@.len(),
            line@ == join(word_views(words@).take(i as int)),
        decreases words@.len() - i,
    {
        let w = &words[i];
        let ghost before = line@;
        line.push(0x20);
        let mut k: usize = 0;
        while k < w.len()
            invariant
                k <= w@.len(),
                line@ == before + seq![0x20u8] + w@.take(k as int),
            decreases w@.len() - k,
        {
            line.push(w[k]);
            proof { assert(line@ =~= before + seq![0x20u8] + w@.take(k + 1)); }
            k = k + 1;
        }
        proof {
            assert(w@.take(w@.len() as int) =~= w@);
            lemma_join_push(word_views(words@).take(i as int), w@);
            assert(word_views(words@).take(i as int).push(w@) =~= word_views(words@).take(i + 1));
        }
        i = i + 1;
    }
    proof { assert(word_views(words@).take(words@.len() as int) =~= word_views(words@)); }
    line
}

/// A copy of a word.
pub(crate) fn word(bytes: &[u8]) -> (w: Vec<u8>)
    ensures
        w@ == bytes@,
{
    let mut w: Vec<u8> = Vec::new();
    let mut i: usize = 0;
    while i < bytes.len()
        invariant
            i <= bytes@.len(),
            w@ == bytes@.take(i as int),
        decreases bytes@.len() - i,
    {
        w.push(bytes[i]);
        proof { assert(w@ =~= bytes@.take(i + 1)); }
        i = i + 1;
    }
    proof { assert(bytes@.take(bytes@.len() as int) =~= bytes@); }
    w
}


/// A binary32 value's bit pattern as the log writes it: eight upper-case hex digits.
pub open spec fn bits_word(bits: u32) -> Seq<u8> {
    hex_fixed(bits as nat, 8)
}

/// The word the log names a verdict by.
pub open spec fn verdict_word(v: Verdict) -> Seq<u8> {
    match v {
        Verdict::Accepted { .. } => KW_ACCEPTED@,
        Verdict::AlreadyApplied { .. } => KW_ALREADY_APPLIED@,
        Verdict::BeforeFirstIntent { .. } => KW_BEFORE_FIRST_INTENT@,
        Verdict::RefusedStale { .. } => KW_REFUSED_STALE@,
        Verdict::RefusedFuture { .. } => KW_REFUSED_FUTURE@,
        Verdict::RefusedNotOwner { .. } => KW_REFUSED_NOT_OWNER@,
        Verdict::RefusedNotEmbodied { .. } => KW_REFUSED_NOT_EMBODIED@,
    }
}

/// The line that records one intent judged: who sent it, for which creature and tick, against
/// which next tick, the three values, and the verdict.
pub open spec fn judged_text(sender: u64, creature_id: u32, intent_tick: u64, next_tick: u64, intent: Intent, verdict: Verdict) -> Seq<u8> {
    join(seq![
        KW_JUDGED@, dec(sender as nat), dec(creature_id as nat), dec(intent_tick as nat), dec(next_tick as nat),
        bits_word(intent.forward_speed), bits_word(intent.turn_rate), bits_word(intent.vocalisation),
        verdict_word(verdict),
    ])
}

/// The word the log names how an intent came to be applied by, and the intent it carries.
pub open spec fn applied_parts(applied: Applied) -> (Seq<u8>, Intent) {
    match applied {
        Applied::Fresh(intent) => (KW_FRESH@, intent),
        Applied::Repeated(intent) => (KW_REPEATED@, intent),
        Applied::Coasted => (KW_COASTED@, zero_intent()),
    }
}

/// The line that records one intent applied to one body at one tick: the true input to the
/// physics, after the silence rules.
pub open spec fn applied_text(tick: u64, creature_id: u32, applied: Applied) -> Seq<u8> {
    let (how, intent) = applied_parts(applied);
    join(seq![
        KW_APPLIED@, dec(tick as nat), dec(creature_id as nat), how,
        bits_word(intent.forward_speed), bits_word(intent.turn_rate), bits_word(intent.vocalisation),
    ])
}

/// The line that records the state hash at a tick, in sixteen upper-case hex digits.
pub open spec fn hash_text(tick: u64, hash: u64) -> Seq<u8> {
    join(seq![KW_HASH@, dec(tick as nat), hex_fixed(hash as nat, 16)])
}

/// The line that records a creature leaving at a tick.
pub open spec fn derez_text(tick: u64, creature_id: u32) -> Seq<u8> {
    join(seq![KW_DEREZ@, dec(tick as nat), dec(creature_id as nat)])
}

/// The line that records an orphan taken up by steering at a tick.
pub open spec fn claim_text(tick: u64, creature_id: u32) -> Seq<u8> {
    join(seq![KW_CLAIM@, dec(tick as nat), dec(creature_id as nat)])
}

/// The world's own end line: it stopped on request after this tick.
pub open spec fn end_text(tick: u64) -> Seq<u8> {
    join(seq![KW_END@, dec(tick as nat)])
}

/// The words of a body's vertices, each coordinate a bit pattern.
pub open spec fn vertex_words(vertices: Seq<[u32; 3]>) -> Seq<Seq<u8>>
    decreases vertices.len(),
{
    if vertices.len() == 0 {
        Seq::empty()
    } else {
        vertex_words(vertices.drop_last()) + seq![
            bits_word(vertices.last()[0]), bits_word(vertices.last()[1]), bits_word(vertices.last()[2]),
        ]
    }
}

/// The line that records a body rezzed at a tick: its declared bounds and every vertex.
pub open spec fn rez_text(tick: u64, creature_id: u32, bounds: DeclaredBounds, vertices: Seq<[u32; 3]>) -> Seq<u8> {
    join(seq![
        KW_REZ@, dec(tick as nat), dec(creature_id as nat),
        bits_word(bounds.max_forward_speed), bits_word(bounds.max_turn_rate), bits_word(bounds.max_vocalisation_strength),
        dec(bounds.max_contact_count as nat), dec(vertices.len()),
    ] + vertex_words(vertices))
}

fn verdict_bytes(v: Verdict) -> (w: Vec<u8>)
    ensures
        w@ == verdict_word(v),
{
    match v {
        Verdict::Accepted { .. } => word(&KW_ACCEPTED),
        Verdict::AlreadyApplied { .. } => word(&KW_ALREADY_APPLIED),
        Verdict::BeforeFirstIntent { .. } => word(&KW_BEFORE_FIRST_INTENT),
        Verdict::RefusedStale { .. } => word(&KW_REFUSED_STALE),
        Verdict::RefusedFuture { .. } => word(&KW_REFUSED_FUTURE),
        Verdict::RefusedNotOwner { .. } => word(&KW_REFUSED_NOT_OWNER),
        Verdict::RefusedNotEmbodied { .. } => word(&KW_REFUSED_NOT_EMBODIED),
    }
}

/// One intent judged, as its log line.
pub fn judged_line(sender: u64, creature_id: u32, intent_tick: u64, next_tick: u64, intent: Intent, verdict: Verdict) -> (line: Vec<u8>)
    ensures
        line@ == judged_text(sender, creature_id, intent_tick, next_tick, intent, verdict),
{
    let mut words: Vec<Vec<u8>> = Vec::new();
    words.push(word(&KW_JUDGED));
    words.push(decimal(sender));
    words.push(decimal(creature_id as u64));
    words.push(decimal(intent_tick));
    words.push(decimal(next_tick));
    words.push(hex(intent.forward_speed as u64, 8));
    words.push(hex(intent.turn_rate as u64, 8));
    words.push(hex(intent.vocalisation as u64, 8));
    words.push(verdict_bytes(verdict));
    let line = line_of(&words);
    proof {
        assert(word_views(words@) =~= seq![
            KW_JUDGED@, dec(sender as nat), dec(creature_id as nat), dec(intent_tick as nat), dec(next_tick as nat),
            bits_word(intent.forward_speed), bits_word(intent.turn_rate), bits_word(intent.vocalisation),
            verdict_word(verdict),
        ]);
    }
    line
}

/// One intent applied, as its log line.
pub fn applied_line(tick: u64, creature_id: u32, applied: Applied) -> (line: Vec<u8>)
    ensures
        line@ == applied_text(tick, creature_id, applied),
{
    let (how, intent) = match applied {
        Applied::Fresh(intent) => (word(&KW_FRESH), intent),
        Applied::Repeated(intent) => (word(&KW_REPEATED), intent),
        Applied::Coasted => (word(&KW_COASTED), Intent { forward_speed: 0, turn_rate: 0, vocalisation: 0 }),
    };
    let mut words: Vec<Vec<u8>> = Vec::new();
    words.push(word(&KW_APPLIED));
    words.push(decimal(tick));
    words.push(decimal(creature_id as u64));
    words.push(how);
    words.push(hex(intent.forward_speed as u64, 8));
    words.push(hex(intent.turn_rate as u64, 8));
    words.push(hex(intent.vocalisation as u64, 8));
    let line = line_of(&words);
    proof {
        let (h, i) = applied_parts(applied);
        assert(word_views(words@) =~= seq![
            KW_APPLIED@, dec(tick as nat), dec(creature_id as nat), h,
            bits_word(i.forward_speed), bits_word(i.turn_rate), bits_word(i.vocalisation),
        ]);
    }
    line
}

/// The state hash at a tick, as its log line.
pub fn hash_line(tick: u64, hash: u64) -> (line: Vec<u8>)
    ensures
        line@ == hash_text(tick, hash),
{
    let mut words: Vec<Vec<u8>> = Vec::new();
    words.push(word(&KW_HASH));
    words.push(decimal(tick));
    words.push(hex(hash, 16));
    let line = line_of(&words);
    proof { assert(word_views(words@) =~= seq![KW_HASH@, dec(tick as nat), hex_fixed(hash as nat, 16)]); }
    line
}

/// A leave, as its log line.
pub fn derez_line(tick: u64, creature_id: u32) -> (line: Vec<u8>)
    ensures
        line@ == derez_text(tick, creature_id),
{
    let mut words: Vec<Vec<u8>> = Vec::new();
    words.push(word(&KW_DEREZ));
    words.push(decimal(tick));
    words.push(decimal(creature_id as u64));
    let line = line_of(&words);
    proof { assert(word_views(words@) =~= seq![KW_DEREZ@, dec(tick as nat), dec(creature_id as nat)]); }
    line
}

/// An orphan taken up by steering, as its log line.
pub fn claim_line(tick: u64, creature_id: u32) -> (line: Vec<u8>)
    ensures
        line@ == claim_text(tick, creature_id),
{
    let mut words: Vec<Vec<u8>> = Vec::new();
    words.push(word(&KW_CLAIM));
    words.push(decimal(tick));
    words.push(decimal(creature_id as u64));
    let line = line_of(&words);
    proof { assert(word_views(words@) =~= seq![KW_CLAIM@, dec(tick as nat), dec(creature_id as nat)]); }
    line
}

/// The world's end, as its log line.
pub fn end_line(tick: u64) -> (line: Vec<u8>)
    ensures
        line@ == end_text(tick),
{
    let mut words: Vec<Vec<u8>> = Vec::new();
    words.push(word(&KW_END));
    words.push(decimal(tick));
    let line = line_of(&words);
    proof { assert(word_views(words@) =~= seq![KW_END@, dec(tick as nat)]); }
    line
}

/// A body rezzed, as its log line.
pub fn rez_line(tick: u64, creature_id: u32, bounds: DeclaredBounds, vertices: &Vec<[u32; 3]>) -> (line: Vec<u8>)
    ensures
        line@ == rez_text(tick, creature_id, bounds, vertices@),
{
    let mut words: Vec<Vec<u8>> = Vec::new();
    words.push(word(&KW_REZ));
    words.push(decimal(tick));
    words.push(decimal(creature_id as u64));
    words.push(hex(bounds.max_forward_speed as u64, 8));
    words.push(hex(bounds.max_turn_rate as u64, 8));
    words.push(hex(bounds.max_vocalisation_strength as u64, 8));
    words.push(decimal(bounds.max_contact_count as u64));
    words.push(decimal(vertices.len() as u64));
    let ghost head = seq![
        KW_REZ@, dec(tick as nat), dec(creature_id as nat),
        bits_word(bounds.max_forward_speed), bits_word(bounds.max_turn_rate), bits_word(bounds.max_vocalisation_strength),
        dec(bounds.max_contact_count as nat), dec(vertices@.len()),
    ];
    proof { assert(word_views(words@) =~= head + vertex_words(vertices@.take(0))); }
    let mut i: usize = 0;
    while i < vertices.len()
        invariant
            i <= vertices@.len(),
            word_views(words@) == head + vertex_words(vertices@.take(i as int)),
        decreases vertices@.len() - i,
    {
        let v = vertices[i];
        let ghost before = words@;
        let x = hex(v[0] as u64, 8);
        let y = hex(v[1] as u64, 8);
        let z = hex(v[2] as u64, 8);
        words.push(x);
        words.push(y);
        words.push(z);
        proof {
            let taken = vertices@.take(i + 1);
            assert(taken.drop_last() =~= vertices@.take(i as int));
            assert(taken.last() == v);
            assert(vertex_words(taken) == vertex_words(vertices@.take(i as int)) + seq![
                bits_word(v[0]), bits_word(v[1]), bits_word(v[2]),
            ]);
            assert(words@ == before.push(x).push(y).push(z));
            assert(word_views(words@) =~= word_views(before) + seq![x@, y@, z@]);
            assert(word_views(words@) =~= head + vertex_words(taken));
        }
        i = i + 1;
    }
    proof { assert(vertices@.take(vertices@.len() as int) =~= vertices@); }
    line_of(&words)
}

/// A lower-case hexadecimal digit.
pub open spec fn lower_hex_char(d: nat) -> u8 {
    if d < 10 { (0x30 + d) as u8 } else { (0x61 + d - 10) as u8 }
}

/// Bytes as the protocol line writes a fingerprint: two lower-case hex digits a byte, in order.
pub open spec fn fingerprint_text(bytes: Seq<u8>) -> Seq<u8>
    decreases bytes.len(),
{
    if bytes.len() == 0 {
        Seq::empty()
    } else {
        fingerprint_text(bytes.drop_last()) + seq![
            lower_hex_char((bytes.last() / 16) as nat), lower_hex_char((bytes.last() % 16) as nat),
        ]
    }
}

/// The header line that names the wire: its version, and its fingerprint.
pub open spec fn protocol_text(version: u32, fingerprint: Seq<u8>) -> Seq<u8> {
    join(seq![KW_PROTOCOL@, dec(version as nat), fingerprint_text(fingerprint)])
}

/// A build stamp's eight bytes, most significant first.
pub open spec fn stamp_bytes(stamp: u64) -> Seq<u8> {
    Seq::new(8, |i: int| ((stamp >> ((56 - 8 * i) as u64)) & 0xFF) as u8)
}

/// The header line that names the build that wrote the log: its stamp in sixteen lower-case
/// hex digits, as `--version` prints it.
pub open spec fn build_text(stamp: u64) -> Seq<u8> {
    join(seq![KW_BUILD@, fingerprint_text(stamp_bytes(stamp))])
}

/// The header line that names the world, in sixteen upper-case hex digits.
pub open spec fn world_text(world_fingerprint: u64) -> Seq<u8> {
    join(seq![KW_WORLD@, hex_fixed(world_fingerprint as nat, 16)])
}

/// The header line that names the start: the first tick and the wall clock's second.
pub open spec fn start_text(start_tick: u64, start_unix_seconds: u64) -> Seq<u8> {
    join(seq![KW_START@, dec(start_tick as nat), dec(start_unix_seconds as nat)])
}

/// The header line that names how often the state is hashed.
pub open spec fn hash_every_text(hash_every: u32) -> Seq<u8> {
    join(seq![KW_HASH_EVERY@, dec(hash_every as nat)])
}

/// A build stamp in sixteen lower-case hex digits.
pub(crate) fn stamp_hex(stamp: u64) -> (w: Vec<u8>)
    ensures
        w@ == fingerprint_text(stamp_bytes(stamp)),
{
    let ghost bytes = stamp_bytes(stamp);
    let mut w: Vec<u8> = Vec::new();
    let mut i: usize = 0;
    while i < 8
        invariant
            i <= 8,
            bytes == stamp_bytes(stamp),
            w@ == fingerprint_text(bytes.take(i as int)),
        decreases 8 - i,
    {
        let shift: u64 = 56 - 8 * (i as u64);
        let b = ((stamp >> shift) & 0xFF) as u8;
        let high = b / 16;
        let low = b % 16;
        w.push(if high < 10 { 0x30 + high } else { 0x61 + high - 10 });
        w.push(if low < 10 { 0x30 + low } else { 0x61 + low - 10 });
        proof {
            assert(bytes[i as int] == b);
            assert(bytes.take(i + 1).drop_last() =~= bytes.take(i as int));
            assert(w@ =~= fingerprint_text(bytes.take(i + 1)));
        }
        i = i + 1;
    }
    proof { assert(bytes.take(8) =~= bytes); }
    w
}

/// The fingerprint's bytes in lower-case hex.
pub(crate) fn fingerprint_hex(bytes: &[u8; 32]) -> (w: Vec<u8>)
    ensures
        w@ == fingerprint_text(bytes@),
{
    let mut w: Vec<u8> = Vec::new();
    let mut i: usize = 0;
    while i < 32
        invariant
            i <= 32,
            bytes@.len() == 32,
            w@ == fingerprint_text(bytes@.take(i as int)),
        decreases 32 - i,
    {
        let b = bytes[i];
        let high = b / 16;
        let low = b % 16;
        w.push(if high < 10 { 0x30 + high } else { 0x61 + high - 10 });
        w.push(if low < 10 { 0x30 + low } else { 0x61 + low - 10 });
        proof {
            assert(bytes@.take(i + 1).drop_last() =~= bytes@.take(i as int));
            assert(w@ =~= fingerprint_text(bytes@.take(i + 1)));
        }
        i = i + 1;
    }
    proof { assert(bytes@.take(32) =~= bytes@); }
    w
}

/// The input log's header, line by line: which wire, which world, which start - the facts a
/// Disk's header carries too, so the two logs of one run can be matched - how often the
/// state is hashed, and a comment naming each record's fields.
pub fn header_lines(
    protocol_version: u32,
    protocol_fingerprint: &[u8; 32],
    build_stamp: u64,
    world_fingerprint: u64,
    start_tick: u64,
    start_unix_seconds: u64,
    hash_every: u32,
) -> (lines: Vec<Vec<u8>>)
    ensures
        word_views(lines@) == seq![
            HEADER_TITLE@,
            protocol_text(protocol_version, protocol_fingerprint@),
            build_text(build_stamp),
            world_text(world_fingerprint),
            start_text(start_tick, start_unix_seconds),
            hash_every_text(hash_every),
            HEADER_JUDGED@,
            HEADER_APPLIED@,
            HEADER_HASH@,
        ],
{
    let mut lines: Vec<Vec<u8>> = Vec::new();
    lines.push(word(&HEADER_TITLE));

    let mut words: Vec<Vec<u8>> = Vec::new();
    words.push(word(&KW_PROTOCOL));
    words.push(decimal(protocol_version as u64));
    words.push(fingerprint_hex(protocol_fingerprint));
    proof { assert(word_views(words@) =~= seq![KW_PROTOCOL@, dec(protocol_version as nat), fingerprint_text(protocol_fingerprint@)]); }
    lines.push(line_of(&words));

    let mut words: Vec<Vec<u8>> = Vec::new();
    words.push(word(&KW_BUILD));
    words.push(stamp_hex(build_stamp));
    proof { assert(word_views(words@) =~= seq![KW_BUILD@, fingerprint_text(stamp_bytes(build_stamp))]); }
    lines.push(line_of(&words));

    let mut words: Vec<Vec<u8>> = Vec::new();
    words.push(word(&KW_WORLD));
    words.push(hex(world_fingerprint, 16));
    proof { assert(word_views(words@) =~= seq![KW_WORLD@, hex_fixed(world_fingerprint as nat, 16)]); }
    lines.push(line_of(&words));

    let mut words: Vec<Vec<u8>> = Vec::new();
    words.push(word(&KW_START));
    words.push(decimal(start_tick));
    words.push(decimal(start_unix_seconds));
    proof { assert(word_views(words@) =~= seq![KW_START@, dec(start_tick as nat), dec(start_unix_seconds as nat)]); }
    lines.push(line_of(&words));

    let mut words: Vec<Vec<u8>> = Vec::new();
    words.push(word(&KW_HASH_EVERY));
    words.push(decimal(hash_every as u64));
    proof { assert(word_views(words@) =~= seq![KW_HASH_EVERY@, dec(hash_every as nat)]); }
    lines.push(line_of(&words));

    lines.push(word(&HEADER_JUDGED));
    lines.push(word(&HEADER_APPLIED));
    lines.push(word(&HEADER_HASH));
    proof {
        assert(word_views(lines@) =~= seq![
            HEADER_TITLE@,
            protocol_text(protocol_version, protocol_fingerprint@),
            build_text(build_stamp),
            world_text(world_fingerprint),
            start_text(start_tick, start_unix_seconds),
            hash_every_text(hash_every),
            HEADER_JUDGED@,
            HEADER_APPLIED@,
            HEADER_HASH@,
        ]);
    }
    lines
}

/// A byte that separates a path's components on the platform the world runs on: `/` always,
/// and `\` too where the platform says so.
pub open spec fn separator(b: u8, backslash_separates: bool) -> bool {
    b == 0x2F || (backslash_separates && b == 0x5C)
}

/// Whether a path climbs: whether one of its components, between separators, is `..`.
pub open spec fn climbs_spec(path: Seq<u8>, backslash_separates: bool) -> bool {
    exists|i: int|
        0 <= i && i + 2 <= path.len() && #[trigger] path[i] == 0x2E && path[i + 1] == 0x2E
            && (i == 0 || separator(path[i - 1], backslash_separates))
            && (i + 2 == path.len() || separator(path[i + 2], backslash_separates))
}

/// Whether a path the operator names climbs: a log path never climbs - no `..` component - so
/// a typo is a refusal rather than a file somewhere surprising. `backslash_separates` is
/// whether the platform separates a path's components with `\` as well as `/`.
pub fn climbs(path: &[u8], backslash_separates: bool) -> (climbing: bool)
    ensures
        climbing == climbs_spec(path@, backslash_separates),
{
    let n = path.len();
    let mut i: usize = 0;
    while i < n
        invariant
            n == path@.len(),
            i <= n,
            forall|j: int|
                0 <= j < i ==> !(j + 2 <= path@.len() && #[trigger] path@[j] == 0x2E && path@[j + 1] == 0x2E
                    && (j == 0 || separator(path@[j - 1], backslash_separates))
                    && (j + 2 == path@.len() || separator(path@[j + 2], backslash_separates))),
        decreases n - i,
    {
        if n - i >= 2 && path[i] == 0x2E && path[i + 1] == 0x2E
            && (i == 0 || path[i - 1] == 0x2F || (backslash_separates && path[i - 1] == 0x5C))
            && (n - i == 2 || path[i + 2] == 0x2F || (backslash_separates && path[i + 2] == 0x5C)) {
            return true;
        }
        i = i + 1;
    }
    false
}

/// The intent an `ACTIONS` message carries for its tick.
pub open spec fn current_of(a: Actions) -> Intent {
    Intent { forward_speed: a.desired_forward_speed, turn_rate: a.desired_turn_rate, vocalisation: a.vocalisation_strength }
}

/// The intent an `ACTIONS` message carries for the tick before.
pub open spec fn previous_of(a: Actions) -> Intent {
    Intent { forward_speed: a.previous_forward_speed, turn_rate: a.previous_turn_rate, vocalisation: a.previous_vocalisation }
}

/// The judged lines one `ACTIONS` message is owed, in the order the stager judged it: the
/// piggybacked previous (when the message carries one and two verdicts came back) and then the
/// current.
pub open spec fn judged_texts(sender: u64, a: Actions, next_tick: u64, verdicts: Seq<Verdict>) -> Seq<Seq<u8>> {
    if a.tick > 0 && verdicts.len() == 2 {
        seq![
            judged_text(sender, a.creature_id, (a.tick - 1) as u64, next_tick, previous_of(a), verdicts[0]),
            judged_text(sender, a.creature_id, a.tick, next_tick, current_of(a), verdicts[1]),
        ]
    } else if verdicts.len() >= 1 {
        seq![judged_text(sender, a.creature_id, a.tick, next_tick, current_of(a), verdicts[0])]
    } else {
        Seq::empty()
    }
}

/// The judged lines for one `ACTIONS` message.
pub fn judged_lines(sender: u64, actions: &Actions, next_tick: u64, verdicts: &Vec<Verdict>) -> (lines: Vec<Vec<u8>>)
    ensures
        word_views(lines@) == judged_texts(sender, *actions, next_tick, verdicts@),
{
    let current = Intent {
        forward_speed: actions.desired_forward_speed,
        turn_rate: actions.desired_turn_rate,
        vocalisation: actions.vocalisation_strength,
    };
    let mut lines: Vec<Vec<u8>> = Vec::new();
    if actions.tick > 0 && verdicts.len() == 2 {
        let previous = Intent {
            forward_speed: actions.previous_forward_speed,
            turn_rate: actions.previous_turn_rate,
            vocalisation: actions.previous_vocalisation,
        };
        lines.push(judged_line(sender, actions.creature_id, actions.tick - 1, next_tick, previous, verdicts[0]));
        lines.push(judged_line(sender, actions.creature_id, actions.tick, next_tick, current, verdicts[1]));
    } else if verdicts.len() >= 1 {
        lines.push(judged_line(sender, actions.creature_id, actions.tick, next_tick, current, verdicts[0]));
    }
    proof { assert(word_views(lines@) =~= judged_texts(sender, *actions, next_tick, verdicts@)); }
    lines
}

/// Whether the state is hashed into the log at `tick`: on every `hash_every`-th tick, and
/// never when the period is zero.
pub fn hash_due(tick: u64, hash_every: u32) -> (due: bool)
    ensures
        due == (hash_every > 0 && tick % (hash_every as u64) == 0),
{
    hash_every > 0 && tick % (hash_every as u64) == 0
}

} // verus!
