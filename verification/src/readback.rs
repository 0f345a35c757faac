//! What the input log writes, Clu reads back: every line the world writes parses to the record
//! it was written from, bit for bit - the bit patterns of the binary32 values included, which is
//! why the log writes them in hex and not as decimal roundings.

use vstd::prelude::*;
use crate::text::{
    dec, hex_fixed, hex_char, join, plain_word, split_words, parse_bounded, pow16,
    lemma_decimal_reads_back, lemma_hex_reads_back, lemma_join_splits,
};
use crate::record::{
    applied_parts, applied_text, bits_word, hash_text, derez_text, claim_text, end_text, rez_text,
    vertex_words, protocol_text, world_text, build_text, stamp_bytes, KW_BUILD, start_text, hash_every_text, judged_text,
    fingerprint_text, lower_hex_char, verdict_word, DeclaredBounds, HEADER_TITLE, HEADER_JUDGED,
    HEADER_APPLIED, HEADER_HASH, KW_ACCEPTED, KW_ALREADY_APPLIED, KW_BEFORE_FIRST_INTENT,
    KW_REFUSED_STALE, KW_REFUSED_FUTURE, KW_REFUSED_NOT_OWNER, KW_REFUSED_NOT_EMBODIED, KW_APPLIED, KW_FRESH, KW_REPEATED, KW_COASTED,
    KW_HASH_MARK, KW_START, KW_HASH_EVERY, KW_JUDGED, KW_PROTOCOL, KW_END, KW_WORLD, KW_REZ,
    KW_DEREZ, KW_CLAIM, KW_HASH,
};
use crate::clu::{parse_words, scan_vertices, triple, took, intent_or_zero, Fact, LogError, RecordView, ReplayState};
use crate::stager::{stepped_with, Applied, Intent, Verdict};

verus! {

/// A decimal rendering is a plain word that reads back as its number.
proof fn lemma_dec_word(n: nat)
    ensures
        plain_word(dec(n)),
        n <= u64::MAX ==> parse_bounded(dec(n), 10, u64::MAX as nat) == Some(n),
{
    lemma_decimal_reads_back(n);
    assert forall|i: int| 0 <= i < dec(n).len() implies 0x21 <= #[trigger] dec(n)[i] <= 0x7E by {
        assert(0x30 <= dec(n)[i] <= 0x39);
    }
}

/// A fixed-width hex rendering holds only printable bytes.
proof fn lemma_hex_printable(n: nat, width: nat)
    ensures
        hex_fixed(n, width).len() == width,
        forall|i: int| 0 <= i < hex_fixed(n, width).len() ==> 0x21 <= #[trigger] hex_fixed(n, width)[i] <= 0x7E,
    decreases width,
{
    if width > 0 {
        lemma_hex_printable(n / 16, (width - 1) as nat);
        let h = hex_fixed(n, width);
        let shorter = hex_fixed(n / 16, (width - 1) as nat);
        assert(h == shorter.push(hex_char(n % 16)));
        assert forall|i: int| 0 <= i < h.len() implies 0x21 <= #[trigger] h[i] <= 0x7E by {
            if i < width - 1 {
                assert(h[i] == shorter[i]);
            } else {
                assert(h[i] == hex_char(n % 16));
            }
        }
    }
}

/// A binary32 bit pattern's word is plain and reads back as the pattern.
proof fn lemma_bits_word(b: u32)
    ensures
        plain_word(bits_word(b)),
        parse_bounded(bits_word(b), 16, u32::MAX as nat) == Some(b as nat),
        parse_bounded(bits_word(b), 16, u64::MAX as nat) == Some(b as nat),
{
    reveal_with_fuel(pow16, 9);
    assert(pow16(8) == 0x1_0000_0000);
    lemma_hex_reads_back(b as nat, 8);
    lemma_hex_printable(b as nat, 8);
}

/// A 64-bit value's sixteen hex digits are a plain word that reads back as the value.
proof fn lemma_hex64_word(h: u64)
    ensures
        plain_word(hex_fixed(h as nat, 16)),
        parse_bounded(hex_fixed(h as nat, 16), 16, u64::MAX as nat) == Some(h as nat),
{
    reveal_with_fuel(pow16, 17);
    assert(pow16(16) == 0x1_0000_0000_0000_0000);
    lemma_hex_reads_back(h as nat, 16);
    lemma_hex_printable(h as nat, 16);
}

/// Every word of every kind the log writes is plain.
proof fn lemma_keywords_plain()
    ensures
        plain_word(KW_APPLIED@),
        plain_word(KW_FRESH@),
        plain_word(KW_REPEATED@),
        plain_word(KW_COASTED@),
        plain_word(KW_HASH@),
        plain_word(KW_REZ@),
        plain_word(KW_DEREZ@),
        plain_word(KW_CLAIM@),
        plain_word(KW_END@),
        plain_word(KW_PROTOCOL@),
        plain_word(KW_WORLD@),
        plain_word(KW_START@),
        plain_word(KW_HASH_EVERY@),
        plain_word(KW_JUDGED@),
        plain_word(KW_HASH_MARK@),
        plain_word(KW_BUILD@),
        plain_word(KW_ACCEPTED@),
        plain_word(KW_ALREADY_APPLIED@),
        plain_word(KW_BEFORE_FIRST_INTENT@),
        plain_word(KW_REFUSED_STALE@),
        plain_word(KW_REFUSED_FUTURE@),
        plain_word(KW_REFUSED_NOT_OWNER@),
        plain_word(KW_REFUSED_NOT_EMBODIED@),
{
}

/// An applied line reads back as the tick, the creature and the intent it was written with.
pub proof fn law_applied_reads_back(tick: u64, creature_id: u32, applied: Applied)
    ensures
        parse_words(split_words(applied_text(tick, creature_id, applied))) == Ok::<Option<RecordView>, LogError>(
            Some(RecordView::Applied { tick, creature_id, intent: applied_parts(applied).1 }),
        ),
{
    let (how, intent) = applied_parts(applied);
    let ws = seq![
        KW_APPLIED@, dec(tick as nat), dec(creature_id as nat), how,
        bits_word(intent.forward_speed), bits_word(intent.turn_rate), bits_word(intent.vocalisation),
    ];
    lemma_keywords_plain();
    lemma_dec_word(tick as nat);
    lemma_dec_word(creature_id as nat);
    lemma_bits_word(intent.forward_speed);
    lemma_bits_word(intent.turn_rate);
    lemma_bits_word(intent.vocalisation);
    assert forall|i: int| 0 <= i < ws.len() implies plain_word(#[trigger] ws[i]) by {}
    lemma_join_splits(ws);
    assert(applied_text(tick, creature_id, applied) == join(ws));
}

/// A hash line reads back as the tick and the hash it was written with.
pub proof fn law_hash_reads_back(tick: u64, hash: u64)
    ensures
        parse_words(split_words(hash_text(tick, hash))) == Ok::<Option<RecordView>, LogError>(
            Some(RecordView::Hash { tick, hash }),
        ),
{
    let ws = seq![KW_HASH@, dec(tick as nat), hex_fixed(hash as nat, 16)];
    lemma_keywords_plain();
    lemma_dec_word(tick as nat);
    lemma_hex64_word(hash);
    assert forall|i: int| 0 <= i < ws.len() implies plain_word(#[trigger] ws[i]) by {}
    lemma_join_splits(ws);
    assert(hash_text(tick, hash) == join(ws));
}

/// A derez line reads back as the creature that left.
pub proof fn law_derez_reads_back(tick: u64, creature_id: u32)
    ensures
        parse_words(split_words(derez_text(tick, creature_id))) == Ok::<Option<RecordView>, LogError>(
            Some(RecordView::Derez { creature_id }),
        ),
{
    let ws = seq![KW_DEREZ@, dec(tick as nat), dec(creature_id as nat)];
    lemma_keywords_plain();
    lemma_dec_word(tick as nat);
    lemma_dec_word(creature_id as nat);
    assert forall|i: int| 0 <= i < ws.len() implies plain_word(#[trigger] ws[i]) by {}
    lemma_join_splits(ws);
    assert(derez_text(tick, creature_id) == join(ws));
}

/// A claim line reads back as the creature taken up.
pub proof fn law_claim_reads_back(tick: u64, creature_id: u32)
    ensures
        parse_words(split_words(claim_text(tick, creature_id))) == Ok::<Option<RecordView>, LogError>(
            Some(RecordView::Claim { creature_id }),
        ),
{
    let ws = seq![KW_CLAIM@, dec(tick as nat), dec(creature_id as nat)];
    lemma_keywords_plain();
    lemma_dec_word(tick as nat);
    lemma_dec_word(creature_id as nat);
    assert forall|i: int| 0 <= i < ws.len() implies plain_word(#[trigger] ws[i]) by {}
    lemma_join_splits(ws);
    assert(claim_text(tick, creature_id) == join(ws));
}

/// The end line reads back as the tick the world stopped after.
pub proof fn law_end_reads_back(tick: u64)
    ensures
        parse_words(split_words(end_text(tick))) == Ok::<Option<RecordView>, LogError>(
            Some(RecordView::End { tick }),
        ),
{
    let ws = seq![KW_END@, dec(tick as nat)];
    lemma_keywords_plain();
    lemma_dec_word(tick as nat);
    assert forall|i: int| 0 <= i < ws.len() implies plain_word(#[trigger] ws[i]) by {}
    lemma_join_splits(ws);
    assert(end_text(tick) == join(ws));
}

/// The words of a body's vertices: three a vertex, in order.
proof fn lemma_vertex_words_at(vs: Seq<[u32; 3]>)
    ensures
        vertex_words(vs).len() == 3 * vs.len(),
        forall|i: int, k: int| 0 <= i < vs.len() && 0 <= k < 3 ==> #[trigger] vertex_words(vs)[3 * i + k] == bits_word(vs[i][k]),
    decreases vs.len(),
{
    if vs.len() > 0 {
        let shorter = vs.drop_last();
        lemma_vertex_words_at(shorter);
        let last = vs.last();
        assert(vertex_words(vs) == vertex_words(shorter) + seq![bits_word(last[0]), bits_word(last[1]), bits_word(last[2])]);
        assert forall|i: int, k: int| 0 <= i < vs.len() && 0 <= k < 3 implies #[trigger] vertex_words(vs)[3 * i + k] == bits_word(vs[i][k]) by {
            if i < vs.len() - 1 {
                assert(vertex_words(vs)[3 * i + k] == vertex_words(shorter)[3 * i + k]);
                assert(shorter[i] == vs[i]);
            } else {
                assert(3 * i + k == 3 * shorter.len() + k);
            }
        }
    }
}

/// The vertices from the `done`-th on read back from a rez line's words.
proof fn lemma_scan_reads_back(ws: Seq<Seq<u8>>, vs: Seq<[u32; 3]>, done: nat)
    requires
        ws.len() == 8 + 3 * vs.len(),
        forall|i: int, k: int| 0 <= i < vs.len() && 0 <= k < 3 ==> #[trigger] ws[8 + 3 * i + k] == bits_word(vs[i][k]),
        done <= vs.len(),
    ensures
        scan_vertices(ws, vs.len(), done) == Ok::<Seq<(u32, u32, u32)>, LogError>(
            vs.skip(done as int).map_values(|t: [u32; 3]| triple(t)),
        ),
    decreases vs.len() - done,
{
    if done < vs.len() {
        lemma_scan_reads_back(ws, vs, done + 1);
        let v = vs[done as int];
        let at = 8 + 3 * (done as int);
        assert(ws[at] == bits_word(v[0])) by { assert(ws[8 + 3 * (done as int) + 0] == bits_word(vs[done as int][0])); }
        assert(ws[at + 1] == bits_word(v[1])) by { assert(ws[8 + 3 * (done as int) + 1] == bits_word(vs[done as int][1])); }
        assert(ws[at + 2] == bits_word(v[2])) by { assert(ws[8 + 3 * (done as int) + 2] == bits_word(vs[done as int][2])); }
        lemma_bits_word(v[0]);
        lemma_bits_word(v[1]);
        lemma_bits_word(v[2]);
        assert(vs.skip(done as int).map_values(|t: [u32; 3]| triple(t))
            =~= seq![(v[0], v[1], v[2])] + vs.skip(done as int + 1).map_values(|t: [u32; 3]| triple(t)));
    } else {
        assert(vs.skip(done as int).map_values(|t: [u32; 3]| triple(t)) =~= Seq::<(u32, u32, u32)>::empty());
    }
}

/// A rez line reads back as the creature, its declared bounds and every vertex, bit for bit.
pub proof fn law_rez_reads_back(tick: u64, creature_id: u32, bounds: DeclaredBounds, vertices: Seq<[u32; 3]>)
    requires
        vertices.len() <= u64::MAX,
    ensures
        parse_words(split_words(rez_text(tick, creature_id, bounds, vertices))) == Ok::<Option<RecordView>, LogError>(
            Some(RecordView::Rez {
                creature_id,
                bounds,
                vertices: vertices.map_values(|t: [u32; 3]| triple(t)),
            }),
        ),
{
    let head = seq![
        KW_REZ@, dec(tick as nat), dec(creature_id as nat),
        bits_word(bounds.max_forward_speed), bits_word(bounds.max_turn_rate), bits_word(bounds.max_vocalisation_strength),
        dec(bounds.max_contact_count as nat), dec(vertices.len()),
    ];
    let ws = head + vertex_words(vertices);
    lemma_keywords_plain();
    lemma_dec_word(tick as nat);
    lemma_dec_word(creature_id as nat);
    lemma_dec_word(bounds.max_contact_count as nat);
    lemma_dec_word(vertices.len());
    lemma_bits_word(bounds.max_forward_speed);
    lemma_bits_word(bounds.max_turn_rate);
    lemma_bits_word(bounds.max_vocalisation_strength);
    lemma_vertex_words_at(vertices);
    assert forall|i: int, k: int| 0 <= i < vertices.len() && 0 <= k < 3 implies #[trigger] ws[8 + 3 * i + k] == bits_word(vertices[i][k]) by {
        assert(ws[8 + 3 * i + k] == vertex_words(vertices)[3 * i + k]);
    }
    assert forall|j: int| 0 <= j < ws.len() implies plain_word(#[trigger] ws[j]) by {
        if j >= 8 {
            let i = (j - 8) / 3;
            let k = (j - 8) % 3;
            assert(j == 8 + 3 * i + k);
            assert(ws[8 + 3 * i + k] == bits_word(vertices[i][k]));
            lemma_bits_word(vertices[i][k]);
        }
    }
    lemma_join_splits(ws);
    assert(rez_text(tick, creature_id, bounds, vertices) == join(ws));
    lemma_scan_reads_back(ws, vertices, 0);
    assert(vertices.skip(0) =~= vertices);
    assert(ws[0] == KW_REZ@);
}

/// A judged line is the record of a verdict, not an input: it is no record for the
/// re-simulation.
pub proof fn law_judged_is_no_record(sender: u64, creature_id: u32, intent_tick: u64, next_tick: u64, intent: Intent, verdict: Verdict)
    ensures
        parse_words(split_words(judged_text(sender, creature_id, intent_tick, next_tick, intent, verdict)))
            == Ok::<Option<RecordView>, LogError>(None),
{
    let ws = seq![
        KW_JUDGED@, dec(sender as nat), dec(creature_id as nat), dec(intent_tick as nat), dec(next_tick as nat),
        bits_word(intent.forward_speed), bits_word(intent.turn_rate), bits_word(intent.vocalisation),
        verdict_word(verdict),
    ];
    lemma_keywords_plain();
    lemma_dec_word(sender as nat);
    lemma_dec_word(creature_id as nat);
    lemma_dec_word(intent_tick as nat);
    lemma_dec_word(next_tick as nat);
    lemma_bits_word(intent.forward_speed);
    lemma_bits_word(intent.turn_rate);
    lemma_bits_word(intent.vocalisation);
    assert forall|i: int| 0 <= i < ws.len() implies plain_word(#[trigger] ws[i]) by {}
    lemma_join_splits(ws);
    assert(judged_text(sender, creature_id, intent_tick, next_tick, intent, verdict) == join(ws));
}

/// A fingerprint's hex is printable, two digits a byte.
proof fn lemma_fingerprint_printable(bytes: Seq<u8>)
    ensures
        fingerprint_text(bytes).len() == 2 * bytes.len(),
        forall|i: int| 0 <= i < fingerprint_text(bytes).len() ==> 0x21 <= #[trigger] fingerprint_text(bytes)[i] <= 0x7E,
    decreases bytes.len(),
{
    if bytes.len() > 0 {
        let shorter = bytes.drop_last();
        lemma_fingerprint_printable(shorter);
        let t = fingerprint_text(bytes);
        let b = bytes.last();
        assert(t == fingerprint_text(shorter) + seq![lower_hex_char((b / 16) as nat), lower_hex_char((b % 16) as nat)]);
        assert forall|i: int| 0 <= i < t.len() implies 0x21 <= #[trigger] t[i] <= 0x7E by {
            if i < fingerprint_text(shorter).len() {
                assert(t[i] == fingerprint_text(shorter)[i]);
            }
        }
    }
}

/// A line that starts `# ` is a comment: its first word is `#`.
proof fn lemma_comment_first_word(s: Seq<u8>)
    requires
        s.len() >= 2,
        s[0] == 0x23,
        s[1] == 0x20,
    ensures
        split_words(s).len() >= 1,
        split_words(s)[0] == KW_HASH_MARK@,
{
    assert(s.drop_first()[0] == 0x20);
    assert(crate::text::word_len(s.drop_first()) == 0);
    assert(crate::text::word_len(s) == 1);
    assert(s.take(1) =~= KW_HASH_MARK@);
}

/// The header's comment lines are no record.
proof fn lemma_comments_read_back()
    ensures
        parse_words(split_words(HEADER_TITLE@)) == Ok::<Option<RecordView>, LogError>(None),
        parse_words(split_words(HEADER_JUDGED@)) == Ok::<Option<RecordView>, LogError>(None),
        parse_words(split_words(HEADER_APPLIED@)) == Ok::<Option<RecordView>, LogError>(None),
        parse_words(split_words(HEADER_HASH@)) == Ok::<Option<RecordView>, LogError>(None),
{
    lemma_comment_first_word(HEADER_TITLE@);
    lemma_comment_first_word(HEADER_JUDGED@);
    lemma_comment_first_word(HEADER_APPLIED@);
    lemma_comment_first_word(HEADER_HASH@);
}

/// The protocol line reads back as the wire's version and fingerprint.
proof fn lemma_protocol_reads_back(protocol_version: u32, protocol_fingerprint: Seq<u8>)
    requires
        protocol_fingerprint.len() > 0,
    ensures
        parse_words(split_words(protocol_text(protocol_version, protocol_fingerprint))) == Ok::<Option<RecordView>, LogError>(
            Some(RecordView::Protocol { version: protocol_version, fingerprint: fingerprint_text(protocol_fingerprint) }),
        ),
{
    lemma_keywords_plain();
    lemma_dec_word(protocol_version as nat);
    lemma_fingerprint_printable(protocol_fingerprint);
    let p = seq![KW_PROTOCOL@, dec(protocol_version as nat), fingerprint_text(protocol_fingerprint)];
    assert forall|i: int| 0 <= i < p.len() implies plain_word(#[trigger] p[i]) by {}
    lemma_join_splits(p);
}

/// The build line reads back as the stamp's hex.
proof fn lemma_build_reads_back(build_stamp: u64)
    ensures
        parse_words(split_words(build_text(build_stamp))) == Ok::<Option<RecordView>, LogError>(
            Some(RecordView::Build(fingerprint_text(stamp_bytes(build_stamp)))),
        ),
{
    lemma_keywords_plain();
    lemma_fingerprint_printable(stamp_bytes(build_stamp));
    let b = seq![KW_BUILD@, fingerprint_text(stamp_bytes(build_stamp))];
    assert forall|i: int| 0 <= i < b.len() implies plain_word(#[trigger] b[i]) by {}
    lemma_join_splits(b);
}

/// The world line reads back as the world's fingerprint.
proof fn lemma_world_reads_back(world_fingerprint: u64)
    ensures
        parse_words(split_words(world_text(world_fingerprint))) == Ok::<Option<RecordView>, LogError>(
            Some(RecordView::World(world_fingerprint)),
        ),
{
    lemma_keywords_plain();
    lemma_hex64_word(world_fingerprint);
    let w = seq![KW_WORLD@, hex_fixed(world_fingerprint as nat, 16)];
    assert forall|i: int| 0 <= i < w.len() implies plain_word(#[trigger] w[i]) by {}
    lemma_join_splits(w);
}

/// The start and the hash period are no record.
proof fn lemma_start_and_period_read_back(start_tick: u64, start_unix_seconds: u64, hash_every: u32)
    ensures
        parse_words(split_words(start_text(start_tick, start_unix_seconds))) == Ok::<Option<RecordView>, LogError>(None),
        parse_words(split_words(hash_every_text(hash_every))) == Ok::<Option<RecordView>, LogError>(None),
{
    lemma_keywords_plain();
    lemma_dec_word(start_tick as nat);
    lemma_dec_word(start_unix_seconds as nat);
    let st = seq![KW_START@, dec(start_tick as nat), dec(start_unix_seconds as nat)];
    assert forall|i: int| 0 <= i < st.len() implies plain_word(#[trigger] st[i]) by {}
    lemma_join_splits(st);
    lemma_dec_word(hash_every as nat);
    let he = seq![KW_HASH_EVERY@, dec(hash_every as nat)];
    assert forall|i: int| 0 <= i < he.len() implies plain_word(#[trigger] he[i]) by {}
    lemma_join_splits(he);
}

/// The header reads back: its comments, its start and its hash period are no record; its
/// protocol line is the wire's version and fingerprint, its build line the build's stamp, and
/// its world line the world's fingerprint.
pub proof fn law_header_reads_back(
    protocol_version: u32,
    protocol_fingerprint: Seq<u8>,
    build_stamp: u64,
    world_fingerprint: u64,
    start_tick: u64,
    start_unix_seconds: u64,
    hash_every: u32,
)
    requires
        protocol_fingerprint.len() > 0,
    ensures
        parse_words(split_words(HEADER_TITLE@)) == Ok::<Option<RecordView>, LogError>(None),
        parse_words(split_words(protocol_text(protocol_version, protocol_fingerprint))) == Ok::<Option<RecordView>, LogError>(
            Some(RecordView::Protocol { version: protocol_version, fingerprint: fingerprint_text(protocol_fingerprint) }),
        ),
        parse_words(split_words(build_text(build_stamp))) == Ok::<Option<RecordView>, LogError>(
            Some(RecordView::Build(fingerprint_text(stamp_bytes(build_stamp)))),
        ),
        parse_words(split_words(world_text(world_fingerprint))) == Ok::<Option<RecordView>, LogError>(
            Some(RecordView::World(world_fingerprint)),
        ),
        parse_words(split_words(start_text(start_tick, start_unix_seconds))) == Ok::<Option<RecordView>, LogError>(None),
        parse_words(split_words(hash_every_text(hash_every))) == Ok::<Option<RecordView>, LogError>(None),
        parse_words(split_words(HEADER_JUDGED@)) == Ok::<Option<RecordView>, LogError>(None),
        parse_words(split_words(HEADER_APPLIED@)) == Ok::<Option<RecordView>, LogError>(None),
        parse_words(split_words(HEADER_HASH@)) == Ok::<Option<RecordView>, LogError>(None),
{
    lemma_comments_read_back();
    lemma_protocol_reads_back(protocol_version, protocol_fingerprint);
    lemma_build_reads_back(build_stamp);
    lemma_world_reads_back(world_fingerprint);
    lemma_start_and_period_read_back(start_tick, start_unix_seconds, hash_every);
}

/// A log made by this build, under its wire and in its world, passes the re-simulation's
/// checks of all three: its header's protocol, build and world lines, read back and taken,
/// change nothing and refuse nothing.
pub proof fn law_own_header_is_accepted<B, M>(s: ReplayState<B, M>, protocol_fingerprint: Seq<u8>, build_stamp: u64)
    requires
        protocol_fingerprint.len() > 0,
        s.own_fingerprint == fingerprint_text(protocol_fingerprint),
        s.own_build == fingerprint_text(stamp_bytes(build_stamp)),
    ensures
        parse_words(split_words(build_text(build_stamp))) == Ok::<Option<RecordView>, LogError>(
            Some(RecordView::Build(s.own_build)),
        ),
        took(s, RecordView::Build(s.own_build), Fact::<B, M>::Nothing).1
            == Ok::<Option<crate::clu::Divergence>, crate::clu::ReplayError>(None),
        took(s, RecordView::Build(s.own_build), Fact::<B, M>::Nothing).0 == s,
        parse_words(split_words(protocol_text(s.own_protocol, protocol_fingerprint))) == Ok::<Option<RecordView>, LogError>(
            Some(RecordView::Protocol { version: s.own_protocol, fingerprint: s.own_fingerprint }),
        ),
        took(s, RecordView::Protocol { version: s.own_protocol, fingerprint: s.own_fingerprint }, Fact::<B, M>::Nothing).1
            == Ok::<Option<crate::clu::Divergence>, crate::clu::ReplayError>(None),
        took(s, RecordView::Protocol { version: s.own_protocol, fingerprint: s.own_fingerprint }, Fact::<B, M>::Nothing).0 == s,
        parse_words(split_words(world_text(s.own_world))) == Ok::<Option<RecordView>, LogError>(
            Some(RecordView::World(s.own_world)),
        ),
        took(s, RecordView::World(s.own_world), Fact::<B, M>::Nothing).1
            == Ok::<Option<crate::clu::Divergence>, crate::clu::ReplayError>(None),
        took(s, RecordView::World(s.own_world), Fact::<B, M>::Nothing).0 == s,
{
    law_header_reads_back(s.own_protocol, protocol_fingerprint, build_stamp, s.own_world, 0, 0, 0);
}

/// The log re-simulates the input the world stepped with: an applied line, read back and taken
/// by a re-simulation that holds the creature, leaves it gathered for that tick with exactly
/// the intent the world applied - fresh, repeated or coasted alike.
pub proof fn law_logged_intent_is_replayed<B, M>(s: ReplayState<B, M>, tick: u64, creature_id: u32, applied: Applied)
    requires
        s.roster.contains_key(creature_id),
        !s.ended,
        s.last_tick <= tick,
    ensures
        ({
            let read = RecordView::Applied { tick, creature_id, intent: applied_parts(applied).1 };
            let (after, result) = took(s, read, Fact::<B, M>::Nothing);
            &&& parse_words(split_words(applied_text(tick, creature_id, applied))) == Ok::<Option<RecordView>, LogError>(Some(read))
            &&& result == Ok::<Option<crate::clu::Divergence>, crate::clu::ReplayError>(None)
            &&& after.pending_tick == Some(tick)
            &&& intent_or_zero(after.pending, creature_id) == stepped_with(applied)
        }),
{
    law_applied_reads_back(tick, creature_id, applied);
}

} // verus!
