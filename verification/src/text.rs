//! The text of the input log, byte by byte: how a line falls into words, and how a number is
//! written and read - decimal for counts and ticks, hexadecimal for bit patterns and hashes.
//! A line falls into words at every run of white space, as `str::split_whitespace` splits it:
//! the Unicode White_Space characters, recognised by their UTF-8 bytes.

use vstd::prelude::*;

verus! {

/// How many bytes of white space start at `i`: one ASCII space or control white space, or
/// one of the Unicode White_Space characters in its UTF-8 encoding; zero when none does.
pub open spec fn ws_len(s: Seq<u8>, i: int) -> int {
    if i < 0 || i >= s.len() {
        0
    } else if s[i] == 0x20 || (0x09 <= s[i] <= 0x0D) {
        1
    } else if s[i] == 0xC2 && i + 1 < s.len() && (s[i + 1] == 0x85 || s[i + 1] == 0xA0) {
        2
    } else if s[i] == 0xE1 && i + 2 < s.len() && s[i + 1] == 0x9A && s[i + 2] == 0x80 {
        3
    } else if s[i] == 0xE2 && i + 2 < s.len() && s[i + 1] == 0x80
        && ((0x80 <= s[i + 2] <= 0x8A) || s[i + 2] == 0xA8 || s[i + 2] == 0xA9 || s[i + 2] == 0xAF) {
        3
    } else if s[i] == 0xE2 && i + 2 < s.len() && s[i + 1] == 0x81 && s[i + 2] == 0x9F {
        3
    } else if s[i] == 0xE3 && i + 2 < s.len() && s[i + 1] == 0x80 && s[i + 2] == 0x80 {
        3
    } else {
        0
    }
}

/// How many bytes of a word start `s`: up to the first white space or the end.
pub open spec fn word_len(s: Seq<u8>) -> nat
    decreases s.len(),
{
    if s.len() == 0 || ws_len(s, 0) > 0 {
        0
    } else {
        1 + word_len(s.drop_first())
    }
}

/// The words of `s`, in order: the maximal runs that hold no white space.
pub open spec fn split_words(s: Seq<u8>) -> Seq<Seq<u8>>
    decreases s.len(),
{
    if s.len() == 0 {
        Seq::empty()
    } else if ws_len(s, 0) > 0 {
        split_words(s.skip(ws_len(s, 0)))
    } else {
        let w = word_len(s);
        proof { lemma_word_len_bound(s); }
        if w == 0 {
            Seq::empty()
        } else {
            seq![s.take(w as int)] + split_words(s.skip(w as int))
        }
    }
}

pub proof fn lemma_word_len_bound(s: Seq<u8>)
    ensures
        word_len(s) <= s.len(),
        s.len() > 0 && ws_len(s, 0) == 0 ==> word_len(s) > 0,
    decreases s.len(),
{
    if s.len() > 0 && ws_len(s, 0) == 0 {
        lemma_word_len_bound(s.drop_first());
    }
}

proof fn lemma_ws_len_shift(s: Seq<u8>, i: int)
    requires
        0 <= i <= s.len(),
    ensures
        ws_len(s.skip(i), 0) == ws_len(s, i),
        ws_len(s, i) <= s.len() - i,
{
}

/// One word's length, step by step: past a non-white byte the word goes on one byte further.
proof fn lemma_word_len_step(s: Seq<u8>, i: int)
    requires
        0 <= i < s.len(),
        ws_len(s, i) == 0,
    ensures
        word_len(s.skip(i)) == 1 + word_len(s.skip(i + 1)),
{
    lemma_ws_len_shift(s, i);
    assert(s.skip(i).drop_first() =~= s.skip(i + 1));
}

/// Where the word starting at `start` ends.
fn word_end(s: &[u8], start: usize) -> (end: usize)
    requires
        start < s@.len(),
        ws_len(s@, start as int) == 0,
    ensures
        end == start + word_len(s@.skip(start as int)),
        start < end <= s@.len(),
{
    let mut end = start;
    proof { lemma_word_len_bound(s@.skip(start as int)); }
    while end < s.len() && ws_at(s, end) == 0
        invariant
            start <= end <= s@.len(),
            word_len(s@.skip(start as int)) == (end - start) + word_len(s@.skip(end as int)),
        decreases s@.len() - end,
    {
        proof { lemma_word_len_step(s@, end as int); }
        end = end + 1;
    }
    proof {
        if end < s@.len() {
            lemma_ws_len_shift(s@, end as int);
        } else {
            assert(s@.skip(end as int).len() == 0);
        }
        lemma_word_len_step(s@, start as int);
    }
    end
}

/// How many bytes of white space start at `i`.
fn ws_at(s: &[u8], i: usize) -> (n: usize)
    requires
        i < s@.len(),
    ensures
        n == ws_len(s@, i as int),
{
    let b = s[i];
    let len = s.len();
    if b == 0x20 || (0x09 <= b && b <= 0x0D) {
        1
    } else if b == 0xC2 && len - i > 1 && (s[i + 1] == 0x85 || s[i + 1] == 0xA0) {
        2
    } else if b == 0xE1 && len - i > 2 && s[i + 1] == 0x9A && s[i + 2] == 0x80 {
        3
    } else if b == 0xE2 && len - i > 2 && s[i + 1] == 0x80
        && ((0x80 <= s[i + 2] && s[i + 2] <= 0x8A) || s[i + 2] == 0xA8 || s[i + 2] == 0xA9 || s[i + 2] == 0xAF) {
        3
    } else if b == 0xE2 && len - i > 2 && s[i + 1] == 0x81 && s[i + 2] == 0x9F {
        3
    } else if b == 0xE3 && len - i > 2 && s[i + 1] == 0x80 && s[i + 2] == 0x80 {
        3
    } else {
        0
    }
}

/// A copy of `s[start..end]`.
fn copy_range(s: &[u8], start: usize, end: usize) -> (out: Vec<u8>)
    requires
        start <= end <= s@.len(),
    ensures
        out@ == s@.subrange(start as int, end as int),
{
    let mut out: Vec<u8> = Vec::new();
    let mut i = start;
    while i < end
        invariant
            start <= i <= end <= s@.len(),
            out@ == s@.subrange(start as int, i as int),
        decreases end - i,
    {
        out.push(s[i]);
        proof { assert(out@ =~= s@.subrange(start as int, i + 1)); }
        i = i + 1;
    }
    out
}

/// The words of `s`, in order.
pub fn words(s: &[u8]) -> (ws: Vec<Vec<u8>>)
    ensures
        ws@.len() == split_words(s@).len(),
        forall|i: int| 0 <= i < ws@.len() ==> #[trigger] ws@[i]@ == split_words(s@)[i],
{
    let mut ws: Vec<Vec<u8>> = Vec::new();
    let ghost mut got: Seq<Seq<u8>> = Seq::empty();
    let mut i: usize = 0;
    proof { assert(s@.skip(0) =~= s@); assert(got + split_words(s@.skip(0)) =~= split_words(s@)); }
    while i < s.len()
        invariant
            i <= s@.len(),
            ws@.len() == got.len(),
            forall|j: int| 0 <= j < ws@.len() ==> #[trigger] ws@[j]@ == got[j],
            got + split_words(s@.skip(i as int)) == split_words(s@),
        decreases s@.len() - i,
    {
        let n = ws_at(s, i);
        if n > 0 {
            proof {
                lemma_ws_len_shift(s@, i as int);
                assert(s@.skip(i as int).skip(n as int) =~= s@.skip(i + n));
            }
            i = i + n;
        } else {
            let end = word_end(s, i);
            let w = copy_range(s, i, end);
            proof {
                lemma_ws_len_shift(s@, i as int);
                let t = s@.skip(i as int);
                assert(t.take((end - i) as int) =~= s@.subrange(i as int, end as int));
                assert(t.skip((end - i) as int) =~= s@.skip(end as int));
                assert(split_words(t) == seq![t.take((end - i) as int)] + split_words(t.skip((end - i) as int)));
                assert(got.push(w@) + split_words(s@.skip(end as int)) =~= got + split_words(t));
                got = got.push(w@);
            }
            ws.push(w);
            i = end;
        }
    }
    proof {
        assert(s@.skip(i as int).len() == 0);
        assert(got =~= split_words(s@));
    }
    ws
}


/// The value of one digit byte, in any radix up to 36; 36 for a byte that is no digit.
pub open spec fn digit_value(b: u8) -> nat {
    if 0x30 <= b <= 0x39 {
        (b - 0x30) as nat
    } else if 0x61 <= b <= 0x7A {
        (b - 0x61 + 10) as nat
    } else if 0x41 <= b <= 0x5A {
        (b - 0x41 + 10) as nat
    } else {
        36
    }
}

/// The value of a run of digits in `radix`, most significant first; `None` when a byte is no
/// digit of the radix. The empty run is zero.
pub open spec fn digits_value(s: Seq<u8>, radix: nat) -> Option<nat>
    decreases s.len(),
{
    if s.len() == 0 {
        Some(0)
    } else {
        match digits_value(s.drop_last(), radix) {
            Some(v) => if digit_value(s.last()) < radix { Some(v * radix + digit_value(s.last())) } else { None },
            None => None,
        }
    }
}

/// An unsigned number as `from_str_radix` reads it: an optional `+`, then at least one digit.
pub open spec fn parse_radix(w: Seq<u8>, radix: nat) -> Option<nat> {
    let body = if w.len() > 0 && w[0] == 0x2B { w.drop_first() } else { w };
    if body.len() == 0 { None } else { digits_value(body, radix) }
}

/// The number a word holds, when it fits in `max`.
pub open spec fn parse_bounded(w: Seq<u8>, radix: nat, max: nat) -> Option<nat> {
    match parse_radix(w, radix) {
        Some(v) => if v <= max { Some(v) } else { None },
        None => None,
    }
}

proof fn lemma_digits_grow(s: Seq<u8>, i: int, radix: nat)
    requires
        0 <= i <= s.len(),
        radix >= 1,
        digits_value(s.take(i), radix) is Some,
    ensures
        digits_value(s, radix) is Some ==> digits_value(s, radix).unwrap() >= digits_value(s.take(i), radix).unwrap(),
    decreases s.len() - i,
{
    if i < s.len() {
        let v = digits_value(s.take(i), radix).unwrap();
        assert(s.take(i + 1).drop_last() =~= s.take(i));
        if digits_value(s.take(i + 1), radix) is Some {
            let v1 = digits_value(s.take(i + 1), radix).unwrap();
            assert(v1 >= v) by (nonlinear_arith)
                requires v1 == v * radix + digit_value(s.take(i + 1).last()), radix >= 1, v >= 0;
            lemma_digits_grow(s, i + 1, radix);
        } else {
            lemma_digits_none(s, i + 1, radix);
        }
    } else {
        assert(s.take(i) =~= s);
    }
}

proof fn lemma_digits_none(s: Seq<u8>, i: int, radix: nat)
    requires
        0 <= i <= s.len(),
        digits_value(s.take(i), radix) is None,
    ensures
        digits_value(s, radix) is None,
    decreases s.len() - i,
{
    if i < s.len() {
        assert(s.take(i + 1).drop_last() =~= s.take(i));
        lemma_digits_none(s, i + 1, radix);
    } else {
        assert(s.take(i) =~= s);
    }
}

/// The unsigned number a word holds in `radix` (10 or 16), as `u64::from_str_radix` reads it:
/// `None` for a word that is no number, or one too large.
pub fn parse_u64(w: &[u8], radix: u64) -> (v: Option<u64>)
    requires
        radix == 10 || radix == 16,
    ensures
        v == (match parse_bounded(w@, radix as nat, u64::MAX as nat) { Some(n) => Some(n as u64), None => None::<u64> }),
{
    let mut start: usize = 0;
    if w.len() > 0 && w[0] == 0x2B {
        start = 1;
    }
    let ghost body = if w@.len() > 0 && w@[0] == 0x2B { w@.drop_first() } else { w@ };
    proof { assert(body =~= w@.skip(start as int)); }
    if start == w.len() {
        return None;
    }
    proof { assert(parse_radix(w@, radix as nat) == digits_value(body, radix as nat)); }
    let mut acc: u64 = 0;
    let mut i = start;
    proof { assert(body.take(0) =~= Seq::<u8>::empty()); }
    while i < w.len()
        invariant
            start <= i <= w@.len(),
            body == w@.skip(start as int),
            digits_value(body.take((i - start) as int), radix as nat) == Some(acc as nat),
            radix == 10 || radix == 16,
            parse_radix(w@, radix as nat) == digits_value(body, radix as nat),
        decreases w@.len() - i,
    {
        let b = w[i];
        let d: u64 = if 0x30 <= b && b <= 0x39 {
            (b - 0x30) as u64
        } else if 0x61 <= b && b <= 0x7A {
            (b - 0x61 + 10) as u64
        } else if 0x41 <= b && b <= 0x5A {
            (b - 0x41 + 10) as u64
        } else {
            36
        };
        let ghost k = (i - start) as int;
        proof {
            assert(body.take(k + 1).drop_last() =~= body.take(k));
            assert(body.take(k + 1).last() == b);
        }
        proof { assert(d as nat == digit_value(b)); }
        if d >= radix {
            proof {
                assert(digits_value(body.take(k + 1), radix as nat) is None);
                lemma_digits_none(body, k + 1, radix as nat);
            }
            return None;
        }
        let limit = (u64::MAX - d) / radix;
        let ghost room = (u64::MAX - d) as int;
        proof {
            vstd::arithmetic::div_mod::lemma_fundamental_div_mod(room, radix as int);
            assert(limit as int == room / (radix as int));
            assert(0 <= room % (radix as int) < radix);
        }
        if acc > limit {
            proof {
                assert(acc * radix + d > u64::MAX) by (nonlinear_arith)
                    requires acc >= limit + 1, room == radix * limit + room % (radix as int), room % (radix as int) < radix,
                        room == u64::MAX - d, radix >= 10;
                assert(digits_value(body.take(k + 1), radix as nat) == Some((acc * radix + d) as nat));
                lemma_digits_grow(body, k + 1, radix as nat);
            }
            return None;
        }
        proof {
            assert(acc * radix + d <= u64::MAX) by (nonlinear_arith)
                requires acc <= limit, room == radix * limit + room % (radix as int), room % (radix as int) >= 0,
                    room == u64::MAX - d, radix >= 10;
        }
        acc = acc * radix + d;
        i = i + 1;
    }
    proof { assert(body.take((i - start) as int) =~= body); }
    Some(acc)
}

/// The unsigned 32-bit number a word holds in hexadecimal, as `u32::from_str_radix` reads it.
pub fn parse_hex_u32(w: &[u8]) -> (v: Option<u32>)
    ensures
        v == (match parse_bounded(w@, 16, u32::MAX as nat) { Some(n) => Some(n as u32), None => None::<u32> }),
{
    match parse_u64(w, 16) {
        Some(n) => if n <= u32::MAX as u64 { Some(n as u32) } else { None },
        None => None,
    }
}

/// The decimal digits of `n`, most significant first, no leading zero.
pub open spec fn dec(n: nat) -> Seq<u8>
    decreases n,
{
    if n < 10 { seq![(0x30 + n) as u8] } else { dec(n / 10).push((0x30 + n % 10) as u8) }
}

/// An upper-case hexadecimal digit.
pub open spec fn hex_char(d: nat) -> u8 {
    if d < 10 { (0x30 + d) as u8 } else { (0x41 + d - 10) as u8 }
}

/// `n` in exactly `width` upper-case hexadecimal digits, most significant first.
pub open spec fn hex_fixed(n: nat, width: nat) -> Seq<u8>
    decreases width,
{
    if width == 0 { Seq::empty() } else { hex_fixed(n / 16, (width - 1) as nat).push(hex_char(n % 16)) }
}

/// The decimal digits of `n`.
pub fn decimal(n: u64) -> (out: Vec<u8>)
    ensures
        out@ == dec(n as nat),
    decreases n,
{
    if n < 10 {
        let mut out = Vec::new();
        out.push((0x30 + n) as u8);
        out
    } else {
        let mut out = decimal(n / 10);
        out.push((0x30 + n % 10) as u8);
        out
    }
}

/// `n` in exactly `width` upper-case hexadecimal digits.
pub fn hex(n: u64, width: u64) -> (out: Vec<u8>)
    ensures
        out@ == hex_fixed(n as nat, width as nat),
    decreases width,
{
    if width == 0 {
        Vec::new()
    } else {
        let mut out = hex(n / 16, width - 1);
        let d = n % 16;
        out.push(if d < 10 { (0x30 + d) as u8 } else { (0x41 + d - 10) as u8 });
        out
    }
}

/// A decimal rendering reads back as the number written.
pub proof fn lemma_decimal_reads_back(n: nat)
    ensures
        digits_value(dec(n), 10) == Some(n),
        dec(n).len() > 0,
        0x30 <= dec(n)[0] <= 0x39,
        forall|i: int| 0 <= i < dec(n).len() ==> 0x30 <= #[trigger] dec(n)[i] <= 0x39,
        parse_radix(dec(n), 10) == Some(n),
    decreases n,
{
    if n >= 10 {
        lemma_decimal_reads_back(n / 10);
        assert(dec(n).drop_last() =~= dec(n / 10));
        assert(forall|i: int| 0 <= i < dec(n / 10).len() ==> dec(n)[i] == #[trigger] dec(n / 10)[i]);
        assert(dec(n).last() == (0x30 + n % 10) as u8);
        assert(digit_value(dec(n).last()) == n % 10);
        assert((n / 10) * 10 + n % 10 == n);
        assert(dec(n)[0] == dec(n / 10)[0]);
        assert(digits_value(dec(n).drop_last(), 10) == Some(n / 10));
        assert(digits_value(dec(n), 10) == Some((n / 10) * 10 + n % 10));
    } else {
        assert(dec(n).drop_last() =~= Seq::<u8>::empty());
        assert(dec(n).last() == (0x30 + n) as u8);
        assert(digit_value(dec(n).last()) == n);
        assert(digits_value(dec(n).drop_last(), 10) == Some(0nat));
        assert(digits_value(dec(n), 10) == Some(0 * 10 + n));
    }
}

/// Sixteen to the `w`.
pub open spec fn pow16(w: nat) -> nat
    decreases w,
{
    if w == 0 { 1 } else { 16 * pow16((w - 1) as nat) }
}

/// A fixed-width hexadecimal rendering of a number that fits reads back as the number.
pub proof fn lemma_hex_reads_back(n: nat, width: nat)
    requires
        n < pow16(width),
    ensures
        digits_value(hex_fixed(n, width), 16) == Some(n),
        hex_fixed(n, width).len() == width,
        forall|i: int| 0 <= i < hex_fixed(n, width).len() ==> digit_value(#[trigger] hex_fixed(n, width)[i]) < 16,
        forall|i: int| 0 <= i < hex_fixed(n, width).len() ==> #[trigger] hex_fixed(n, width)[i] != 0x2B,
        width > 0 ==> parse_radix(hex_fixed(n, width), 16) == Some(n),
    decreases width,
{
    if width > 0 {
        assert(n / 16 < pow16((width - 1) as nat)) by (nonlinear_arith)
            requires n < 16 * pow16((width - 1) as nat);
        lemma_hex_reads_back(n / 16, (width - 1) as nat);
        assert(hex_fixed(n, width).drop_last() =~= hex_fixed(n / 16, (width - 1) as nat));
        assert(forall|i: int| 0 <= i < hex_fixed(n / 16, (width - 1) as nat).len() ==> hex_fixed(n, width)[i] == #[trigger] hex_fixed(n / 16, (width - 1) as nat)[i]);
        assert((n / 16) * 16 + n % 16 == n);
    } else {
        assert(n == 0);
    }
}

/// Whether a word holds no white space: every byte printable ASCII other than the space.
pub open spec fn plain_word(w: Seq<u8>) -> bool {
    w.len() > 0 && forall|i: int| 0 <= i < w.len() ==> 0x21 <= #[trigger] w[i] <= 0x7E
}

/// Words joined by single spaces.
pub open spec fn join(ws: Seq<Seq<u8>>) -> Seq<u8>
    decreases ws.len(),
{
    if ws.len() == 0 {
        Seq::empty()
    } else if ws.len() == 1 {
        ws[0]
    } else {
        ws[0] + seq![0x20u8] + join(ws.drop_first())
    }
}

proof fn lemma_word_len_plain(w: Seq<u8>, rest: Seq<u8>)
    requires
        forall|i: int| 0 <= i < w.len() ==> 0x21 <= #[trigger] w[i] <= 0x7E,
        rest.len() == 0 || ws_len(rest, 0) > 0,
    ensures
        word_len(w + rest) == w.len(),
    decreases w.len(),
{
    if w.len() > 0 {
        assert((w + rest).drop_first() =~= w.drop_first() + rest);
        lemma_word_len_plain(w.drop_first(), rest);
    } else {
        assert(w + rest =~= rest);
    }
}

/// Plain words joined by spaces fall apart into exactly those words.
pub proof fn lemma_join_splits(ws: Seq<Seq<u8>>)
    requires
        forall|i: int| 0 <= i < ws.len() ==> plain_word(#[trigger] ws[i]),
    ensures
        split_words(join(ws)) == ws,
    decreases ws.len(),
{
    if ws.len() == 1 {
        let w = ws[0];
        assert(plain_word(ws[0]));
        lemma_word_len_plain(w, Seq::empty());
        assert(w + Seq::<u8>::empty() =~= w);
        assert(ws_len(w, 0) == 0);
        assert(split_words(w) == seq![w.take(w.len() as int)] + split_words(w.skip(w.len() as int)));
        assert(w.take(w.len() as int) =~= w);
        assert(w.skip(w.len() as int) =~= Seq::<u8>::empty());
        assert(ws =~= seq![w]);
    } else if ws.len() > 1 {
        let w = ws[0];
        assert(plain_word(ws[0]));
        let rest = seq![0x20u8] + join(ws.drop_first());
        let line = w + rest;
        assert(join(ws) == line);
        lemma_word_len_plain(w, rest);
        assert(line.take(w.len() as int) =~= w);
        assert(line.skip(w.len() as int) =~= rest);
        assert(rest.skip(1) =~= join(ws.drop_first()));
        assert(line[0] == w[0]);
        assert(ws_len(line, 0) == 0);
        assert(ws_len(rest, 0) == 1);
        assert(split_words(rest) == split_words(rest.skip(1)));
        assert(split_words(line) == seq![line.take(w.len() as int)] + split_words(line.skip(w.len() as int)));
        assert forall|i: int| 0 <= i < ws.drop_first().len() implies plain_word(#[trigger] ws.drop_first()[i]) by {
            assert(plain_word(ws[i + 1]));
        }
        lemma_join_splits(ws.drop_first());
        assert(seq![w] + ws.drop_first() =~= ws);
    } else {
        assert(ws =~= Seq::<Seq<u8>>::empty());
    }
}

} // verus!
