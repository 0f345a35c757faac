//! The Master Control Program's verified core: the world server's rules of record - the
//! acceptance window and silence rules, the roster of record, the validator, the input log's
//! format, the replay check's bookkeeping and the state hash - with the simulated physics and
//! the wire's sockets left to the program around it.

pub mod clu;
pub mod heartbeat;
pub mod physics;
pub mod readback;
pub mod record;
pub mod roster;
pub mod script;
pub mod stager;
pub mod table;
pub mod text;
pub mod validator;
pub mod wire;
pub mod world;

use vstd::prelude::*;

verus! {

/// A lower-case hexadecimal digit.
pub open spec fn hex_digit_char(d: int) -> char {
    if d < 10 { ((d + 48) as u8) as char } else { ((d + 87) as u8) as char }
}

/// The sixteen lower-case hexadecimal digits of `n`, most significant first.
pub open spec fn lower_hex(n: u64) -> Seq<char> {
    Seq::new(16, |k: int| hex_digit_char(((n >> ((60 - 4 * k) as u64)) & 0xF) as int))
}

fn hex_digit_str(d: u64) -> (s: &'static str)
    requires
        d < 16,
    ensures
        s@ == seq![hex_digit_char(d as int)],
{
    proof {
        reveal_strlit("0"); reveal_strlit("1"); reveal_strlit("2"); reveal_strlit("3");
        reveal_strlit("4"); reveal_strlit("5"); reveal_strlit("6"); reveal_strlit("7");
        reveal_strlit("8"); reveal_strlit("9"); reveal_strlit("a"); reveal_strlit("b");
        reveal_strlit("c"); reveal_strlit("d"); reveal_strlit("e"); reveal_strlit("f");
    }
    match d {
        0 => "0", 1 => "1", 2 => "2", 3 => "3", 4 => "4", 5 => "5", 6 => "6", 7 => "7",
        8 => "8", 9 => "9", 10 => "a", 11 => "b", 12 => "c", 13 => "d", 14 => "e", _ => "f",
    }
}

/// The build's stamp as it is printed and logged: sixteen lower-case hex digits.
pub fn build_hash_hex(build_hash: u64) -> (hex: String)
    ensures
        hex@ == lower_hex(build_hash),
{
    let mut hex = String::new();
    let mut k: u64 = 0;
    while k < 16
        invariant
            k <= 16,
            hex@ == lower_hex(build_hash).take(k as int),
        decreases 16 - k,
    {
        let shift: u64 = 60 - 4 * k;
        let digit = (build_hash >> shift) & 0xF;
        assert(digit < 16) by (bit_vector)
            requires digit == (build_hash >> shift) & 0xF;
        hex.append(hex_digit_str(digit));
        proof { assert(hex@ =~= lower_hex(build_hash).take(k + 1)); }
        k = k + 1;
    }
    proof { assert(hex@ =~= lower_hex(build_hash)); }
    hex
}

} // verus!
