//! What the runtime does with the words that compiled code hands it: it
//! renders a tagged value as text, and a trap as an error message.

use crate::compile::{SNAKE_FLS, SNAKE_TRU};
use crate::names::{decimal, decimal_string, hex_char, hex_str, signed_decimal};
use crate::names::signed_decimal_string;
use vstd::prelude::*;

verus! {

/// The error codes that the traps of compiled code pass to the runtime.
pub const ARITH_TYPE_ERROR: u64 = 0;

pub const CMP_TYPE_ERROR: u64 = 1;

pub const OVERFLOW_ERROR: u64 = 2;

pub const IF_TYPE_ERROR: u64 = 3;

pub const LOGIC_TYPE_ERROR: u64 = 4;

/// The signed number with the same 64 bits.
pub open spec fn signed_of(x: u64) -> int {
    if x < 0x8000_0000_0000_0000 {
        x as int
    } else {
        x - 0x1_0000_0000_0000_0000
    }
}

/// Whether a word is a legal tagged value: a number, whose lowest bit is 0,
/// or one of the two booleans.
pub open spec fn legal_word(x: u64) -> bool {
    x % 2 == 0 || x == SNAKE_TRU || x == SNAKE_FLS
}

/// The number that a word with the lowest bit 0 stands for.
pub open spec fn number_of(x: u64) -> int {
    signed_of(x) / 2
}

/// The hexadecimal numeral of a natural number, without leading zeros.
pub open spec fn hex_numeral(n: nat) -> Seq<char>
    decreases n,
{
    if n < 16 {
        seq![hex_char(n as int)]
    } else {
        hex_numeral(n / 16).push(hex_char((n % 16) as int))
    }
}

/// A word as the runtime prints it.
pub open spec fn word_text(x: u64) -> Seq<char> {
    if x % 2 == 0 {
        signed_decimal(number_of(x))
    } else if x == SNAKE_TRU {
        "true"@
    } else if x == SNAKE_FLS {
        "false"@
    } else {
        "Invalid snake value 0x"@ + hex_numeral(x as nat)
    }
}

/// What the runtime says of a trap with this code and this value.
pub open spec fn error_text(code: u64, x: u64) -> Seq<char> {
    if code == ARITH_TYPE_ERROR {
        "arithmetic expected a number "@ + word_text(x)
    } else if code == CMP_TYPE_ERROR {
        "comparison expected a number "@ + word_text(x)
    } else if code == OVERFLOW_ERROR {
        "overflow "@ + word_text(x)
    } else if code == IF_TYPE_ERROR {
        "if expected a boolean "@ + word_text(x)
    } else if code == LOGIC_TYPE_ERROR {
        "logic expected a boolean "@ + word_text(x)
    } else {
        "Unknown error "@ + decimal(code as nat)
    }
}

/// Reads the bits of an unsigned number as a signed one.
pub fn unsigned_to_signed(x: u64) -> (r: i64)
    ensures
        r == signed_of(x),
{
    if x < 0x8000_0000_0000_0000 {
        x as i64
    } else {
        ((x - 0x8000_0000_0000_0000) as i64) + i64::MIN
    }
}

/// Half of an even signed number.
pub fn halve(n: i64) -> (r: i64)
    requires
        n % 2 == 0,
    ensures
        r == n / 2,
{
    if n >= 0 {
        ((n as u64) / 2) as i64
    } else {
        let m: u64 = ((-(n + 1)) as u64) + 1;
        -((m / 2) as i64)
    }
}

/// The hexadecimal numeral of `n`.
pub fn hex_numeral_string(n: u64) -> (r: String)
    ensures
        r@ == hex_numeral(n as nat),
    decreases n,
{
    if n < 16 {
        String::from_str(hex_str(n as u8))
    } else {
        let mut s = hex_numeral_string(n / 16);
        s.append(hex_str((n % 16) as u8));
        assert(s@ =~= hex_numeral(n as nat));
        s
    }
}

/// A tagged value as text.
pub fn sprint_snake_val(x: u64) -> (s: String)
    ensures
        s@ == word_text(x),
{
    if x % 2 == 0 {
        let n = unsigned_to_signed(x);
        signed_decimal_string(halve(n))
    } else if x == SNAKE_TRU {
        String::from_str("true")
    } else if x == SNAKE_FLS {
        String::from_str("false")
    } else {
        let mut s = String::from_str("Invalid snake value 0x");
        let digits = hex_numeral_string(x);
        s.append(digits.as_str());
        s
    }
}

/// The message of a trap.
pub fn error_message(err_code: u64, v: u64) -> (s: String)
    ensures
        s@ == error_text(err_code, v),
{
    if err_code == ARITH_TYPE_ERROR {
        let mut s = String::from_str("arithmetic expected a number ");
        s.append(sprint_snake_val(v).as_str());
        s
    } else if err_code == CMP_TYPE_ERROR {
        let mut s = String::from_str("comparison expected a number ");
        s.append(sprint_snake_val(v).as_str());
        s
    } else if err_code == OVERFLOW_ERROR {
        let mut s = String::from_str("overflow ");
        s.append(sprint_snake_val(v).as_str());
        s
    } else if err_code == IF_TYPE_ERROR {
        let mut s = String::from_str("if expected a boolean ");
        s.append(sprint_snake_val(v).as_str());
        s
    } else if err_code == LOGIC_TYPE_ERROR {
        let mut s = String::from_str("logic expected a boolean ");
        s.append(sprint_snake_val(v).as_str());
        s
    } else {
        let mut s = String::from_str("Unknown error ");
        s.append(decimal_string(err_code).as_str());
        s
    }
}

} // verus!
