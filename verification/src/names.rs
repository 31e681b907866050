//! Names and numerals: decimal and hexadecimal rendering of integers, and
//! scoped tables keyed by name.

use crate::syntax::{Name, names_of};
use vstd::prelude::*;

verus! {

/// The character of a decimal digit.
pub open spec fn digit_char(d: int) -> char {
    if d == 0 {
        '0'
    } else if d == 1 {
        '1'
    } else if d == 2 {
        '2'
    } else if d == 3 {
        '3'
    } else if d == 4 {
        '4'
    } else if d == 5 {
        '5'
    } else if d == 6 {
        '6'
    } else if d == 7 {
        '7'
    } else if d == 8 {
        '8'
    } else {
        '9'
    }
}

/// The decimal numeral of a natural number, without leading zeros.
pub open spec fn decimal(n: nat) -> Seq<char>
    decreases n,
{
    if n < 10 {
        seq![digit_char(n as int)]
    } else {
        decimal(n / 10).push(digit_char((n % 10) as int))
    }
}

/// The decimal numeral of an integer, with a minus sign where it is negative.
pub open spec fn signed_decimal(i: int) -> Seq<char> {
    if i < 0 {
        seq!['-'] + decimal((-i) as nat)
    } else {
        decimal(i as nat)
    }
}

/// The character of a hexadecimal digit, in lower case.
pub open spec fn hex_char(d: int) -> char {
    if d < 10 {
        digit_char(d)
    } else if d == 10 {
        'a'
    } else if d == 11 {
        'b'
    } else if d == 12 {
        'c'
    } else if d == 13 {
        'd'
    } else if d == 14 {
        'e'
    } else {
        'f'
    }
}

/// The last `width` hexadecimal digits of a natural number.
pub open spec fn hex_digits(n: nat, width: nat) -> Seq<char>
    decreases width,
{
    if width == 0 {
        Seq::empty()
    } else {
        hex_digits(n / 16, (width - 1) as nat).push(hex_char((n % 16) as int))
    }
}

/// A 64-bit word in hexadecimal: `0x` and sixteen digits.
pub open spec fn hex_word(n: nat) -> Seq<char> {
    seq!['0', 'x'] + hex_digits(n, 16)
}

/// Whether a character is a decimal digit.
pub open spec fn is_digit(c: char) -> bool {
    exists|d: int| 0 <= d < 10 && c == digit_char(d)
}

/// A numeral holds digits only and is not empty.
pub proof fn lemma_decimal_digits(n: nat)
    ensures
        decimal(n).len() >= 1,
        forall|i: int| 0 <= i < decimal(n).len() ==> is_digit(#[trigger] decimal(n)[i]),
    decreases n,
{
    if n < 10 {
        assert(is_digit(digit_char(n as int)));
    } else {
        lemma_decimal_digits(n / 10);
        assert(is_digit(digit_char((n % 10) as int)));
    }
}

/// A numeral of more than one digit does not start with a zero.
pub proof fn lemma_decimal_no_leading_zero(n: nat)
    ensures
        n >= 10 ==> decimal(n)[0] != '0' && decimal(n).len() >= 2,
        n < 10 ==> decimal(n).len() == 1,
    decreases n,
{
    if n >= 10 {
        lemma_decimal_no_leading_zero(n / 10);
        if n / 10 < 10 {
            assert(decimal(n / 10)[0] == digit_char((n / 10) as int));
        }
    }
}

/// Different numbers have different numerals.
pub proof fn lemma_decimal_injective(a: nat, b: nat)
    requires
        decimal(a) == decimal(b),
    ensures
        a == b,
    decreases a,
{
    lemma_decimal_no_leading_zero(a);
    lemma_decimal_no_leading_zero(b);
    if a < 10 {
        assert(decimal(a)[0] == digit_char(a as int));
        assert(decimal(b)[0] == digit_char(b as int));
    } else {
        let da = decimal(a / 10);
        let db = decimal(b / 10);
        assert(decimal(a).drop_last() =~= da);
        assert(decimal(b).drop_last() =~= db);
        assert(decimal(a).last() == digit_char((a % 10) as int));
        assert(decimal(b).last() == digit_char((b % 10) as int));
        lemma_decimal_injective(a / 10, b / 10);
    }
}

/// One decimal digit as text.
pub fn digit_str(d: u8) -> (r: &'static str)
    requires
        d < 10,
    ensures
        r@ == seq![digit_char(d as int)],
{
    proof {
        reveal_strlit("0");
        reveal_strlit("1");
        reveal_strlit("2");
        reveal_strlit("3");
        reveal_strlit("4");
        reveal_strlit("5");
        reveal_strlit("6");
        reveal_strlit("7");
        reveal_strlit("8");
        reveal_strlit("9");
    }
    let r = match d {
        0 => "0",
        1 => "1",
        2 => "2",
        3 => "3",
        4 => "4",
        5 => "5",
        6 => "6",
        7 => "7",
        8 => "8",
        _ => "9",
    };
    assert(r@ =~= seq![digit_char(d as int)]);
    r
}

/// One hexadecimal digit as text.
pub fn hex_str(d: u8) -> (r: &'static str)
    requires
        d < 16,
    ensures
        r@ == seq![hex_char(d as int)],
{
    if d < 10 {
        digit_str(d)
    } else {
        proof {
            reveal_strlit("a");
            reveal_strlit("b");
            reveal_strlit("c");
            reveal_strlit("d");
            reveal_strlit("e");
            reveal_strlit("f");
        }
        let r = match d {
            10 => "a",
            11 => "b",
            12 => "c",
            13 => "d",
            14 => "e",
            _ => "f",
        };
        assert(r@ =~= seq![hex_char(d as int)]);
        r
    }
}

/// The decimal numeral of `n`.
pub fn decimal_string(n: u64) -> (r: String)
    ensures
        r@ == decimal(n as nat),
    decreases n,
{
    if n < 10 {
        String::from_str(digit_str(n as u8))
    } else {
        let mut s = decimal_string(n / 10);
        s.append(digit_str((n % 10) as u8));
        assert(s@ =~= decimal(n as nat));
        s
    }
}

/// The decimal numeral of `i`, signed.
pub fn signed_decimal_string(i: i64) -> (r: String)
    ensures
        r@ == signed_decimal(i as int),
{
    if i < 0 {
        let magnitude: u64 = ((-(i + 1)) as u64) + 1;
        let mut s = String::from_str("-");
        let digits = decimal_string(magnitude);
        s.append(digits.as_str());
        proof {
            reveal_strlit("-");
            assert(s@ =~= signed_decimal(i as int));
        }
        s
    } else {
        decimal_string(i as u64)
    }
}

/// The last `width` hexadecimal digits of `n`.
pub fn hex_digits_string(n: u64, width: u8) -> (r: String)
    ensures
        r@ == hex_digits(n as nat, width as nat),
    decreases width,
{
    if width == 0 {
        let s = String::new();
        assert(s@ =~= hex_digits(n as nat, 0));
        s
    } else {
        let mut s = hex_digits_string(n / 16, width - 1);
        s.append(hex_str((n % 16) as u8));
        assert(s@ =~= hex_digits(n as nat, width as nat));
        s
    }
}

/// `n` as `0x` and sixteen hexadecimal digits.
pub fn hex_word_string(n: u64) -> (r: String)
    ensures
        r@ == hex_word(n as nat),
{
    let mut s = String::from_str("0x");
    let digits = hex_digits_string(n, 16);
    s.append(digits.as_str());
    proof {
        reveal_strlit("0x");
        assert(s@ =~= hex_word(n as nat));
    }
    s
}

/// Text followed by the decimal numeral of a counter.
pub open spec fn numbered(prefix: Seq<char>, n: nat) -> Name {
    prefix + decimal(n)
}

/// The name made of `prefix` and the numeral of `n`.
pub fn numbered_name(prefix: &str, n: u32) -> (r: String)
    ensures
        r@ == numbered(prefix@, n as nat),
{
    let mut s = String::from_str(prefix);
    let digits = decimal_string(n as u64);
    s.append(digits.as_str());
    s
}

/// The position of the last occurrence of `x` among `keys`, or -1.
pub open spec fn index_of(keys: Seq<Name>, x: Name) -> int
    decreases keys.len(),
{
    if keys.len() == 0 {
        -1
    } else if keys.last() == x {
        keys.len() - 1
    } else {
        index_of(keys.drop_last(), x)
    }
}

/// Whether `x` occurs among `keys`.
pub open spec fn has_name(keys: Seq<Name>, x: Name) -> bool {
    index_of(keys, x) >= 0
}

/// What `index_of` finds is the last occurrence.
pub proof fn lemma_index_of(keys: Seq<Name>, x: Name)
    ensures
        -1 <= index_of(keys, x) < keys.len(),
        index_of(keys, x) >= 0 ==> keys[index_of(keys, x)] == x,
        forall|j: int| index_of(keys, x) < j < keys.len() ==> keys[j] != x,
        keys.contains(x) <==> index_of(keys, x) >= 0,
    decreases keys.len(),
{
    if keys.len() > 0 {
        lemma_index_of(keys.drop_last(), x);
        if keys.last() == x {
            assert(keys[keys.len() - 1] == x);
        } else {
            if keys.contains(x) {
                let j = choose|j: int| 0 <= j < keys.len() && keys[j] == x;
                assert(keys.drop_last()[j] == x);
            }
            if index_of(keys, x) >= 0 {
                assert(keys[index_of(keys, x)] == x);
            }
            assert forall|j: int| index_of(keys, x) < j < keys.len() implies keys[j] != x by {
                if j < keys.len() - 1 {
                    assert(keys.drop_last()[j] == keys[j]);
                }
            }
        }
    }
}

/// A table as the specifications see it: its entries, oldest first, each
/// under its name.
pub open spec fn table_of<T>(m: Seq<(String, T)>) -> Seq<(Name, T)> {
    Seq::new(m.len(), |i: int| (m[i].0@, m[i].1))
}

/// The names under which a table holds its entries.
pub open spec fn keys<T>(t: Seq<(Name, T)>) -> Seq<Name> {
    Seq::new(t.len(), |i: int| t[i].0)
}

/// The newest entry of a table under `x`.
pub open spec fn lookup<T>(t: Seq<(Name, T)>, x: Name) -> Option<T> {
    let i = index_of(keys(t), x);
    if i >= 0 {
        Some(t[i].1)
    } else {
        None
    }
}

/// A table with one more entry has one more key.
pub proof fn lemma_keys_push<T>(t: Seq<(Name, T)>, x: Name, v: T)
    ensures
        keys(t.push((x, v))) == keys(t).push(x),
{
    assert(keys(t.push((x, v))) =~= keys(t).push(x));
}

/// The position of the newest entry for `x`, where there is one.
pub fn find_last<T>(m: &Vec<(String, T)>, x: &String) -> (r: Option<usize>)
    ensures
        match r {
            Some(i) => i as int == index_of(keys(table_of(m@)), x@) && i < m.len() && m[i as int].0@
                == x@,
            None => index_of(keys(table_of(m@)), x@) == -1,
        },
{
    proof {
        lemma_index_of(keys(table_of(m@)), x@);
    }
    let mut i: usize = m.len();
    let ghost names = keys(table_of(m@));
    assert(names.take(i as int) =~= names);
    while i > 0
        invariant
            i <= m.len(),
            names == keys(table_of(m@)),
            index_of(names, x@) == index_of(names.take(i as int), x@),
        decreases i,
    {
        assert(names.take(i as int).last() == m@[i - 1].0@);
        if m[i - 1].0 == *x {
            return Some(i - 1);
        }
        assert(names.take(i as int).drop_last() =~= names.take(i - 1));
        i -= 1;
    }
    assert(names.take(0).len() == 0);
    None
}

/// Adds an entry to a table.
pub fn bind<T>(m: &mut Vec<(String, T)>, x: String, v: T)
    ensures
        final(m)@ == old(m)@.push((x, v)),
        table_of(final(m)@) == table_of(old(m)@).push((x@, v)),
{
    m.push((x, v));
    assert(table_of(m@) =~= table_of(old(m)@).push((x@, v)));
}

/// Takes the newest entries off a table until `len` are left.
pub fn unbind<T>(m: &mut Vec<(String, T)>, len: usize)
    requires
        len <= old(m).len(),
    ensures
        final(m)@ == old(m)@.take(len as int),
        table_of(final(m)@) == table_of(old(m)@).take(len as int),
{
    m.truncate(len);
    assert(m@ =~= old(m)@.take(len as int));
    assert(table_of(m@) =~= table_of(old(m)@).take(len as int));
}

/// The position of the last occurrence of `x` in a list of names.
pub fn find_name(v: &Vec<String>, x: &String) -> (r: Option<usize>)
    ensures
        match r {
            Some(i) => i as int == index_of(names_of(v@), x@) && i < v.len()
                && v[i as int]@ == x@,
            None => index_of(names_of(v@), x@) == -1,
        },
{
    proof {
        lemma_index_of(names_of(v@), x@);
    }
    let mut i: usize = v.len();
    let ghost keys = names_of(v@);
    assert(keys.take(i as int) =~= keys);
    while i > 0
        invariant
            i <= v.len(),
            keys == names_of(v@),
            index_of(keys, x@) == index_of(keys.take(i as int), x@),
        decreases i,
    {
        assert(keys.take(i as int).last() == v@[i - 1]@);
        if v[i - 1] == *x {
            return Some(i - 1);
        }
        assert(keys.take(i as int).drop_last() =~= keys.take(i - 1));
        i -= 1;
    }
    assert(keys.take(0).len() == 0);
    None
}

} // verus!
