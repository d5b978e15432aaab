//! Character-level text building: the library composes all of its output -
//! wire records and the state dump - as lists of characters with exact
//! contracts, and turns them into `String`s through one trusted conversion.

use vstd::prelude::*;
use vstd::string::StrSliceExecFns;

verus! {

/// Relies on `String`'s `FromIterator<char>` impl of std: collecting chars
/// yields the string of exactly those chars in order.
#[verifier::external_body]
pub fn chars_to_string(v: &Vec<char>) -> (s: String)
    ensures
        s@ == v@,
{
    v.iter().collect()
}

/// The characters of a string slice, as a list.
pub fn str_chars(s: &str) -> (r: Vec<char>)
    ensures
        r@ == s@,
{
    let n = s.unicode_len();
    let mut r: Vec<char> = Vec::new();
    for i in 0..n
        invariant
            n == s@.len(),
            r@ == s@.take(i as int),
    {
        r.push(s.get_char(i));
        proof {
            assert(r@ =~= s@.take(i + 1));
        }
    }
    proof {
        assert(s@.take(n as int) =~= s@);
    }
    r
}

/// The decimal digit character of a value below ten.
pub open spec fn digit_char(d: int) -> char {
    if d == 0 {
        '0'
    } else if d == 1 {
        '1'
    } else if d == 2 {
        '2'
    } else if d == 3 {
        '3'
    } else if d == 4 {
        '4'
    } else if d == 5 {
        '5'
    } else if d == 6 {
        '6'
    } else if d == 7 {
        '7'
    } else if d == 8 {
        '8'
    } else {
        '9'
    }
}

/// The decimal numeral of a natural number, most significant digit first.
pub open spec fn dec_chars(v: nat) -> Seq<char>
    decreases v,
{
    if v < 10 {
        seq![digit_char(v as int)]
    } else {
        dec_chars(v / 10).push(digit_char((v % 10) as int))
    }
}

/// The numeral of a `u64`.
pub open spec fn u64_chars(v: u64) -> Seq<char> {
    dec_chars(v as nat)
}

/// The digit character of a value below ten, at exec level.
pub fn digit_of(d: u64) -> (c: char)
    requires
        d < 10,
    ensures
        c == digit_char(d as int),
{
    if d == 0 {
        '0'
    } else if d == 1 {
        '1'
    } else if d == 2 {
        '2'
    } else if d == 3 {
        '3'
    } else if d == 4 {
        '4'
    } else if d == 5 {
        '5'
    } else if d == 6 {
        '6'
    } else if d == 7 {
        '7'
    } else if d == 8 {
        '8'
    } else {
        '9'
    }
}

/// Append the decimal numeral of `v` to `out`.
pub fn push_u64_digits(v: u64, out: &mut Vec<char>)
    ensures
        final(out)@ == old(out)@ + dec_chars(v as nat),
    decreases v,
{
    if v < 10 {
        out.push(digit_of(v));
        proof {
            assert(final(out)@ =~= old(out)@ + dec_chars(v as nat));
        }
    } else {
        push_u64_digits(v / 10, out);
        out.push(digit_of(v % 10));
        proof {
            assert(final(out)@ =~= old(out)@ + dec_chars(v as nat));
        }
    }
}

/// Whether a character is a decimal digit.
pub open spec fn is_digit_char(c: char) -> bool {
    c == '0' || c == '1' || c == '2' || c == '3' || c == '4' || c == '5' || c == '6' || c == '7'
        || c == '8' || c == '9'
}

/// The value of a decimal digit character.
pub open spec fn char_digit(c: char) -> int {
    if c == '0' {
        0
    } else if c == '1' {
        1
    } else if c == '2' {
        2
    } else if c == '3' {
        3
    } else if c == '4' {
        4
    } else if c == '5' {
        5
    } else if c == '6' {
        6
    } else if c == '7' {
        7
    } else if c == '8' {
        8
    } else {
        9
    }
}

/// The value of a digit string, most significant digit first.
pub open spec fn digits_val(s: Seq<char>) -> int
    decreases s.len(),
{
    if s.len() == 0 {
        0
    } else {
        digits_val(s.drop_last()) * 10 + char_digit(s.last())
    }
}

/// Every character of a numeral is a digit.
pub proof fn lemma_dec_digits(v: nat)
    ensures
        forall|x: int| 0 <= x < dec_chars(v).len() ==> is_digit_char(#[trigger] dec_chars(v)[x]),
        dec_chars(v).len() >= 1,
    decreases v,
{
    if v >= 10 {
        lemma_dec_digits(v / 10);
        assert(forall|x: int|
            0 <= x < dec_chars(v).len() - 1 ==> dec_chars(v)[x] == dec_chars(v / 10)[x]);
    }
}

/// A numeral reads back to its value.
pub proof fn lemma_dec_val(v: nat)
    ensures
        digits_val(dec_chars(v)) == v,
    decreases v,
{
    if v < 10 {
        assert(dec_chars(v).drop_last() =~= Seq::<char>::empty());
        assert(dec_chars(v).last() == digit_char(v as int));
        assert(digits_val(Seq::<char>::empty()) == 0);
        assert(char_digit(digit_char(v as int)) == v);
    } else {
        lemma_dec_val(v / 10);
        assert(dec_chars(v).last() == digit_char((v % 10) as int));
        assert(char_digit(digit_char((v % 10) as int)) == v % 10);
        assert(dec_chars(v).drop_last() =~= dec_chars(v / 10));
        assert(digits_val(dec_chars(v)) == (v / 10) * 10 + (v % 10));
        assert((v / 10) * 10 + (v % 10) == v) by {
            vstd::arithmetic::div_mod::lemma_fundamental_div_mod(v as int, 10);
        }
    }
}

/// Every prefix of a numeral reads to at most the value.
pub proof fn lemma_dec_prefix_le(v: nat, k: int)
    requires
        0 <= k <= dec_chars(v).len(),
    ensures
        0 <= digits_val(dec_chars(v).take(k)) <= v,
    decreases v,
{
    if k == dec_chars(v).len() {
        assert(dec_chars(v).take(k) =~= dec_chars(v));
        lemma_dec_val(v);
    } else if v < 10 {
        assert(k == 0);
        assert(dec_chars(v).take(0) =~= Seq::<char>::empty());
    } else {
        assert(dec_chars(v).take(k) =~= dec_chars(v / 10).take(k));
        lemma_dec_prefix_le(v / 10, k);
        assert(v / 10 <= v) by {
            vstd::arithmetic::div_mod::lemma_fundamental_div_mod(v as int, 10);
        }
    }
}

/// Append a string slice's characters to a list.
pub fn push_str_chars(s: &str, out: &mut Vec<char>)
    ensures
        final(out)@ == old(out)@ + s@,
{
    let n = s.unicode_len();
    for i in 0..n
        invariant
            n == s@.len(),
            out@ == old(out)@ + s@.take(i as int),
    {
        out.push(s.get_char(i));
        proof {
            assert(out@ =~= old(out)@ + s@.take(i + 1));
        }
    }
    proof {
        assert(s@.take(n as int) =~= s@);
    }
}

} // verus!
