//! The key index scheme: a point in time becomes a key such that later
//! instants come first in the order of keys.
//!
//! The key starts with `MAX_TIMESTAMP` minus the instant, written with twenty
//! decimal digits. All such numbers have the same count of digits, so the
//! order of the keys is the order of the numbers, reversed in time.

use vstd::prelude::*;
use vstd::string::StringExecFns;
use vstd::utf8::{encode_utf8, is_ascii_chars, is_ascii_chars_encode_utf8};
use crate::lex::{lex_le, lex_lt, lemma_lex_concat, lemma_lex_reflexive};

verus! {

/// The instant, in seconds since the epoch, from which the others are counted
/// back.
pub const MAX_TIMESTAMP: i64 = 0x7fff_ffff_ffff_ffff;

/// The count of digits at the start of a key.
pub const INDEX_WIDTH: usize = 20;

/// The byte that is written for the digit `d`.
pub open spec fn digit_byte(d: nat) -> u8 {
    (48 + d) as u8
}

/// The last `width` decimal digits of `n`, the most significant first.
pub open spec fn decimal(n: nat, width: nat) -> Seq<u8>
    decreases width,
{
    if width == 0 {
        Seq::empty()
    } else {
        decimal(n / 10, (width - 1) as nat).push(digit_byte(n % 10))
    }
}

/// Ten to the power of `width`.
pub open spec fn pow10(width: nat) -> nat
    decreases width,
{
    if width == 0 {
        1
    } else {
        10 * pow10((width - 1) as nat)
    }
}

/// The number that the key of an instant starts with.
pub open spec fn inverted(seconds: int) -> nat {
    (MAX_TIMESTAMP - seconds) as nat
}

/// The key of an instant without a discriminator, as bytes.
pub open spec fn index_bytes(seconds: int) -> Seq<u8> {
    decimal(inverted(seconds), INDEX_WIDTH as nat)
}

/// The key of an instant without a discriminator, as characters.
pub open spec fn index_chars(seconds: int) -> Seq<char> {
    index_bytes(seconds).map_values(|b: u8| b as char)
}

/// The key of an instant with a discriminator: the digits, an underscore,
/// and the discriminator.
pub open spec fn timestamp_index(config_id: Seq<char>, seconds: int) -> Seq<char> {
    index_chars(seconds) + seq!['_'] + config_id
}

/// `decimal` gives as many digits as it is asked for.
pub proof fn lemma_decimal_len(n: nat, width: nat)
    ensures
        decimal(n, width).len() == width,
    decreases width,
{
    if width > 0 {
        lemma_decimal_len(n / 10, (width - 1) as nat);
    }
}

/// Every byte that `decimal` gives is a digit.
pub proof fn lemma_decimal_digits(n: nat, width: nat)
    ensures
        forall|i: int| 0 <= i < decimal(n, width).len() ==> 48 <= #[trigger] decimal(n, width)[i] <= 57,
    decreases width,
{
    if width > 0 {
        lemma_decimal_digits(n / 10, (width - 1) as nat);
        lemma_decimal_len(n / 10, (width - 1) as nat);
        assert forall|i: int| 0 <= i < decimal(n, width).len() implies 48 <= #[trigger] decimal(
            n,
            width,
        )[i] <= 57 by {
            if i < width - 1 {
                assert(decimal(n, width)[i] == decimal(n / 10, (width - 1) as nat)[i]);
            }
        }
    }
}

/// The string that holds the one digit `d`.
fn digit_str(d: u8) -> (s: &'static str)
    requires
        d < 10,
    ensures
        s@ == seq![digit_byte(d as nat) as char],
{
    proof {
        reveal_strlit("0");
        reveal_strlit("1");
        reveal_strlit("2");
        reveal_strlit("3");
        reveal_strlit("4");
        reveal_strlit("5");
        reveal_strlit("6");
        reveal_strlit("7");
        reveal_strlit("8");
        reveal_strlit("9");
    }
    let s = match d {
        0 => "0",
        1 => "1",
        2 => "2",
        3 => "3",
        4 => "4",
        5 => "5",
        6 => "6",
        7 => "7",
        8 => "8",
        _ => "9",
    };
    assert(s@ =~= seq![digit_byte(d as nat) as char]);
    s
}

/// The key of the instant `seconds` without a discriminator, as the bytes
/// that the store orders it by.
pub fn encode_index_bytes(seconds: i64) -> (key: Vec<u8>)
    requires
        0 <= seconds,
    ensures
        key@ == index_bytes(seconds as int),
{
    let mut key: Vec<u8> = Vec::new();
    let mut filled: usize = 0;
    while filled < INDEX_WIDTH
        invariant
            filled <= INDEX_WIDTH,
            key@.len() == filled,
        decreases INDEX_WIDTH - filled,
    {
        key.push(48u8);
        filled += 1;
    }
    let mut rest: u64 = (MAX_TIMESTAMP - seconds) as u64;
    let mut at: usize = INDEX_WIDTH;
    while at > 0
        invariant
            at <= INDEX_WIDTH,
            key@.len() == INDEX_WIDTH,
            index_bytes(seconds as int) == decimal(rest as nat, at as nat) + key@.subrange(
                at as int,
                INDEX_WIDTH as int,
            ),
        decreases at,
    {
        let digit: u8 = (rest % 10) as u8;
        let ghost written = key@;
        at -= 1;
        key.set(at, 48u8 + digit);
        proof {
            let before = decimal(rest as nat, (at + 1) as nat);
            assert(before == decimal((rest / 10) as nat, at as nat).push(digit_byte((rest % 10) as nat)));
            assert(decimal((rest / 10) as nat, at as nat) + key@.subrange(at as int, INDEX_WIDTH as int)
                =~= before + written.subrange(at + 1, INDEX_WIDTH as int)) by {
                lemma_decimal_len((rest / 10) as nat, at as nat);
            }
        }
        rest = rest / 10;
    }
    assert(key@ =~= decimal(rest as nat, 0) + key@.subrange(0, INDEX_WIDTH as int));
    key
}

/// The key of the instant `seconds` without a discriminator.
pub fn encode_index(seconds: i64) -> (key: String)
    requires
        0 <= seconds,
    ensures
        key@ == index_chars(seconds as int),
        encode_utf8(key@) == index_bytes(seconds as int),
{
    let digits = encode_index_bytes(seconds);
    let mut key = String::new();
    let mut at: usize = 0;
    proof {
        lemma_decimal_len(inverted(seconds as int), INDEX_WIDTH as nat);
        lemma_decimal_digits(inverted(seconds as int), INDEX_WIDTH as nat);
    }
    while at < INDEX_WIDTH
        invariant
            at <= INDEX_WIDTH,
            digits@ == index_bytes(seconds as int),
            digits@.len() == INDEX_WIDTH,
            forall|i: int| 0 <= i < digits@.len() ==> 48 <= #[trigger] digits@[i] <= 57,
            key@ == digits@.take(at as int).map_values(|b: u8| b as char),
        decreases INDEX_WIDTH - at,
    {
        let digit: u8 = digits[at] - 48u8;
        key.append(digit_str(digit));
        assert(digits@.take(at + 1).map_values(|b: u8| b as char) =~= digits@.take(at as int).map_values(
            |b: u8| b as char,
        ) + seq![digit_byte(digit as nat) as char]);
        at += 1;
    }
    proof {
        assert(digits@.take(INDEX_WIDTH as int) =~= digits@);
        lemma_index_chars_bytes(seconds as int);
    }
    key
}

/// The key of the instant `seconds` for the record that `config_id` tells
/// from the others of that instant: twenty digits, an underscore, and
/// `config_id`.
pub fn generate_timestamp_index(config_id: &str, seconds: i64) -> (key: String)
    requires
        0 <= seconds,
    ensures
        key@ == timestamp_index(config_id@, seconds as int),
{
    let mut key = encode_index(seconds);
    proof {
        reveal_strlit("_");
    }
    key.append("_");
    key.append(config_id);
    assert(key@ =~= index_chars(seconds as int) + seq!['_'] + config_id@) by {
        assert("_"@ =~= seq!['_']);
    }
    key
}

/// The digits of a key are plain characters, each one byte of the key as the
/// store holds it.
pub proof fn lemma_index_chars_bytes(seconds: int)
    ensures
        is_ascii_chars(index_chars(seconds)),
        encode_utf8(index_chars(seconds)) == index_bytes(seconds),
{
    let bytes = index_bytes(seconds);
    let chars = index_chars(seconds);
    lemma_decimal_digits(inverted(seconds), INDEX_WIDTH as nat);
    assert forall|i: int| 0 <= i < chars.len() implies 0 <= (#[trigger] chars[i]) as nat <= 127 by {
        assert(chars[i] == bytes[i] as char);
        assert(48 <= bytes[i] <= 57);
    }
    is_ascii_chars_encode_utf8(chars);
    assert forall|i: int| 0 <= i < chars.len() implies (#[trigger] chars[i]) as u8 == bytes[i] by {
        assert(chars[i] == bytes[i] as char);
        assert(48 <= bytes[i] <= 57);
    }
    assert(encode_utf8(chars) =~= bytes);
}

/// Numbers written with one count of digits are ordered as their digits are.
pub proof fn lemma_decimal_order(n: nat, m: nat, width: nat)
    requires
        n < pow10(width),
        m < pow10(width),
    ensures
        lex_le(decimal(n, width), decimal(m, width)) <==> n <= m,
        decimal(n, width) == decimal(m, width) <==> n == m,
    decreases width,
{
    if width > 0 {
        let rest = (width - 1) as nat;
        let a = decimal(n / 10, rest);
        let b = decimal(m / 10, rest);
        let x = digit_byte(n % 10);
        let y = digit_byte(m % 10);
        lemma_decimal_order(n / 10, m / 10, rest);
        lemma_decimal_len(n / 10, rest);
        lemma_decimal_len(m / 10, rest);
        lemma_lex_concat(a, seq![x], b, seq![y]);
        assert(a.push(x) =~= a + seq![x]);
        assert(b.push(y) =~= b + seq![y]);
        assert(lex_le(seq![x], seq![y]) <==> x <= y) by {
            lemma_lex_reflexive(seq![x].drop_first());
        }
        assert(a.push(x).drop_last() =~= a);
        assert(b.push(y).drop_last() =~= b);
        assert(a.push(x).last() == x);
        assert(b.push(y).last() == y);
    }
}

/// Every number that a key starts with has at most twenty digits.
pub proof fn lemma_inverted_fits(seconds: int)
    requires
        0 <= seconds <= MAX_TIMESTAMP,
    ensures
        inverted(seconds) < pow10(INDEX_WIDTH as nat),
{
    reveal_with_fuel(pow10, 21);
}

/// The inversion: a later instant has the earlier key, and two instants have
/// one key only where they are one instant.
pub proof fn lemma_index_reverses_time(earlier: int, later: int)
    requires
        0 <= earlier <= MAX_TIMESTAMP,
        0 <= later <= MAX_TIMESTAMP,
    ensures
        lex_le(index_bytes(later), index_bytes(earlier)) <==> earlier <= later,
        index_bytes(later) == index_bytes(earlier) <==> earlier == later,
        earlier < later ==> lex_lt(index_bytes(later), index_bytes(earlier)),
        earlier < later ==> lex_lt(
            encode_utf8(index_chars(later)),
            encode_utf8(index_chars(earlier)),
        ),
{
    lemma_inverted_fits(earlier);
    lemma_inverted_fits(later);
    lemma_decimal_order(inverted(later), inverted(earlier), INDEX_WIDTH as nat);
    lemma_index_chars_bytes(earlier);
    lemma_index_chars_bytes(later);
}

/// The bytes of a string made of two parts are the bytes of the first part
/// and then those of the second.
pub proof fn lemma_encode_utf8_concat(a: Seq<char>, b: Seq<char>)
    ensures
        encode_utf8(a + b) == encode_utf8(a) + encode_utf8(b),
    decreases a.len(),
{
    if a.len() == 0 {
        assert(a + b =~= b);
        assert(encode_utf8(a) + encode_utf8(b) =~= encode_utf8(b));
    } else {
        assert((a + b).drop_first() =~= a.drop_first() + b);
        lemma_encode_utf8_concat(a.drop_first(), b);
        assert(encode_utf8(a + b) =~= encode_utf8(a) + encode_utf8(b));
    }
}

/// The bytes of a key with a discriminator: those of the key without one,
/// and then those of the underscore and the discriminator.
pub proof fn lemma_timestamp_index_bytes(config_id: Seq<char>, seconds: int)
    ensures
        encode_utf8(timestamp_index(config_id, seconds)) == index_bytes(seconds) + encode_utf8(
            seq!['_'] + config_id,
        ),
        encode_utf8(seq!['_'] + config_id).len() > 0,
{
    let tail = seq!['_'] + config_id;
    assert(timestamp_index(config_id, seconds) =~= index_chars(seconds) + tail);
    lemma_encode_utf8_concat(index_chars(seconds), tail);
    lemma_index_chars_bytes(seconds);
    lemma_encode_utf8_concat(seq!['_'], config_id);
    assert(is_ascii_chars(seq!['_']));
    is_ascii_chars_encode_utf8(seq!['_']);
}

/// The inversion holds of keys with discriminators too: of two records the
/// one of the later instant has the earlier key, whatever tells them apart.
pub proof fn lemma_timestamp_index_reverses_time(
    earlier_id: Seq<char>,
    earlier: int,
    later_id: Seq<char>,
    later: int,
)
    requires
        0 <= earlier < later <= MAX_TIMESTAMP,
    ensures
        lex_lt(
            encode_utf8(timestamp_index(later_id, later)),
            encode_utf8(timestamp_index(earlier_id, earlier)),
        ),
{
    lemma_index_reverses_time(earlier, later);
    lemma_timestamp_index_bytes(earlier_id, earlier);
    lemma_timestamp_index_bytes(later_id, later);
    lemma_decimal_len(inverted(earlier), INDEX_WIDTH as nat);
    lemma_decimal_len(inverted(later), INDEX_WIDTH as nat);
    let a = index_bytes(later);
    let b = index_bytes(earlier);
    let s = encode_utf8(seq!['_'] + later_id);
    let t = encode_utf8(seq!['_'] + earlier_id);
    lemma_lex_concat(a, s, b, t);
    if a + s == b + t {
        assert((a + s).take(INDEX_WIDTH as int) =~= a);
        assert((b + t).take(INDEX_WIDTH as int) =~= b);
    }
}

} // verus!
