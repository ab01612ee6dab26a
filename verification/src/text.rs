//! Decimal numbers, and facts about them and about UTF-8.

use vstd::prelude::*;
use vstd::utf8::{
    char_is_scalar, encode_scalar, encode_utf8, encode_utf8_decode_utf8, is_ascii_chars, is_ascii_chars_encode_utf8,
};

verus! {

/// The decimal digit that stands for `d`.
pub open spec fn digit(d: nat) -> char {
    (0x30 + d) as char
}

/// `n` in decimal, without leading zeros.
pub open spec fn decimal(n: nat) -> Seq<char>
    decreases n,
{
    if n < 10 {
        seq![digit(n)]
    } else {
        decimal(n / 10).push(digit(n % 10))
    }
}

/// The digit that stands for `d`, as a text.
fn digit_text(d: u128) -> (text: &'static str)
    requires
        d < 10,
    ensures
        text@ == seq![digit(d as nat)],
{
    proof {
        reveal_strlit("0");
        reveal_strlit("1");
        reveal_strlit("2");
        reveal_strlit("3");
        reveal_strlit("4");
        reveal_strlit("5");
        reveal_strlit("6");
        reveal_strlit("7");
        reveal_strlit("8");
        reveal_strlit("9");
    }
    match d {
        0 => "0",
        1 => "1",
        2 => "2",
        3 => "3",
        4 => "4",
        5 => "5",
        6 => "6",
        7 => "7",
        8 => "8",
        _ => "9",
    }
}

/// Writes `n` in decimal.
pub fn to_decimal(n: u128) -> (text: String)
    ensures
        text@ == decimal(n as nat),
    decreases n,
{
    if n < 10 {
        digit_text(n).to_owned()
    } else {
        let mut text = to_decimal(n / 10);
        text.append(digit_text(n % 10));
        assert(text@ =~= decimal(n as nat));
        text
    }
}

/// The UTF-8 bytes of two texts in a row are those of the one and of the other.
pub proof fn lemma_encode_concat(a: Seq<char>, b: Seq<char>)
    ensures
        encode_utf8(a + b) == encode_utf8(a) + encode_utf8(b),
    decreases a.len(),
{
    if a.len() == 0 {
        assert(a + b =~= b);
        assert(encode_utf8(a) + encode_utf8(b) =~= encode_utf8(b));
    } else {
        lemma_encode_concat(a.drop_first(), b);
        assert((a + b).drop_first() =~= a.drop_first() + b);
        assert((a + b)[0] == a[0]);
        assert(encode_utf8(a + b) =~= encode_utf8(a) + encode_utf8(b));
    }
}

/// The bytes of one character: the character itself where it is ASCII, else
/// bytes that are not ASCII.
proof fn lemma_encode_scalar(v: u32)
    requires
        vstd::utf8::is_scalar(v),
    ensures
        v < 0x80 ==> encode_scalar(v) == seq![v as u8],
        v >= 0x80 ==> forall|i: int|
            0 <= i < encode_scalar(v).len() ==> #[trigger] encode_scalar(v)[i] >= 0x80,
{
    if v < 0x80 {
        assert((v & 0x7F) as u8 == v as u8) by (bit_vector)
            requires
                v < 0x80,
        ;
    } else {
        assert(forall|b: u8| #[trigger] (0xC0u8 | b) >= 0x80) by (bit_vector);
        assert(forall|b: u8| #[trigger] (0xE0u8 | b) >= 0x80) by (bit_vector);
        assert(forall|b: u8| #[trigger] (0xF0u8 | b) >= 0x80) by (bit_vector);
        assert(forall|b: u8| #[trigger] (0x80u8 | b) >= 0x80) by (bit_vector);
    }
}

/// An ASCII character is not among the bytes of another character.
proof fn lemma_encode_other(other: char, c: char)
    requires
        c <= '\u{7f}',
        other != c,
    ensures
        forall|i: int|
            0 <= i < encode_scalar(other as u32).len() ==> #[trigger] encode_scalar(
                other as u32,
            )[i] != c as u8,
{
    char_is_scalar(other);
    lemma_encode_scalar(other as u32);
}

/// An ASCII character that a text does not hold is not among its bytes.
pub proof fn lemma_encode_absent(s: Seq<char>, c: char)
    requires
        c <= '\u{7f}',
        forall|i: int| 0 <= i < s.len() ==> #[trigger] s[i] != c,
    ensures
        forall|i: int| 0 <= i < encode_utf8(s).len() ==> #[trigger] encode_utf8(s)[i] != c as u8,
    decreases s.len(),
{
    if s.len() > 0 {
        let first = encode_scalar(s[0] as u32);
        let rest = encode_utf8(s.drop_first());
        lemma_encode_absent(s.drop_first(), c);
        lemma_encode_other(s[0], c);
        assert forall|i: int| 0 <= i < encode_utf8(s).len() implies #[trigger] encode_utf8(s)[i]
            != c as u8 by {
            if i < first.len() {
                assert(encode_utf8(s)[i] == first[i]);
            } else {
                assert(encode_utf8(s)[i] == rest[i - first.len()]);
            }
        }
    }
}

/// Texts with the same UTF-8 bytes are the same.
pub proof fn lemma_encode_injective(a: Seq<char>, b: Seq<char>)
    requires
        encode_utf8(a) == encode_utf8(b),
    ensures
        a == b,
{
    encode_utf8_decode_utf8(a);
    encode_utf8_decode_utf8(b);
}

/// The byte is an ASCII digit.
pub open spec fn is_digit_byte(b: u8) -> bool {
    0x30 <= b <= 0x39
}

/// A decimal number has at least one character, all of them are digits, and
/// each takes one byte.
pub proof fn lemma_decimal_digits(n: nat)
    ensures
        decimal(n).len() > 0,
        n >= 10 ==> decimal(n).len() > 1,
        forall|i: int| 0 <= i < decimal(n).len() ==> '0' <= #[trigger] decimal(n)[i] <= '9',
        is_ascii_chars(decimal(n)),
        encode_utf8(decimal(n)).len() == decimal(n).len(),
        forall|i: int|
            0 <= i < encode_utf8(decimal(n)).len() ==> is_digit_byte(
                #[trigger] encode_utf8(decimal(n))[i],
            ),
    decreases n,
{
    if n >= 10 {
        lemma_decimal_digits(n / 10);
    }
    let s = decimal(n);
    assert forall|i: int| 0 <= i < s.len() implies '0' <= #[trigger] s[i] <= '9' by {
        if n >= 10 && i < s.len() - 1 {
            assert(s[i] == decimal(n / 10)[i]);
        }
    }
    is_ascii_chars_encode_utf8(s);
    assert forall|i: int| 0 <= i < encode_utf8(s).len() implies is_digit_byte(
        #[trigger] encode_utf8(s)[i],
    ) by {
        assert(s[i] as u8 == encode_utf8(s)[i]);
    }
}

/// Different numbers look different.
pub proof fn lemma_decimal_injective(a: nat, b: nat)
    requires
        decimal(a) == decimal(b),
    ensures
        a == b,
    decreases a,
{
    lemma_decimal_digits(a);
    lemma_decimal_digits(b);
    let s = decimal(a);
    if a < 10 && b < 10 {
        assert(s[0] == decimal(b)[0]);
    } else if a >= 10 && b >= 10 {
        assert(s.last() == decimal(b).last());
        assert(s.drop_last() =~= decimal(a / 10));
        assert(decimal(b).drop_last() =~= decimal(b / 10));
        lemma_decimal_injective(a / 10, b / 10);
    }
}

} // verus!
