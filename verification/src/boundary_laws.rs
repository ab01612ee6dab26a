//! What holds of the choice of a boundary.

use vstd::prelude::*;
use vstd::relations::injective_on;
use vstd::set_lib::{lemma_int_range, lemma_len_subset, lemma_map_size, set_int_range};
use vstd::utf8::{encode_utf8, is_ascii_chars, is_ascii_chars_encode_utf8};

use crate::interop::search::{occurs, occurs_at};
use crate::layout::{boundary_text, delimiter, is_boundary_for, is_first_free, is_free};
use crate::text::{
    decimal, is_digit_byte, lemma_decimal_digits, lemma_decimal_injective, lemma_encode_concat,
    lemma_encode_injective,
};

verus! {

/// What all delimiters begin with.
pub open spec fn prefix() -> Seq<u8> {
    encode_utf8("--clickhouse-rs-boundary-"@)
}

/// A delimiter is the common beginning, which ends in a dash, and the digits of
/// its number.
pub proof fn lemma_delimiter(n: nat)
    ensures
        delimiter(boundary_text(n)) == prefix() + encode_utf8(decimal(n)),
        prefix().len() == 25,
        prefix().last() == 0x2d,
        encode_utf8(decimal(n)).len() > 0,
        forall|i: int|
            0 <= i < encode_utf8(decimal(n)).len() ==> is_digit_byte(
                #[trigger] encode_utf8(decimal(n))[i],
            ),
{
    reveal_strlit("--");
    reveal_strlit("clickhouse-rs-boundary-");
    reveal_strlit("--clickhouse-rs-boundary-");
    let p = "--clickhouse-rs-boundary-"@;
    assert("--"@ + "clickhouse-rs-boundary-"@ =~= p);
    assert("--"@ + boundary_text(n) =~= p + decimal(n));
    lemma_encode_concat(p, decimal(n));
    assert(is_ascii_chars(p));
    is_ascii_chars_encode_utf8(p);
    assert(p[24] as u8 == prefix()[24]);
    lemma_decimal_digits(n);
}

/// Where a delimiter ends, its number can be read off: it is the longest run of
/// digits that ends there.
proof fn lemma_end_determines_number(text: Seq<u8>, m: nat, n: nat, end: int)
    requires
        occurs_at(text, delimiter(boundary_text(m)), end - delimiter(boundary_text(m)).len()),
        occurs_at(text, delimiter(boundary_text(n)), end - delimiter(boundary_text(n)).len()),
    ensures
        m == n,
{
    lemma_delimiter(m);
    lemma_delimiter(n);
    let dm = encode_utf8(decimal(m));
    let dn = encode_utf8(decimal(n));
    lemma_digits_before(text, m, end);
    lemma_digits_before(text, n, end);
    if dm.len() < dn.len() {
        assert(is_digit_byte(text[end - dm.len() - 1]));
    } else if dn.len() < dm.len() {
        assert(is_digit_byte(text[end - dn.len() - 1]));
    } else {
        assert(dm =~= dn) by {
            assert forall|i: int| 0 <= i < dm.len() implies dm[i] == dn[i] by {
                assert(text[end - dm.len() + i] == dm[i]);
                assert(text[end - dn.len() + i] == dn[i]);
            }
        }
        lemma_encode_injective(decimal(m), decimal(n));
        lemma_decimal_injective(m, n);
    }
}

/// In front of the end of a delimiter stand its digits, and in front of them a
/// dash.
proof fn lemma_digits_before(text: Seq<u8>, n: nat, end: int)
    requires
        occurs_at(text, delimiter(boundary_text(n)), end - delimiter(boundary_text(n)).len()),
    ensures
        ({
            let digits = encode_utf8(decimal(n));
            &&& digits.len() + 25 <= end <= text.len()
            &&& text[end - digits.len() - 1] == 0x2d
            &&& forall|i: int|
                0 <= i < digits.len() ==> #[trigger] text[end - digits.len() + i] == digits[i]
            &&& forall|k: int|
                end - digits.len() <= k < end ==> is_digit_byte(#[trigger] text[k])
        }),
{
    lemma_delimiter(n);
    let d = delimiter(boundary_text(n));
    let digits = encode_utf8(decimal(n));
    let start = end - d.len();
    let found = text.subrange(start, start + d.len());
    assert forall|i: int| 0 <= i < d.len() implies text[start + i] == d[i] by {
        assert(found[i] == d[i]);
    }
    assert(text[start + 24] == d[24]);
    assert forall|i: int| 0 <= i < digits.len() implies #[trigger] text[end - digits.len() + i]
        == digits[i] by {
        assert(text[start + (25 + i)] == d[25 + i]);
    }
    assert forall|k: int| end - digits.len() <= k < end implies is_digit_byte(
        #[trigger] text[k],
    ) by {
        let i = k - (end - digits.len());
        assert(text[end - digits.len() + i] == digits[i]);
    }
}

/// What stands in one of some texts stands in all of them in a row.
proof fn lemma_occurs_in_flatten(texts: Seq<Seq<u8>>, j: int, needle: Seq<u8>)
    requires
        0 <= j < texts.len(),
        occurs(texts[j], needle),
    ensures
        occurs(texts.flatten(), needle),
    decreases texts.len(),
{
    let all = texts.flatten();
    let rest = texts.drop_first();
    if j == 0 {
        let i = choose|i: int| occurs_at(texts[0], needle, i);
        assert(all.subrange(i, i + needle.len()) =~= texts[0].subrange(i, i + needle.len()));
        assert(occurs_at(all, needle, i));
    } else {
        assert(rest[j - 1] == texts[j]);
        lemma_occurs_in_flatten(rest, j - 1, needle);
        let i = choose|i: int| occurs_at(rest.flatten(), needle, i);
        let at = texts[0].len() + i;
        assert(all.subrange(at, at + needle.len()) =~= rest.flatten().subrange(
            i,
            i + needle.len(),
        ));
        assert(occurs_at(all, needle, at));
    }
}

/// The delimiter of `n` ends in `text` just behind position `at`.
spec fn ends_behind(text: Seq<u8>, n: int, at: int) -> bool {
    let d = delimiter(boundary_text(n as nat));
    occurs_at(text, d, at + 1 - d.len())
}

/// The counter guarantees termination: one of the boundaries up to the number
/// of bytes in the texts can be used, because no text holds more delimiters
/// than it has bytes.
pub proof fn law_some_boundary_is_free(texts: Seq<Seq<u8>>)
    ensures
        exists|n: nat| n <= texts.flatten().len() && #[trigger] is_free(n, texts),
{
    let text = texts.flatten();
    let total = text.len() as int;
    if !(exists|n: nat| n <= total && #[trigger] is_free(n, texts)) {
        let last = |n: int| choose|at: int| ends_behind(text, n, at);
        let numbers = set_int_range(0, total + 1);
        assert forall|n: int| 0 <= n <= total implies #[trigger] ends_behind(text, n, last(n)) by {
            let d = delimiter(boundary_text(n as nat));
            assert(!is_free(n as nat, texts));
            let j = choose|j: int| 0 <= j < texts.len() && occurs(#[trigger] texts[j], d);
            lemma_occurs_in_flatten(texts, j, d);
            let i = choose|i: int| occurs_at(text, d, i);
            assert(ends_behind(text, n, i + d.len() - 1));
        }
        assert(injective_on(last, numbers)) by {
            assert forall|m: int, n: int|
                numbers.contains(m) && numbers.contains(n) && #[trigger] last(m)
                    == #[trigger] last(n) implies m == n by {
                assert(ends_behind(text, m, last(m)));
                assert(ends_behind(text, n, last(n)));
                lemma_end_determines_number(text, m as nat, n as nat, last(m) + 1);
            }
        }
        lemma_int_range(0, total + 1);
        lemma_int_range(0, total);
        lemma_map_size(numbers, numbers.map(last), last);
        assert(numbers.map(last).subset_of(set_int_range(0, total))) by {
            assert forall|at: int| numbers.map(last).contains(at) implies set_int_range(
                0,
                total,
            ).contains(at) by {
                let n = choose|n: int| numbers.contains(n) && last(n) == at;
                assert(ends_behind(text, n, last(n)));
                lemma_digits_before(text, n as nat, at + 1);
            }
        }
        lemma_len_subset(numbers.map(last), set_int_range(0, total));
    }
}

/// The number of the chosen boundary is no larger than the number of bytes in
/// the texts.
pub proof fn law_boundary_number_is_bounded(n: nat, texts: Seq<Seq<u8>>)
    requires
        is_first_free(n, texts),
    ensures
        n <= texts.flatten().len(),
{
    law_some_boundary_is_free(texts);
}

/// The texts alone determine the boundary.
pub proof fn law_boundary_is_determined(a: Seq<char>, b: Seq<char>, texts: Seq<Seq<u8>>)
    requires
        is_boundary_for(a, texts),
        is_boundary_for(b, texts),
    ensures
        a == b,
{
    let m = choose|n: nat| #[trigger] is_first_free(n, texts) && a == boundary_text(n);
    let n = choose|n: nat| #[trigger] is_first_free(n, texts) && b == boundary_text(n);
    if m < n {
        assert(!is_free(m, texts));
    } else if n < m {
        assert(!is_free(n, texts));
    }
}

/// No text holds the delimiter of the chosen boundary.
pub proof fn law_boundary_in_no_text(boundary: Seq<char>, texts: Seq<Seq<u8>>, j: int)
    requires
        is_boundary_for(boundary, texts),
        0 <= j < texts.len(),
    ensures
        !occurs(texts[j], delimiter(boundary)),
{
    let n = choose|n: nat| #[trigger] is_first_free(n, texts) && boundary == boundary_text(n);
    assert(is_free(n, texts));
}

/// A boundary whose delimiter stands in a text is passed over.
pub proof fn law_colliding_boundary_is_skipped(
    boundary: Seq<char>,
    texts: Seq<Seq<u8>>,
    j: int,
    k: nat,
)
    requires
        is_boundary_for(boundary, texts),
        0 <= j < texts.len(),
        occurs(texts[j], delimiter(boundary_text(k))),
    ensures
        boundary != boundary_text(k),
{
    law_boundary_in_no_text(boundary, texts, j);
}

/// Where no text holds its delimiter, the first candidate is chosen.
pub proof fn law_first_candidate_without_collision(boundary: Seq<char>, texts: Seq<Seq<u8>>)
    requires
        is_boundary_for(boundary, texts),
        is_free(0, texts),
    ensures
        boundary == boundary_text(0),
{
    let n = choose|n: nat| #[trigger] is_first_free(n, texts) && boundary == boundary_text(n);
    if 0 < n {
        assert(!is_free(0, texts));
    }
}

} // verus!
