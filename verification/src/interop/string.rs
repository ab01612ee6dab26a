//! String functions of `std`.

use vstd::prelude::*;

verus! {

/// The Unicode property `White_Space`.
pub open spec fn is_white_space(c: char) -> bool {
    ||| '\u{9}' <= c <= '\u{d}'
    ||| c == '\u{20}'
    ||| c == '\u{85}'
    ||| c == '\u{a0}'
    ||| c == '\u{1680}'
    ||| '\u{2000}' <= c <= '\u{200a}'
    ||| c == '\u{2028}'
    ||| c == '\u{2029}'
    ||| c == '\u{202f}'
    ||| c == '\u{205f}'
    ||| c == '\u{3000}'
}

/// `trimmed` is `text` without the white space at its two ends.
pub open spec fn trims_to(text: Seq<char>, trimmed: Seq<char>) -> bool {
    exists|i: int, j: int|
        {
            &&& 0 <= i <= j <= text.len()
            &&& trimmed == #[trigger] text.subrange(i, j)
            &&& forall|k: int|
                0 <= k < i || j <= k < text.len() ==> is_white_space(#[trigger] text[k])
            &&& i < j ==> !is_white_space(text[i]) && !is_white_space(text[j - 1])
        }
}

/// `str::trim` removes leading and trailing white space.
pub assume_specification[ str::trim ](s: &str) -> (trimmed: &str)
    ensures
        trims_to(s@, trimmed@),
;

/// `String::from` copies a string slice.
pub assume_specification<'a, 'b>[ <String as From<&'a str>>::from ](s: &'b str) -> (owned: String)
    ensures
        owned@ == s@,
;

/// What the `Debug` format of `std` makes of a string: the text in double
/// quotes, with the characters escaped that `std` escapes.
pub uninterp spec fn quoted(text: Seq<char>) -> Seq<char>;

/// `format!` with `{:?}` writes a string slice in its `Debug` form.
#[verifier::external_body]
pub(crate) fn quote(text: &str) -> (q: String)
    ensures
        q@ == quoted(text@),
{
    format!("{text:?}")
}

} // verus!
