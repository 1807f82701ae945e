//! Character classes, scanning over character sequences, and the reading of
//! decimal integers.

use vstd::prelude::*;
use vstd::string::StringSliceAdditionalSpecFns;
use vstd::string::StrSliceExecFns;
use vstd::utf8::encode_utf8_decode_utf8;

verus! {

/// Whether `c` is alphabetic or numeric by the Unicode character database.
/// The tables behind this take pages; they are named here, not written out.
pub uninterp spec fn unicode_alphanumeric(c: char) -> bool;

/// Trusted: `char::is_alphanumeric` decides whether its argument is alphabetic
/// or numeric by the Unicode tables. Nothing is claimed of which characters are.
pub assume_specification[ char::is_alphanumeric ](c: char) -> (b: bool)
    ensures
        b == unicode_alphanumeric(c),
;

/// Whether `c` is one of the 128 ASCII characters.
pub open spec fn in_ascii(c: char) -> bool {
    c <= '\u{7f}'
}

/// Whitespace: the characters that Unicode gives the property `White_Space`.
/// They are the tab, the line feed, the vertical tab, the form feed, the
/// carriage return and the space; the next-line control and the no-break
/// space; the Ogham space mark; the spaces from the en quad to the hair
/// space; the line and the paragraph separator; the narrow no-break space,
/// the medium mathematical space and the ideographic space.
pub open spec fn is_blank(c: char) -> bool {
    ||| '\t' <= c <= '\r'
    ||| c == ' '
    ||| c == '\u{85}'
    ||| c == '\u{a0}'
    ||| c == '\u{1680}'
    ||| '\u{2000}' <= c <= '\u{200a}'
    ||| c == '\u{2028}'
    ||| c == '\u{2029}'
    ||| c == '\u{202f}'
    ||| c == '\u{205f}'
    ||| c == '\u{3000}'
}

/// Whether two string slices hold the same characters in the same order.
/// They do exactly when their bytes are the same, since the characters can
/// be read back from the bytes.
pub fn str_equal(a: &str, b: &str) -> (equal: bool)
    ensures
        equal == (a@ == b@),
{
    let left = a.as_bytes();
    let right = b.as_bytes();
    if left.len() != right.len() {
        return false;
    }
    let mut index: usize = 0;
    while index < left.len()
        invariant
            left@ == a.spec_bytes(),
            right@ == b.spec_bytes(),
            left@.len() == right@.len(),
            index <= left@.len(),
            forall|i: int| 0 <= i < index ==> left@[i] == right@[i],
        decreases left@.len() - index,
    {
        if left[index] != right[index] {
            return false;
        }
        index += 1;
    }
    proof {
        assert(left@ =~= right@);
        encode_utf8_decode_utf8(a@);
        encode_utf8_decode_utf8(b@);
    }
    true
}

/// One of the ten ASCII digits.
pub open spec fn is_ascii_digit(c: char) -> bool {
    '0' <= c <= '9'
}

/// One of the 52 ASCII letters.
pub open spec fn is_ascii_letter(c: char) -> bool {
    'a' <= c <= 'z' || 'A' <= c <= 'Z'
}

/// A word begins with an ASCII letter or an underscore.
pub open spec fn starts_word(c: char) -> bool {
    is_ascii_letter(c) || c == '_'
}

/// A word goes on over underscores and alphanumeric characters. Within ASCII
/// these are the letters, the digits and the underscore; beyond ASCII they
/// are what the Unicode tables call alphabetic or numeric. The tables are
/// asked about no ASCII character, so that what holds of plain text does not
/// rest on them.
pub open spec fn continues_word(c: char) -> bool {
    if in_ascii(c) {
        starts_word(c) || is_ascii_digit(c)
    } else {
        unicode_alphanumeric(c)
    }
}

/// Whether `c` is whitespace.
pub fn char_is_blank(c: char) -> (b: bool)
    ensures
        b == is_blank(c),
{
    ('\t' <= c && c <= '\r') || c == ' ' || c == '\u{85}' || c == '\u{a0}' || c == '\u{1680}' || (
    '\u{2000}' <= c && c <= '\u{200a}') || c == '\u{2028}' || c == '\u{2029}' || c == '\u{202f}'
        || c == '\u{205f}' || c == '\u{3000}'
}

/// Whether `c` is one of the ten ASCII digits.
pub fn char_is_ascii_digit(c: char) -> (b: bool)
    ensures
        b == is_ascii_digit(c),
{
    '0' <= c && c <= '9'
}

/// Whether a word can begin with `c`.
pub fn char_starts_word(c: char) -> (b: bool)
    ensures
        b == starts_word(c),
{
    ('a' <= c && c <= 'z') || ('A' <= c && c <= 'Z') || c == '_'
}

/// Whether a word can go on with `c`.
pub fn char_continues_word(c: char) -> (b: bool)
    ensures
        b == continues_word(c),
{
    if c <= '\u{7f}' {
        char_starts_word(c) || char_is_ascii_digit(c)
    } else {
        c.is_alphanumeric()
    }
}

/// The end of the longest run of characters of `text` that starts at `from`
/// and on which `keep` holds throughout.
pub open spec fn scan_while(text: Seq<char>, from: int, keep: spec_fn(char) -> bool) -> int
    decreases text.len() - from,
{
    if 0 <= from < text.len() && keep(text[from]) {
        scan_while(text, from + 1, keep)
    } else {
        from
    }
}

/// `end` closes the longest run from `from` on which `keep` holds: the run is
/// inside the text, `keep` holds on all of it, and fails right after it
/// unless the text ends there.
pub open spec fn is_run_end(
    text: Seq<char>,
    from: int,
    end: int,
    keep: spec_fn(char) -> bool,
) -> bool {
    &&& from <= end <= text.len()
    &&& forall|i: int| from <= i < end ==> keep(#[trigger] text[i])
    &&& end < text.len() ==> !keep(text[end])
}

/// What `scan_while` gives closes the longest run.
pub proof fn lemma_scan_is_run_end(text: Seq<char>, from: int, keep: spec_fn(char) -> bool)
    requires
        0 <= from <= text.len(),
    ensures
        is_run_end(text, from, scan_while(text, from, keep), keep),
    decreases text.len() - from,
{
    if from < text.len() && keep(text[from]) {
        lemma_scan_is_run_end(text, from + 1, keep);
    }
}

/// What closes the longest run is what `scan_while` gives: there is one such
/// position only.
pub proof fn lemma_run_end_is_scan(
    text: Seq<char>,
    from: int,
    end: int,
    keep: spec_fn(char) -> bool,
)
    requires
        0 <= from,
        is_run_end(text, from, end, keep),
    ensures
        scan_while(text, from, keep) == end,
    decreases end - from,
{
    if from < end {
        assert(keep(text[from]));
        lemma_run_end_is_scan(text, from + 1, end, keep);
    }
}

/// The first position at or after `from` that holds no whitespace.
pub open spec fn after_blanks(text: Seq<char>, from: int) -> int {
    scan_while(text, from, |c: char| is_blank(c))
}

/// The end of the word that goes through `from`.
pub open spec fn word_end(text: Seq<char>, from: int) -> int {
    scan_while(text, from, |c: char| continues_word(c))
}

/// The end of the run of ASCII digits from `from`.
pub open spec fn digits_end(text: Seq<char>, from: int) -> int {
    scan_while(text, from, |c: char| is_ascii_digit(c))
}

/// The position of the first line feed at or after `from`, or the text's end.
pub open spec fn line_end(text: Seq<char>, from: int) -> int {
    scan_while(text, from, |c: char| c != '\n')
}

/// The number that the ASCII digit `c` stands for.
pub open spec fn digit_value(c: char) -> int {
    c as int - '0' as int
}

/// The number that `digits` write in base ten; zero for no digits.
pub open spec fn decimal_value(digits: Seq<char>) -> int
    decreases digits.len(),
{
    if digits.len() == 0 {
        0
    } else {
        10 * decimal_value(digits.drop_last()) + digit_value(digits.last())
    }
}

/// Each of `digits` is an ASCII digit.
pub open spec fn all_ascii_digits(digits: Seq<char>) -> bool {
    forall|i: int| 0 <= i < digits.len() ==> is_ascii_digit(#[trigger] digits[i])
}

/// Whether `text` begins with a plus or a minus sign.
pub open spec fn has_sign(text: Seq<char>) -> bool {
    text.len() > 0 && (text[0] == '+' || text[0] == '-')
}

/// The integer that `text` writes: one ASCII digit or more, with or without a
/// sign in front, and nothing else.
pub open spec fn written_integer(text: Seq<char>) -> Option<int> {
    let digits = if has_sign(text) {
        text.drop_first()
    } else {
        text
    };
    if digits.len() > 0 && all_ascii_digits(digits) {
        if text[0] == '-' {
            Some(-decimal_value(digits))
        } else {
            Some(decimal_value(digits))
        }
    } else {
        None
    }
}

/// The integer that `text` writes, if it writes one that an `i128` holds.
pub open spec fn integer_literal(text: Seq<char>) -> Option<i128> {
    match written_integer(text) {
        Some(value) => if i128::MIN <= value <= i128::MAX {
            Some(value as i128)
        } else {
            None
        },
        None => None,
    }
}

/// Digits write no negative number.
pub proof fn lemma_decimal_value_not_negative(digits: Seq<char>)
    requires
        all_ascii_digits(digits),
    ensures
        0 <= decimal_value(digits),
    decreases digits.len(),
{
    if digits.len() > 0 {
        assert(all_ascii_digits(digits.drop_last()));
        assert(is_ascii_digit(digits.last()));
        lemma_decimal_value_not_negative(digits.drop_last());
    }
}

/// Reads a decimal integer: ASCII digits, with or without a sign in front.
/// `None` where `text` writes no integer or one that an `i128` cannot hold.
pub fn parse_integer(text: &str) -> (value: Option<i128>)
    ensures
        value == integer_literal(text@),
{
    let length = text.unicode_len();
    if length == 0 {
        return None;
    }
    let first = text.get_char(0);
    let negative = first == '-';
    let offset: usize = if first == '+' || first == '-' {
        1
    } else {
        0
    };
    if offset == length {
        return None;
    }
    let ghost digits = if has_sign(text@) {
        text@.drop_first()
    } else {
        text@
    };
    let limit: u128 = if negative {
        0x8000_0000_0000_0000_0000_0000_0000_0000
    } else {
        0x7fff_ffff_ffff_ffff_ffff_ffff_ffff_ffff
    };
    let mut magnitude: u128 = 0;
    let mut too_large = false;
    let mut index: usize = offset;
    while index < length
        invariant
            length == text@.len(),
            offset <= index <= length,
            digits == if has_sign(text@) {
                text@.drop_first()
            } else {
                text@
            },
            offset == if has_sign(text@) {
                1usize
            } else {
                0usize
            },
            negative == (text@[0] == '-'),
            all_ascii_digits(digits.take(index - offset)),
            limit == if negative {
                0x8000_0000_0000_0000_0000_0000_0000_0000u128
            } else {
                0x7fff_ffff_ffff_ffff_ffff_ffff_ffff_ffffu128
            },
            !too_large ==> magnitude == decimal_value(digits.take(index - offset)),
            !too_large ==> magnitude <= limit,
            too_large ==> decimal_value(digits.take(index - offset)) > limit,
        decreases length - index,
    {
        let character = text.get_char(index);
        let ghost before = digits.take(index - offset);
        let ghost after = digits.take(index - offset + 1);
        proof {
            assert(after.drop_last() =~= before);
            assert(after.last() == character);
        }
        if !char_is_ascii_digit(character) {
            proof {
                assert(!is_ascii_digit(digits[index - offset]));
            }
            return None;
        }
        let digit: u128 = (character as u32 - '0' as u32) as u128;
        proof {
            assert forall|i: int| 0 <= i < after.len() implies is_ascii_digit(#[trigger] after[i]) by {
                if i < before.len() {
                    assert(before[i] == after[i]);
                }
            }
            lemma_decimal_value_not_negative(before);
        }
        if too_large || magnitude > (limit - digit) / 10 {
            too_large = true;
        } else {
            magnitude = magnitude * 10 + digit;
        }
        index += 1;
    }
    proof {
        assert(digits.take(index - offset) =~= digits);
    }
    if too_large {
        None
    } else if negative {
        if magnitude == 0x8000_0000_0000_0000_0000_0000_0000_0000 {
            Some(i128::MIN)
        } else {
            Some(-(magnitude as i128))
        }
    } else {
        Some(magnitude as i128)
    }
}

} // verus!
