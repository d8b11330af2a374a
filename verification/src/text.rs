use vstd::prelude::*;
use vstd::string::*;

verus! {

/// What `char::is_alphanumeric` answers for a character: whether Unicode
/// classes it as alphabetic or numeric.
pub uninterp spec fn alphanumeric(c: char) -> bool;

/// What `char::is_whitespace` answers for a character: whether it has the
/// Unicode property `White_Space`, which these characters have and no
/// others.
pub open spec fn whitespace(c: char) -> bool {
    ('\u{9}' <= c <= '\u{d}') || c == ' ' || c == '\u{85}' || c == '\u{a0}' || c == '\u{1680}' || (
    '\u{2000}' <= c <= '\u{200a}') || c == '\u{2028}' || c == '\u{2029}' || c == '\u{202f}' || c
        == '\u{205f}' || c == '\u{3000}'
}

/// `char::is_alphanumeric` depends on the character alone; its answer is
/// named `alphanumeric`.
pub assume_specification[ char::is_alphanumeric ](c: char) -> (r: bool)
    ensures
        r == alphanumeric(c),
;

/// `char::is_whitespace` answers whether the character has the Unicode
/// property `White_Space`.
pub assume_specification[ char::is_whitespace ](c: char) -> (r: bool)
    ensures
        r == whitespace(c),
;

/// `String::push` appends one character at the end and changes nothing else.
pub assume_specification[ String::push ](s: &mut String, c: char)
    ensures
        final(s)@ == old(s)@.push(c),
;

/// `str == str` holds exactly when the two texts have the same characters
/// in the same order.
pub assume_specification[ <str as PartialEq>::eq ](a: &str, b: &str) -> (r: bool)
    ensures
        r == (a@ == b@),
;

/// The characters of a text, in order.
pub fn chars_of(s: &str) -> (r: Vec<char>)
    ensures
        r@ == s@,
{
    let mut out: Vec<char> = Vec::new();
    for c in it: s.chars()
        invariant
            out@ == it.seq().take(it.index()),
            it.seq() == s@,
    {
        out.push(c);
    }
    out
}

/// What `str::to_lowercase` returns for a text: its lowercase form by the
/// Unicode rules.
pub uninterp spec fn lowercase(text: Seq<char>) -> Seq<char>;

/// `str::to_lowercase` depends on the text alone; its result is named
/// `lowercase`.
pub assume_specification[ str::to_lowercase ](s: &str) -> (r: String)
    ensures
        r@ == lowercase(s@),
;

/// Whether `regex::Regex::new` accepts a pattern.
pub uninterp spec fn pattern_valid(pattern: Seq<char>) -> bool;

/// What `regex::Regex::is_match` answers for the regular expression
/// compiled from `pattern` and a text: whether the expression matches
/// somewhere in the text.
pub uninterp spec fn pattern_matches(pattern: Seq<char>, text: Seq<char>) -> bool;

/// Compiles `pattern` with `regex::Regex::new` and asks `is_match` of
/// `text`. Both depend on their arguments alone: `None` says that the
/// pattern does not compile, and otherwise the answer is the match.
#[verifier::external_body]
pub(crate) fn regex_is_match(pattern: &str, text: &str) -> (r: Option<bool>)
    ensures
        r == (if pattern_valid(pattern@) {
            Some(pattern_matches(pattern@, text@))
        } else {
            None
        }),
{
    match regex::Regex::new(pattern) {
        Ok(re) => Some(re.is_match(text)),
        Err(_) => None,
    }
}

/// Whether the character is one of the ten decimal digits.
pub open spec fn is_digit(c: char) -> bool {
    '0' <= c <= '9'
}

/// The number that a run of decimal digits stands for.
pub open spec fn decimal(digits: Seq<char>) -> int
    decreases digits.len(),
{
    if digits.len() == 0 {
        0
    } else {
        decimal(digits.drop_last()) * 10 + (digits.last() as int - '0' as int)
    }
}

/// The digits of a number text, without its sign.
pub open spec fn unsigned_part(text: Seq<char>) -> Seq<char> {
    if text.len() > 0 && (text[0] == '-' || text[0] == '+') {
        text.drop_first()
    } else {
        text
    }
}

/// The integer between `low` and `high` that a text stands for: an
/// optional sign (`-` only where `signed` holds) and at least one decimal
/// digit, and nothing else; none where the number lies outside the bounds.
pub open spec fn integer_of(text: Seq<char>, signed: bool, low: int, high: int) -> Option<int> {
    let digits = unsigned_part(text);
    let negative = text.len() > 0 && text[0] == '-';
    let value = if negative {
        -decimal(digits)
    } else {
        decimal(digits)
    };
    if digits.len() == 0 || (negative && !signed) || !(forall|i: int|
        0 <= i < digits.len() ==> is_digit(#[trigger] digits[i])) || value < low || value > high {
        None
    } else {
        Some(value)
    }
}

/// The number that a text stands for, where it fits a position.
pub open spec fn number_of(text: Seq<char>) -> Option<isize> {
    match integer_of(text, true, isize::MIN as int, isize::MAX as int) {
        Some(value) => Some(value as isize),
        None => None,
    }
}

pub proof fn lemma_decimal_grows(digits: Seq<char>, i: int, j: int)
    requires
        0 <= i <= j <= digits.len(),
        forall|k: int| 0 <= k < digits.len() ==> is_digit(#[trigger] digits[k]),
    ensures
        0 <= decimal(digits.take(i)) <= decimal(digits.take(j)),
    decreases j,
{
    if j == 0 {
        assert(digits.take(0).len() == 0);
    } else if i == j {
        lemma_decimal_grows(digits, i - 1, j - 1);
        assert(digits.take(j).drop_last() =~= digits.take(j - 1));
    } else {
        lemma_decimal_grows(digits, i, j - 1);
        assert(digits.take(j).drop_last() =~= digits.take(j - 1));
    }
}

/// Reads an integer between `low` and `high` from a text.
pub fn parse_integer(text: &str, signed: bool, low: i128, high: i128) -> (r: Option<i128>)
    requires
        -0x8000_0000_0000_0000 <= low <= 0 <= high <= 0x8000_0000_0000_0000,
    ensures
        match r {
            Some(value) => integer_of(text@, signed, low as int, high as int) == Some(value as int),
            None => integer_of(text@, signed, low as int, high as int) is None,
        },
{
    let chars = chars_of(text);
    let n = chars.len();
    let negative = n > 0 && chars[0] == '-';
    let start: usize = if n > 0 && (chars[0] == '-' || chars[0] == '+') {
        1
    } else {
        0
    };
    let ghost digits = unsigned_part(text@);
    assert(digits =~= chars@.subrange(start as int, n as int));
    if start == n || (negative && !signed) {
        return None;
    }
    let mut acc: i128 = 0;
    let mut i: usize = start;
    while i < n
        invariant
            start <= i <= n,
            n == chars@.len(),
            digits == chars@.subrange(start as int, n as int),
            digits == unsigned_part(text@),
            negative == (text@.len() > 0 && text@[0] == '-'),
            -0x8000_0000_0000_0000 <= low <= 0 <= high <= 0x8000_0000_0000_0000,
            forall|k: int| 0 <= k < i - start ==> is_digit(#[trigger] digits[k]),
            acc == decimal(digits.take(i - start)),
            0 <= acc <= 0x8000_0000_0000_0000,
        decreases n - i,
    {
        let c = chars[i];
        assert(c == digits[i - start]);
        if !('0' <= c && c <= '9') {
            assert(!is_digit(digits[i - start]));
            return None;
        }
        let d: i128 = (c as u32 - '0' as u32) as i128;
        assert(digits.take(i - start + 1).drop_last() =~= digits.take(i - start));
        let next: i128 = acc * 10 + d;
        if next > 0x8000_0000_0000_0000 {
            proof {
                if forall|k: int| 0 <= k < digits.len() ==> is_digit(#[trigger] digits[k]) {
                    lemma_decimal_grows(digits, i - start + 1, digits.len() as int);
                    assert(digits.take(digits.len() as int) =~= digits);
                }
            }
            return None;
        }
        acc = next;
        i += 1;
    }
    assert(digits.take(i - start) =~= digits);
    let value: i128 = if negative {
        -acc
    } else {
        acc
    };
    if value < low || value > high {
        None
    } else {
        Some(value)
    }
}

/// Reads a position from a text.
pub fn parse_number(text: &str) -> (r: Option<isize>)
    ensures
        r == number_of(text@),
{
    match parse_integer(text, true, isize::MIN as i128, isize::MAX as i128) {
        Some(value) => Some(value as isize),
        None => None,
    }
}

/// The character of a decimal digit.
pub open spec fn digit_char(d: int) -> char {
    if d == 0 {
        '0'
    } else if d == 1 {
        '1'
    } else if d == 2 {
        '2'
    } else if d == 3 {
        '3'
    } else if d == 4 {
        '4'
    } else if d == 5 {
        '5'
    } else if d == 6 {
        '6'
    } else if d == 7 {
        '7'
    } else if d == 8 {
        '8'
    } else {
        '9'
    }
}

/// A number in decimal digits, without leading zeros.
pub open spec fn digits_of(n: nat) -> Seq<char>
    decreases n,
{
    if n < 10 {
        seq![digit_char(n as int)]
    } else {
        digits_of(n / 10).push(digit_char((n % 10) as int))
    }
}

/// A number with its sign in decimal digits.
pub open spec fn signed_digits_of(n: int) -> Seq<char> {
    if n < 0 {
        seq!['-'] + digits_of((-n) as nat)
    } else {
        digits_of(n as nat)
    }
}

/// What `char::from_u32` returns for a number: its character where the
/// number is a Unicode scalar value, which the surrogates are not.
pub open spec fn scalar_of(v: u32) -> Option<char> {
    if v <= 0x10FFFF && !(0xD800 <= v <= 0xDFFF) {
        Some(v as char)
    } else {
        None
    }
}

/// `char::from_u32` gives the character with the given scalar value, and
/// none for a number that is no scalar value.
pub assume_specification[ char::from_u32 ](v: u32) -> (r: Option<char>)
    ensures
        r == scalar_of(v),
;

/// Writes a number with its sign in decimal digits.
pub fn number_text(n: i64) -> (r: String)
    ensures
        r@ == signed_digits_of(n as int),
{
    let mut out = String::new();
    if n < 0 {
        out.push('-');
        let magnitude: u64 = (-(n as i128)) as u64;
        push_number(&mut out, magnitude);
        assert(out@ =~= seq!['-'] + digits_of((-n) as nat));
    } else {
        push_number(&mut out, n as u64);
        assert(out@ =~= digits_of(n as nat));
    }
    out
}

/// Writes a number in decimal digits behind what `out` holds.
pub fn push_number(out: &mut String, n: u64)
    ensures
        final(out)@ == old(out)@ + digits_of(n as nat),
    decreases n,
{
    if n >= 10 {
        push_number(out, n / 10);
    }
    let d = n % 10;
    let c = if d == 0 {
        '0'
    } else if d == 1 {
        '1'
    } else if d == 2 {
        '2'
    } else if d == 3 {
        '3'
    } else if d == 4 {
        '4'
    } else if d == 5 {
        '5'
    } else if d == 6 {
        '6'
    } else if d == 7 {
        '7'
    } else if d == 8 {
        '8'
    } else {
        '9'
    };
    out.push(c);
    proof {
        if n >= 10 {
            assert(out@ =~= old(out)@ + digits_of(n as nat));
        } else {
            assert(out@ =~= old(out)@ + digits_of(n as nat));
        }
    }
}

} // verus!
