//! The parsers that feed the pipeline: one for stylesheets, one for
//! documents. Both walk the input by character position over a shared
//! scanning core, and return a typed error where the input leaves the
//! grammar, instead of failing the process.
use vstd::prelude::*;

use crate::text::{is_digit_char, is_letter_char, is_space_char};

pub mod css;
pub mod html;

pub use css::CSSParser;
pub use html::HTMLParser;


verus! {

/// Why parsing stopped.
#[derive(Debug, Clone, Copy, PartialEq, Eq, Structural)]
pub enum ParseError {
    /// The input ended where a character was required.
    Eof,
    /// A specific character was required and something else stood there.
    BadChar,
    /// A numeric value did not parse as a whole number.
    BadNumber,
    /// A property name outside the supported set.
    UnknownProperty,
    /// A tag name outside the supported set.
    UnknownTag,
}

/// The character classes the parsers consume greedily.
#[derive(Debug, Clone, Copy, PartialEq, Eq, Structural)]
pub enum CharClass {
    /// Whitespace.
    Space,
    /// CSS identifier characters: anything but punctuation and whitespace.
    Identifier,
    /// CSS selector tag characters: up to a class, id or block opener.
    SelectorTag,
    /// Decimal digits.
    Digits,
    /// Anything before a semicolon.
    NotSemicolon,
    /// Anything before an opening parenthesis.
    NotParen,
    /// A dimension's numeric part: anything before its unit.
    NotUnit,
    /// Document text: anything before a tag opener.
    NotLt,
    /// Attribute name characters: letters and hyphens.
    AttrName,
    /// Anything before a single quote.
    NotQuote,
    /// Anything before the tag closer.
    NotGt,
    /// Tag name characters: up to a space or the tag closer.
    TagName,
}

pub open spec fn class_allows(cls: CharClass, c: char) -> bool {
    match cls {
        CharClass::Space => is_space_char(c),
        CharClass::Identifier => c != '.' && c != '#' && c != '{' && c != '}' && c != ':' && c
            != ';' && c != ',' && !is_space_char(c),
        CharClass::SelectorTag => c != '.' && c != '#' && c != '{' && !is_space_char(c),
        CharClass::Digits => is_digit_char(c),
        CharClass::NotSemicolon => c != ';',
        CharClass::NotParen => c != '(',
        CharClass::NotUnit => c != 'p' && c != '%',
        CharClass::NotLt => c != '<',
        CharClass::AttrName => is_letter_char(c) || c == '-',
        CharClass::NotQuote => c != '\u{27}',
        CharClass::NotGt => c != '>',
        CharClass::TagName => c != ' ' && c != '>',
    }
}

fn class_allows_exec(cls: CharClass, c: char) -> (r: bool)
    ensures
        r == class_allows(cls, c),
{
    match cls {
        CharClass::Space => crate::text::is_space(c),
        CharClass::Identifier => c != '.' && c != '#' && c != '{' && c != '}' && c != ':' && c
            != ';' && c != ',' && !crate::text::is_space(c),
        CharClass::SelectorTag => c != '.' && c != '#' && c != '{' && !crate::text::is_space(c),
        CharClass::Digits => crate::text::is_digit(c),
        CharClass::NotSemicolon => c != ';',
        CharClass::NotParen => c != '(',
        CharClass::NotUnit => c != 'p' && c != '%',
        CharClass::NotLt => c != '<',
        CharClass::AttrName => crate::text::is_letter(c) || c == '-',
        CharClass::NotQuote => c != '\u{27}',
        CharClass::NotGt => c != '>',
        CharClass::TagName => c != ' ' && c != '>',
    }
}

/// The end of the run of `cls` characters starting at `i`: the first
/// index at or after `i` whose character falls outside the class, or
/// the length.
pub open spec fn scan(s: Seq<char>, i: int, cls: CharClass) -> int
    decreases s.len() - i,
{
    if i < 0 || i >= s.len() {
        s.len() as int
    } else if class_allows(cls, s[i]) {
        scan(s, i + 1, cls)
    } else {
        i
    }
}

pub proof fn lemma_scan_bounds(s: Seq<char>, i: int, cls: CharClass)
    requires
        0 <= i <= s.len(),
    ensures
        i <= scan(s, i, cls) <= s.len(),
        forall|k: int| i <= k < scan(s, i, cls) ==> class_allows(cls, s[k]),
        scan(s, i, cls) < s.len() ==> !class_allows(cls, s[scan(s, i, cls)]),
    decreases s.len() - i,
{
    if i < s.len() && class_allows(cls, s[i]) {
        lemma_scan_bounds(s, i + 1, cls);
    }
}

pub proof fn lemma_scan_agree(s: Seq<char>, i: int, j: int, cls: CharClass)
    requires
        0 <= i <= j <= s.len(),
        forall|k: int| i <= k < j ==> class_allows(cls, s[k]),
        j < s.len() ==> !class_allows(cls, s[j]),
    ensures
        scan(s, i, cls) == j,
    decreases j - i,
{
    if i < j {
        lemma_scan_agree(s, i + 1, j, cls);
    }
}

/// Finds where the run of `cls` characters starting at `from` ends.
pub fn scan_exec(s: &str, from: usize, cls: CharClass) -> (r: usize)
    requires
        from <= s@.len(),
    ensures
        r == scan(s@, from as int, cls),
        from <= r <= s@.len(),
{
    let n = s.unicode_len();
    let mut j = from;
    while j < n && class_allows_exec(cls, s.get_char(j))
        invariant
            from <= j <= n,
            n == s@.len(),
            forall|k: int| from <= k < j ==> class_allows(cls, s@[k]),
        decreases n - j,
    {
        j = j + 1;
    }
    proof {
        lemma_scan_agree(s@, from as int, j as int, cls);
    }
    j
}

/// The decimal value of a digit sequence.
pub open spec fn digits_val(s: Seq<char>) -> int
    decreases s.len(),
{
    if s.len() == 0 {
        0
    } else {
        digits_val(s.drop_last()) * 10 + (s.last() as u32 - 48)
    }
}

pub open spec fn all_digits(s: Seq<char>) -> bool {
    forall|k: int| 0 <= k < s.len() ==> is_digit_char(#[trigger] s[k])
}

proof fn lemma_digits_val_nonneg(s: Seq<char>)
    requires
        all_digits(s),
    ensures
        digits_val(s) >= 0,
    decreases s.len(),
{
    if s.len() > 0 {
        assert(all_digits(s.drop_last())) by {
            assert(forall|k: int| 0 <= k < s.len() - 1 ==> s.drop_last()[k] == s[k]);
        }
        lemma_digits_val_nonneg(s.drop_last());
        assert(digits_val(s.drop_last()) * 10 >= 0) by (nonlinear_arith)
            requires
                digits_val(s.drop_last()) >= 0,
        ;
    }
}

proof fn lemma_digits_val_prefix_large(s: Seq<char>, j: int)
    requires
        all_digits(s),
        0 <= j <= s.len(),
        digits_val(s.subrange(0, j)) > u32::MAX,
    ensures
        digits_val(s) > u32::MAX,
    decreases s.len() - j,
{
    if j == s.len() {
        assert(s.subrange(0, j) =~= s);
    } else {
        let p = s.subrange(0, j);
        let q = s.subrange(0, j + 1);
        assert(q.drop_last() =~= p);
        assert(all_digits(p)) by {
            assert(forall|k: int| 0 <= k < j ==> p[k] == s[k]);
        }
        assert(digits_val(q) == digits_val(p) * 10 + (q.last() as u32 - 48));
        assert(is_digit_char(q.last()));
        assert(digits_val(q) > u32::MAX) by (nonlinear_arith)
            requires
                digits_val(p) > u32::MAX,
                digits_val(q) == digits_val(p) * 10 + (q.last() as u32 - 48),
                q.last() as u32 >= 48,
        ;
        lemma_digits_val_prefix_large(s, j + 1);
    }
}

/// Parses a whole decimal number. Succeeds exactly on a non-empty,
/// all-digit string whose value fits a `u32`, and then returns that
/// value.
pub fn parse_u32(s: &str) -> (r: Result<u32, ParseError>)
    ensures
        match r {
            Ok(n) => s@.len() > 0 && all_digits(s@) && n == digits_val(s@),
            Err(e) => e == ParseError::BadNumber && (s@.len() == 0 || !all_digits(s@)
                || digits_val(s@) > u32::MAX),
        },
{
    let n = s.unicode_len();
    if n == 0 {
        return Err(ParseError::BadNumber);
    }
    let mut acc: u32 = 0;
    let mut i: usize = 0;
    while i < n
        invariant
            0 <= i <= n,
            n == s@.len(),
            all_digits(s@.subrange(0, i as int)),
            acc == digits_val(s@.subrange(0, i as int)),
        decreases n - i,
    {
        let c = s.get_char(i);
        let cv = c as u32;
        if !(48 <= cv && cv <= 57) {
            proof {
                assert(!is_digit_char(s@[i as int]));
            }
            return Err(ParseError::BadNumber);
        }
        let d = cv - 48;
        let ghost p = s@.subrange(0, i as int);
        let ghost q = s@.subrange(0, i as int + 1);
        proof {
            assert(q.drop_last() =~= p);
            assert(q.last() == s@[i as int]);
            assert(all_digits(q)) by {
                assert(forall|k: int| 0 <= k < i ==> q[k] == p[k]);
            }
            assert(digits_val(q) == digits_val(p) * 10 + d);
        }
        if acc > (u32::MAX - d) / 10 {
            proof {
                assert(digits_val(q) > u32::MAX) by (nonlinear_arith)
                    requires
                        digits_val(q) == acc * 10 + d,
                        acc > (u32::MAX - d) / 10,
                        0 <= d <= 9,
                        acc <= u32::MAX,
                ;
                if all_digits(s@) {
                    lemma_digits_val_prefix_large(s@, i as int + 1);
                }
            }
            return Err(ParseError::BadNumber);
        }
        proof {
            assert(acc * 10 + d <= u32::MAX) by (nonlinear_arith)
                requires
                    acc <= (u32::MAX - d) / 10,
                    0 <= d <= 9,
                    acc >= 0,
            ;
        }
        acc = acc * 10 + d;
        i = i + 1;
    }
    proof {
        assert(s@.subrange(0, n as int) =~= s@);
    }
    Ok(acc)
}

/// A parser over borrowed input: built once, then driven to its output.
pub trait IParser: Sized {
    type Output;

    fn new(input: &str) -> Self;

    fn parse(&mut self) -> Self::Output;
}


/// One expected character at position `i`: past it on a match, the
/// end-of-input or wrong-character error otherwise.
pub open spec fn spec_expect(s: Seq<char>, i: int, c: char) -> Result<int, ParseError> {
    if i >= s.len() {
        Err(ParseError::Eof)
    } else if s[i] == c {
        Ok(i + 1)
    } else {
        Err(ParseError::BadChar)
    }
}

} // verus!
