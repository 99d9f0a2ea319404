//! Character classes and small string operations shared by the DOM,
//! the CSS object model and the parsers.
//!
//! Whitespace is the full Unicode white-space set; digits and letters
//! are the ASCII classes, which is what numbers and attribute names
//! are made of here.
use vstd::prelude::*;
use vstd::string::StrSliceExecFns;

verus! {

/// Whitespace: the Unicode white-space code points — the horizontal
/// tab through carriage-return run, space, next line, no-break space,
/// ogham space mark, the en-quad through hair-space run, the line and
/// paragraph separators, the narrow and medium spaces, and the
/// ideographic space.
pub open spec fn is_space_char(c: char) -> bool {
    (9 <= c as u32 <= 13) || c == ' ' || c == '\u{85}' || c == '\u{a0}' || c == '\u{1680}' || (
    0x2000 <= c as u32 <= 0x200a) || c == '\u{2028}' || c == '\u{2029}' || c == '\u{202f}' || c
        == '\u{205f}' || c == '\u{3000}'
}

pub fn is_space(c: char) -> (r: bool)
    ensures
        r == is_space_char(c),
{
    let n = c as u32;
    (9 <= n && n <= 13) || n == 32 || n == 0x85 || n == 0xa0 || n == 0x1680 || (0x2000 <= n && n
        <= 0x200a) || n == 0x2028 || n == 0x2029 || n == 0x202f || n == 0x205f || n == 0x3000
}

pub open spec fn is_digit_char(c: char) -> bool {
    48 <= c as u32 <= 57
}

pub fn is_digit(c: char) -> (r: bool)
    ensures
        r == is_digit_char(c),
{
    let n = c as u32;
    48 <= n && n <= 57
}

pub open spec fn is_letter_char(c: char) -> bool {
    (97 <= c as u32 <= 122) || (65 <= c as u32 <= 90)
}

pub fn is_letter(c: char) -> (r: bool)
    ensures
        r == is_letter_char(c),
{
    let n = c as u32;
    (97 <= n && n <= 122) || (65 <= n && n <= 90)
}

/// Character-wise equality of two string slices.
pub fn str_eq(a: &str, b: &str) -> (r: bool)
    ensures
        r == (a@ == b@),
{
    let n = a.unicode_len();
    if n != b.unicode_len() {
        proof {
            assert(a@ != b@) by {
                assert(a@.len() != b@.len());
            }
        }
        return false;
    }
    let mut i: usize = 0;
    while i < n
        invariant
            n == a@.len(),
            n == b@.len(),
            0 <= i <= n,
            forall|k: int| 0 <= k < i ==> a@[k] == b@[k],
        decreases n - i,
    {
        if a.get_char(i) != b.get_char(i) {
            return false;
        }
        i = i + 1;
    }
    proof {
        assert(a@ =~= b@);
    }
    true
}

/// Equality of an owned string and a string slice.
pub fn string_eq_str(a: &String, b: &str) -> (r: bool)
    ensures
        r == (a@ == b@),
{
    str_eq(a.as_str(), b)
}

/// The first index at or after `i` holding a space character, or the length.
pub open spec fn first_space_from(s: Seq<char>, i: int) -> int
    decreases s.len() - i,
{
    if i < 0 || i >= s.len() {
        s.len() as int
    } else if s[i] == ' ' {
        i
    } else {
        first_space_from(s, i + 1)
    }
}

pub proof fn lemma_first_space_from_bounds(s: Seq<char>, i: int)
    requires
        0 <= i <= s.len(),
    ensures
        i <= first_space_from(s, i) <= s.len(),
        forall|k: int| i <= k < first_space_from(s, i) ==> s[k] != ' ',
        first_space_from(s, i) < s.len() ==> s[first_space_from(s, i)] == ' ',
    decreases s.len() - i,
{
    if i < s.len() && s[i] != ' ' {
        lemma_first_space_from_bounds(s, i + 1);
    }
}

/// The tokens of `s`, split on single spaces; empty tokens are kept,
/// so a string with no space yields one token (itself).
pub open spec fn split_spaces(s: Seq<char>) -> Seq<Seq<char>>
    decreases s.len(),
{
    let j = first_space_from(s, 0);
    if 0 <= j < s.len() {
        seq![s.subrange(0, j)] + split_spaces(s.subrange(j + 1, s.len() as int))
    } else {
        seq![s]
    }
}

/// The tokens of the string slice, split on single spaces.
pub fn split_spaces_exec(s: &str) -> (r: Vec<String>)
    ensures
        r@.len() == split_spaces(s@).len(),
        forall|k: int| 0 <= k < r@.len() ==> r@[k]@ == split_spaces(s@)[k],
    decreases s@.len(),
{
    let n = s.unicode_len();
    let mut j: usize = 0;
    while j < n && s.get_char(j) != ' '
        invariant
            n == s@.len(),
            0 <= j <= n,
            forall|k: int| 0 <= k < j ==> s@[k] != ' ',
        decreases n - j,
    {
        j = j + 1;
    }
    proof {
        lemma_first_space_from_bounds(s@, 0);
        assert(first_space_from(s@, 0) == j as int) by {
            lemma_first_space_agree(s@, j as int);
        }
    }
    if j < n {
        let head = s.substring_char(0, j).to_owned();
        let tail = s.substring_char(j + 1, n);
        let mut rest = split_spaces_exec(tail);
        let mut r: Vec<String> = Vec::new();
        r.push(head);
        let mut k: usize = 0;
        let ghost tokens = split_spaces(s@);
        proof {
            assert(tokens == seq![s@.subrange(0, j as int)] + split_spaces(tail@));
        }
        while k < rest.len()
            invariant
                0 <= k <= rest.len(),
                tokens == seq![s@.subrange(0, j as int)] + split_spaces(tail@),
                rest@.len() == split_spaces(tail@).len(),
                forall|t: int| 0 <= t < rest@.len() ==> rest@[t]@ == split_spaces(tail@)[t],
                r@.len() == 1 + k,
                forall|t: int| 0 <= t < 1 + k ==> r@[t]@ == tokens[t],
            decreases rest.len() - k,
        {
            let item = rest[k].clone();
            r.push(item);
            k = k + 1;
        }
        r
    } else {
        let whole = s.to_owned();
        let mut r: Vec<String> = Vec::new();
        r.push(whole);
        r
    }
}

proof fn lemma_first_space_agree(s: Seq<char>, j: int)
    requires
        0 <= j <= s.len(),
        forall|k: int| 0 <= k < j ==> s[k] != ' ',
        j < s.len() ==> s[j] == ' ',
    ensures
        first_space_from(s, 0) == j,
{
    lemma_first_space_step(s, 0, j);
}

proof fn lemma_first_space_step(s: Seq<char>, i: int, j: int)
    requires
        0 <= i <= j <= s.len(),
        forall|k: int| i <= k < j ==> s[k] != ' ',
        j < s.len() ==> s[j] == ' ',
    ensures
        first_space_from(s, i) == j,
    decreases j - i,
{
    if i < j {
        lemma_first_space_step(s, i + 1, j);
    }
}

/// `s` with leading and trailing whitespace removed.
pub open spec fn trim_spaces(s: Seq<char>) -> Seq<char> {
    let lo = first_non_space(s, 0);
    if lo == s.len() {
        Seq::empty()
    } else {
        s.subrange(lo, last_non_space(s) + 1)
    }
}

/// The first index at or after `i` holding a non-space character, or the length.
pub open spec fn first_non_space(s: Seq<char>, i: int) -> int
    decreases s.len() - i,
{
    if i < 0 || i >= s.len() {
        s.len() as int
    } else if !is_space_char(s[i]) {
        i
    } else {
        first_non_space(s, i + 1)
    }
}

/// The last index holding a non-space character; meaningful only when one exists.
pub open spec fn last_non_space(s: Seq<char>) -> int {
    last_non_space_before(s, s.len() as int)
}

pub open spec fn last_non_space_before(s: Seq<char>, i: int) -> int
    decreases i,
{
    if i <= 0 || i > s.len() {
        -1
    } else if !is_space_char(s[i - 1]) {
        i - 1
    } else {
        last_non_space_before(s, i - 1)
    }
}

/// A copy of the slice with leading and trailing whitespace removed.
pub fn trim(s: &str) -> (r: String)
    ensures
        r@ == trim_spaces(s@),
{
    let n = s.unicode_len();
    let mut lo: usize = 0;
    while lo < n && is_space(s.get_char(lo))
        invariant
            n == s@.len(),
            0 <= lo <= n,
            forall|k: int| 0 <= k < lo ==> is_space_char(s@[k]),
        decreases n - lo,
    {
        lo = lo + 1;
    }
    proof {
        lemma_first_non_space_agree(s@, 0, lo as int);
    }
    if lo == n {
        return String::new();
    }
    let mut hi: usize = n;
    while hi > lo && is_space(s.get_char(hi - 1))
        invariant
            n == s@.len(),
            0 <= lo <= hi <= n,
            lo < n,
            !is_space_char(s@[lo as int]),
            forall|k: int| hi <= k < n ==> is_space_char(s@[k]),
        decreases hi,
    {
        hi = hi - 1;
    }
    proof {
        assert(!is_space_char(s@[lo as int]));
        assert(hi > lo);
        lemma_last_non_space_agree(s@, s@.len() as int, hi as int - 1);
    }
    s.substring_char(lo, hi).to_owned()
}

proof fn lemma_first_non_space_agree(s: Seq<char>, i: int, j: int)
    requires
        0 <= i <= j <= s.len(),
        forall|k: int| i <= k < j ==> is_space_char(s[k]),
        j < s.len() ==> !is_space_char(s[j]),
    ensures
        first_non_space(s, i) == j,
    decreases j - i,
{
    if i < j {
        lemma_first_non_space_agree(s, i + 1, j);
    }
}

proof fn lemma_last_non_space_agree(s: Seq<char>, i: int, j: int)
    requires
        -1 <= j < i <= s.len(),
        forall|k: int| j < k < i ==> is_space_char(s[k]),
        j >= 0 ==> !is_space_char(s[j]),
    ensures
        last_non_space_before(s, i) == j,
    decreases i - j,
{
    if j < i - 1 {
        lemma_last_non_space_agree(s, i - 1, j);
    }
}

} // verus!
