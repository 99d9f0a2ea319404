//! The stylesheet parser: selectors with optional tag, id and
//! classes; declarations of `property: value;` with an optional
//! `!important` marker; values as whole-number lengths, `rgb(...)`
//! colors, or keywords.
use vstd::prelude::*;
use vstd::string::StrSliceExecFns;

use crate::cssom::{
    new_css_declaration, new_css_rule, new_css_selector, CSSDeclaration, CSSProperty, CSSRule,
    CSSSelector, CSSValue, ColorData, DeclV, RuleV, SelectorV, Stylesheet, Unit, ValueV,
};
use crate::dom::TagType;
use crate::parser::{
    all_digits, class_allows, digits_val, parse_u32, scan, scan_exec, CharClass, IParser,
    ParseError,
};
use crate::text::{str_eq, trim, trim_spaces};

verus! {

/// A stylesheet parser: a character position over owned input.
#[derive(Debug)]
pub struct CSSParser {
    pos: usize,
    input: String,
}

/// The supported property names.
pub open spec fn property_of_name(s: Seq<char>) -> Option<CSSProperty> {
    if s == "display"@ {
        Some(CSSProperty::Display)
    } else if s == "padding"@ {
        Some(CSSProperty::Padding)
    } else if s == "background"@ {
        Some(CSSProperty::Background)
    } else if s == "color"@ {
        Some(CSSProperty::Color)
    } else if s == "width"@ {
        Some(CSSProperty::Width)
    } else if s == "height"@ {
        Some(CSSProperty::Height)
    } else {
        None
    }
}

/// The supported tag names.
pub open spec fn tag_of_name(s: Seq<char>) -> Option<TagType> {
    if s == "html"@ {
        Some(TagType::Html)
    } else if s == "div"@ {
        Some(TagType::Div)
    } else if s == "p"@ {
        Some(TagType::P)
    } else if s == "span"@ {
        Some(TagType::Span)
    } else if s == "style"@ {
        Some(TagType::Style)
    } else {
        None
    }
}

fn property_from_name(s: &str) -> (r: Option<CSSProperty>)
    ensures
        r == property_of_name(s@),
{
    if str_eq(s, "display") {
        Some(CSSProperty::Display)
    } else if str_eq(s, "padding") {
        Some(CSSProperty::Padding)
    } else if str_eq(s, "background") {
        Some(CSSProperty::Background)
    } else if str_eq(s, "color") {
        Some(CSSProperty::Color)
    } else if str_eq(s, "width") {
        Some(CSSProperty::Width)
    } else if str_eq(s, "height") {
        Some(CSSProperty::Height)
    } else {
        None
    }
}

pub(crate) fn tag_from_name(s: &str) -> (r: Option<TagType>)
    ensures
        r == tag_of_name(s@),
{
    if str_eq(s, "html") {
        Some(TagType::Html)
    } else if str_eq(s, "div") {
        Some(TagType::Div)
    } else if str_eq(s, "p") {
        Some(TagType::P)
    } else if str_eq(s, "span") {
        Some(TagType::Span)
    } else if str_eq(s, "style") {
        Some(TagType::Style)
    } else {
        None
    }
}

/// Whether the trimmed declaration text ends with the importance
/// marker.
pub open spec fn has_important_suffix(t: Seq<char>) -> bool {
    t.len() >= 10 && t.subrange(t.len() - 10, t.len() as int) == "!important"@
}

/// The value and importance a declaration's raw text denotes.
pub open spec fn spec_value_of_raw(raw: Seq<char>) -> (Result<ValueV, ParseError>, bool) {
    let t = trim_spaces(raw);
    if has_important_suffix(t) {
        (spec_value_of_text(trim_spaces(t.subrange(0, t.len() - 10))), true)
    } else {
        (spec_value_of_text(t), false)
    }
}

/// The value a trimmed piece of text denotes: an `rgb(...)` color, a
/// whole-number length with its unit, or a keyword.
pub open spec fn spec_value_of_text(t: Seq<char>) -> Result<ValueV, ParseError> {
    if t.len() >= 4 && t.subrange(0, 4) == "rgb("@ {
        spec_rgb_of_text(t)
    } else if t.len() > 0 && crate::text::is_digit_char(t[0]) {
        let nd = scan(t, 0, CharClass::Digits);
        let digits = t.subrange(0, nd);
        let unit = t.subrange(nd, t.len() as int);
        if digits_val(digits) > u32::MAX {
            Err(ParseError::BadNumber)
        } else if unit == "%"@ {
            Ok(ValueV::Dimension(digits_val(digits) as u32, Unit::Percent))
        } else if unit == "px"@ {
            Ok(ValueV::Dimension(digits_val(digits) as u32, Unit::Px))
        } else {
            Err(ParseError::BadNumber)
        }
    } else {
        Ok(ValueV::Keyword(t))
    }
}

/// The color an `rgb(...)` text denotes: three whole numbers between
/// a parenthesis pair, separated by commas.
pub open spec fn spec_rgb_of_text(t: Seq<char>) -> Result<ValueV, ParseError> {
    let e1 = scan(t, 4, CharClass::Digits);
    let d1 = t.subrange(4, e1);
    if d1.len() == 0 || digits_val(d1) > u32::MAX {
        Err(ParseError::BadNumber)
    } else if !(e1 < t.len() && t[e1] == ',') {
        Err(ParseError::BadChar)
    } else {
        let e2 = scan(t, e1 + 1, CharClass::Digits);
        let d2 = t.subrange(e1 + 1, e2);
        if d2.len() == 0 || digits_val(d2) > u32::MAX {
            Err(ParseError::BadNumber)
        } else if !(e2 < t.len() && t[e2] == ',') {
            Err(ParseError::BadChar)
        } else {
            let e3 = scan(t, e2 + 1, CharClass::Digits);
            let d3 = t.subrange(e2 + 1, e3);
            if d3.len() == 0 || digits_val(d3) > u32::MAX {
                Err(ParseError::BadNumber)
            } else if !(e3 == t.len() - 1 && t[e3] == ')') {
                Err(ParseError::BadChar)
            } else {
                Ok(
                    ValueV::Color(
                        crate::cssom::ColorV::Rgb(
                            digits_val(d1) as u32,
                            digits_val(d2) as u32,
                            digits_val(d3) as u32,
                        ),
                    ),
                )
            }
        }
    }
}

/// Parses one number of an `rgb(...)` body, expecting `stop` after it.
fn rgb_component(t: &str, from: usize, stop: char) -> (r: Result<(u32, usize), ParseError>)
    requires
        from <= t@.len(),
    ensures
        ({
            let e = scan(t@, from as int, CharClass::Digits);
            let d = t@.subrange(from as int, e);
            match r {
                Ok((n, next)) => d.len() > 0 && digits_val(d) <= u32::MAX && n == digits_val(d)
                    && e < t@.len() && t@[e] == stop && next == e + 1,
                Err(e2) => {
                    if d.len() == 0 || digits_val(d) > u32::MAX {
                        e2 == ParseError::BadNumber
                    } else {
                        e2 == ParseError::BadChar && !(e < t@.len() && t@[e] == stop)
                    }
                },
            }
        }),
{
    let e = scan_exec(t, from, CharClass::Digits);
    let digits = t.substring_char(from, e).to_owned();
    let n = match parse_u32(digits.as_str()) {
        Ok(n) => n,
        Err(_) => {
            proof {
                let d = t@.subrange(from as int, e as int);
                crate::parser::lemma_scan_bounds(t@, from as int, CharClass::Digits);
                assert(all_digits(d));
            }
            return Err(ParseError::BadNumber);
        },
    };
    if e < t.unicode_len() && t.get_char(e) == stop {
        Ok((n, e + 1))
    } else {
        Err(ParseError::BadChar)
    }
}

/// Interprets the text of one `rgb(...)` value.
fn rgb_from_text(t: &str) -> (r: Result<CSSValue, ParseError>)
    requires
        t@.len() >= 4,
        t@.subrange(0, 4) == "rgb("@,
    ensures
        match r {
            Ok(v) => spec_rgb_of_text(t@) == Ok::<ValueV, ParseError>(v@),
            Err(e) => spec_rgb_of_text(t@) == Err::<ValueV, ParseError>(e),
        },
{
    let (c1, p1) = match rgb_component(t, 4, ',') {
        Ok(x) => x,
        Err(e) => {
            return Err(e);
        },
    };
    let (c2, p2) = match rgb_component(t, p1, ',') {
        Ok(x) => x,
        Err(e) => {
            return Err(e);
        },
    };
    // the last number must close the call at the end of the text
    let e3 = scan_exec(t, p2, CharClass::Digits);
    let digits = t.substring_char(p2, e3).to_owned();
    let c3 = match parse_u32(digits.as_str()) {
        Ok(n) => n,
        Err(_) => {
            proof {
                crate::parser::lemma_scan_bounds(t@, p2 as int, CharClass::Digits);
                assert(all_digits(t@.subrange(p2 as int, e3 as int)));
            }
            return Err(ParseError::BadNumber);
        },
    };
    if e3 == t.unicode_len() - 1 && t.get_char(e3) == ')' {
        Ok(CSSValue::Color(ColorData::Rgb(c1, c2, c3)))
    } else {
        Err(ParseError::BadChar)
    }
}

/// Interprets the trimmed text of one declaration value.
fn value_from_text(t: &str) -> (r: Result<CSSValue, ParseError>)
    ensures
        match r {
            Ok(v) => spec_value_of_text(t@) == Ok::<ValueV, ParseError>(v@),
            Err(e) => spec_value_of_text(t@) == Err::<ValueV, ParseError>(e),
        },
{
    let n = t.unicode_len();
    if n >= 4 && str_eq(t.substring_char(0, 4), "rgb(") {
        rgb_from_text(t)
    } else if n > 0 && crate::text::is_digit(t.get_char(0)) {
        let nd = scan_exec(t, 0, CharClass::Digits);
        let digits = t.substring_char(0, nd).to_owned();
        let unit = t.substring_char(nd, n);
        let value = match parse_u32(digits.as_str()) {
            Ok(v) => v,
            Err(_) => {
                proof {
                    crate::parser::lemma_scan_bounds(t@, 0, CharClass::Digits);
                    assert(all_digits(t@.subrange(0, nd as int)));
                }
                return Err(ParseError::BadNumber);
            },
        };
        if str_eq(unit, "%") {
            Ok(CSSValue::Dimension(value, Unit::Percent))
        } else if str_eq(unit, "px") {
            Ok(CSSValue::Dimension(value, Unit::Px))
        } else {
            Err(ParseError::BadNumber)
        }
    } else {
        Ok(CSSValue::Keyword(t.to_owned()))
    }
}

/// Splits the raw text of a declaration value into its value and its
/// importance.
fn value_from_raw(raw: &str) -> (r: (Result<CSSValue, ParseError>, bool))
    ensures
        ({
            let (sv, simp) = spec_value_of_raw(raw@);
            r.1 == simp && (match r.0 {
                Ok(v) => sv == Ok::<ValueV, ParseError>(v@),
                Err(e) => sv == Err::<ValueV, ParseError>(e),
            })
        }),
{
    let t = trim(raw);
    let n = t.as_str().unicode_len();
    if n >= 10 && str_eq(t.as_str().substring_char(n - 10, n), "!important") {
        let head = trim(t.as_str().substring_char(0, n - 10));
        (value_from_text(head.as_str()), true)
    } else {
        (value_from_text(t.as_str()), false)
    }
}

impl CSSParser {
    pub closed spec fn spec_input(&self) -> Seq<char> {
        self.input@
    }

    pub closed spec fn spec_pos(&self) -> int {
        self.pos as int
    }

    pub open spec fn wf(&self) -> bool {
        0 <= self.spec_pos() <= self.spec_input().len()
    }

    pub fn new(input: &str) -> (r: CSSParser)
        ensures
            r.wf(),
            r.spec_input() == input@,
            r.spec_pos() == 0,
    {
        CSSParser { pos: 0, input: input.to_owned() }
    }

    fn eof(&self) -> (r: bool)
        requires
            self.wf(),
        ensures
            r == (self.spec_pos() == self.spec_input().len()),
    {
        self.pos >= self.input.as_str().unicode_len()
    }

    fn next_char(&self) -> (c: char)
        requires
            self.wf(),
            self.spec_pos() < self.spec_input().len(),
        ensures
            c == self.spec_input()[self.spec_pos()],
    {
        self.input.as_str().get_char(self.pos)
    }

    fn consume_char(&mut self) -> (r: Result<char, ParseError>)
        requires
            old(self).wf(),
        ensures
            final(self).wf(),
            final(self).spec_input() == old(self).spec_input(),
            match r {
                Ok(c) => old(self).spec_pos() < final(self).spec_input().len()
                    && c == final(self).spec_input()[old(self).spec_pos()]
                    && final(self).spec_pos() == old(self).spec_pos() + 1,
                Err(e) => e == ParseError::Eof
                    && old(self).spec_pos() == final(self).spec_input().len()
                    && final(self).spec_pos() == old(self).spec_pos(),
            },
    {
        if self.pos >= self.input.as_str().unicode_len() {
            return Err(ParseError::Eof);
        }
        let c = self.input.as_str().get_char(self.pos);
        self.pos = self.pos + 1;
        Ok(c)
    }

    /// Consumes one character that must be `expected`.
    fn expect_char(&mut self, expected: char) -> (r: Result<(), ParseError>)
        requires
            old(self).wf(),
        ensures
            final(self).wf(),
            final(self).spec_input() == old(self).spec_input(),
            old(self).spec_pos() <= final(self).spec_pos() <= old(self).spec_pos() + 1,
            match r {
                Ok(()) => crate::parser::spec_expect(
                    old(self).spec_input(),
                    old(self).spec_pos(),
                    expected,
                ) == Ok::<int, ParseError>(final(self).spec_pos()),
                Err(e) => crate::parser::spec_expect(
                    old(self).spec_input(),
                    old(self).spec_pos(),
                    expected,
                ) == Err::<int, ParseError>(e),
            },
    {
        match self.consume_char() {
            Ok(c) => {
                if c == expected {
                    Ok(())
                } else {
                    Err(ParseError::BadChar)
                }
            },
            Err(e) => Err(e),
        }
    }

    /// Consumes the run of `cls` characters at the position.
    fn consume_class(&mut self, cls: CharClass) -> (r: String)
        requires
            old(self).wf(),
        ensures
            final(self).wf(),
            final(self).spec_input() == old(self).spec_input(),
            final(self).spec_pos() == scan(final(self).spec_input(), old(self).spec_pos(), cls),
            old(self).spec_pos() <= final(self).spec_pos(),
            r@ == final(self).spec_input().subrange(old(self).spec_pos(), final(self).spec_pos()),
    {
        let end = scan_exec(self.input.as_str(), self.pos, cls);
        let r = self.input.as_str().substring_char(self.pos, end).to_owned();
        self.pos = end;
        r
    }

    fn consume_white_space(&mut self)
        requires
            old(self).wf(),
        ensures
            final(self).wf(),
            final(self).spec_input() == old(self).spec_input(),
            final(self).spec_pos() == scan(final(self).spec_input(), old(self).spec_pos(), CharClass::Space),
            old(self).spec_pos() <= final(self).spec_pos(),
    {
        let _ = self.consume_class(CharClass::Space);
    }

    fn parse_identifier(&mut self) -> (r: String)
        requires
            old(self).wf(),
        ensures
            final(self).wf(),
            final(self).spec_input() == old(self).spec_input(),
            final(self).spec_pos() == scan(final(self).spec_input(), old(self).spec_pos(), CharClass::Identifier),
            old(self).spec_pos() <= final(self).spec_pos(),
            r@ == final(self).spec_input().subrange(old(self).spec_pos(), final(self).spec_pos()),
    {
        self.consume_class(CharClass::Identifier)
    }

    /// Parses a property name: the identifier after any whitespace
    /// must be one of the supported property names.
    fn parse_property(&mut self) -> (r: Result<CSSProperty, ParseError>)
        requires
            old(self).wf(),
        ensures
            final(self).wf(),
            final(self).spec_input() == old(self).spec_input(),
            old(self).spec_pos() <= final(self).spec_pos(),
            ({
                let s = final(self).spec_input();
                let i1 = scan(s, old(self).spec_pos(), CharClass::Space);
                let i2 = scan(s, i1, CharClass::Identifier);
                final(self).spec_pos() == i2 && r == (match property_of_name(s.subrange(i1, i2)) {
                    Some(p) => Ok::<CSSProperty, ParseError>(p),
                    None => Err::<CSSProperty, ParseError>(ParseError::UnknownProperty),
                })
            }),
    {
        self.consume_white_space();
        let name = self.parse_identifier();
        match property_from_name(name.as_str()) {
            Some(p) => Ok(p),
            None => Err(ParseError::UnknownProperty),
        }
    }

    /// Parses an optional leading tag of a selector: absent when the
    /// selector starts with a class or id mark.
    fn parse_tag(&mut self) -> (r: Result<Option<TagType>, ParseError>)
        requires
            old(self).wf(),
            old(self).spec_pos() < old(self).spec_input().len(),
        ensures
            final(self).wf(),
            final(self).spec_input() == old(self).spec_input(),
            old(self).spec_pos() <= final(self).spec_pos(),
            ({
                let s = final(self).spec_input();
                let i0 = old(self).spec_pos();
                if s[i0] == '.' || s[i0] == '#' {
                    r == Ok::<Option<TagType>, ParseError>(None::<TagType>)
                        && final(self).spec_pos() == i0
                } else {
                    let i1 = scan(s, i0, CharClass::SelectorTag);
                    final(self).spec_pos() == i1 && r == (match tag_of_name(s.subrange(i0, i1)) {
                        Some(t) => Ok::<Option<TagType>, ParseError>(Some(t)),
                        None => Err::<Option<TagType>, ParseError>(ParseError::UnknownTag),
                    })
                }
            }),
    {
        let c = self.next_char();
        if c == '.' || c == '#' {
            return Ok(None);
        }
        let name = self.consume_class(CharClass::SelectorTag);
        match tag_from_name(name.as_str()) {
            Some(t) => Ok(Some(t)),
            None => Err(ParseError::UnknownTag),
        }
    }
}


impl CSSParser {
    /// Parses the comma-separated selectors before a rule's block:
    /// exactly the selectors the grammar denotes from this position.
    #[verifier::loop_isolation(false)]
    fn parse_selectors(&mut self) -> (r: Result<Vec<CSSSelector>, ParseError>)
        requires
            old(self).wf(),
        ensures
            final(self).wf(),
            final(self).spec_input() == old(self).spec_input(),
            old(self).spec_pos() <= final(self).spec_pos(),
            match r {
                Ok(sels) => spec_parse_selectors(old(self).spec_input(), old(self).spec_pos())
                    == Ok::<(Seq<SelectorV>, int), ParseError>(
                    (selector_views(sels@), final(self).spec_pos()),
                ),
                Err(e) => spec_parse_selectors(old(self).spec_input(), old(self).spec_pos())
                    == Err::<(Seq<SelectorV>, int), ParseError>(e),
            },
    {
        let ghost input = self.spec_input();
        let ghost start = self.spec_pos();
        let n = self.input.as_str().unicode_len();
        let mut selectors: Vec<CSSSelector> = Vec::new();
        self.consume_white_space();
        proof {
            crate::parser::lemma_scan_bounds(input, start, CharClass::Space);
            assert(scan(input, self.spec_pos(), CharClass::Space) == self.spec_pos());
            assert(selector_views(selectors@) =~= Seq::<SelectorV>::empty());
            assert(spec_parse_selectors(input, self.spec_pos()) == spec_parse_selectors(
                input,
                start,
            )) by {
                reveal_with_fuel(spec_parse_selectors, 2);
            }
        }
        while !self.eof() && self.next_char() != '{'
            invariant
                self.wf(),
                self.spec_input() == input,
                n == input.len(),
                start <= self.spec_pos(),
                scan(input, self.spec_pos(), CharClass::Space) == self.spec_pos(),
                self.spec_pos() < n ==> !crate::text::is_space_char(input[self.spec_pos()]),
                (match spec_parse_selectors(input, self.spec_pos()) {
                    Ok((rest, p)) => spec_parse_selectors(input, start) == Ok::<
                        (Seq<SelectorV>, int),
                        ParseError,
                    >((selector_views(selectors@) + rest, p)),
                    Err(e) => spec_parse_selectors(input, start) == Err::<
                        (Seq<SelectorV>, int),
                        ParseError,
                    >(e),
                }),
            decreases n - self.spec_pos(),
        {
            let ghost head = self.spec_pos();
            let tag: Option<TagType> = match self.parse_tag() {
                Ok(t) => t,
                Err(e) => {
                    proof {
                        assert(spec_parse_selectors(input, head) == Err::<
                            (Seq<SelectorV>, int),
                            ParseError,
                        >(e));
                    }
                    return Err(e);
                },
            };
            proof {
                crate::parser::lemma_scan_bounds(input, head, CharClass::SelectorTag);
                if !(input[head] == '.' || input[head] == '#') {
                    assert(class_allows(CharClass::SelectorTag, input[head]));
                    assert(self.spec_pos() > head);
                }
            }
            let ghost items_start = self.spec_pos();
            let mut class: Vec<String> = Vec::new();
            let mut id: Option<String> = None;
            let ghost gclasses = Seq::<Seq<char>>::empty();
            let ghost gid = None::<Seq<char>>;
            proof {
                assert(Seq::new(class@.len(), |t: int| class@[t]@) =~= gclasses);
            }
            while !self.eof()
                invariant
                    self.wf(),
                    self.spec_input() == input,
                    n == input.len(),
                    head < n,
                    items_start <= self.spec_pos(),
                    self.spec_pos() > head || (self.spec_pos() == head && (input[head] == '.'
                        || input[head] == '#')),
                    gclasses =~= Seq::new(class@.len(), |t: int| class@[t]@),
                    gid == (match id {
                        Some(v) => Some(v@),
                        None => None::<Seq<char>>,
                    }),
                    spec_selector_items(input, items_start, Seq::empty(), None)
                        == spec_selector_items(input, self.spec_pos(), gclasses, gid),
                decreases n - self.spec_pos(),
            {
                let ghost cur = self.spec_pos();
                let c = self.next_char();
                if c == '#' {
                    let _ = self.consume_char();
                    let ident = self.parse_identifier();
                    proof {
                        crate::parser::lemma_scan_bounds(input, cur + 1, CharClass::Identifier);
                        gid = Some(ident@);
                    }
                    id = Some(ident);
                } else if c == '.' {
                    let _ = self.consume_char();
                    let ident = self.parse_identifier();
                    proof {
                        crate::parser::lemma_scan_bounds(input, cur + 1, CharClass::Identifier);
                        gclasses = gclasses.push(ident@);
                    }
                    class.push(ident);
                    proof {
                        assert(gclasses =~= Seq::new(class@.len(), |t: int| class@[t]@));
                    }
                } else if c == ',' {
                    let _ = self.consume_char();
                    proof {
                        assert(self.spec_pos() > head);
                        assert(spec_selector_items(input, items_start, Seq::empty(), None) == (
                        gclasses,
                        gid,
                        self.spec_pos(),
                        ));
                    }
                    break ;
                } else {
                    proof {
                        assert(self.spec_pos() > head);
                        assert(spec_selector_items(input, items_start, Seq::empty(), None) == (
                        gclasses,
                        gid,
                        self.spec_pos(),
                        ));
                    }
                    break ;
                }
            }
            proof {
                assert(self.spec_pos() > head);
                assert(spec_selector_items(input, items_start, Seq::empty(), None) == (
                gclasses,
                gid,
                self.spec_pos(),
                ));
            }
            let ghost sel = SelectorV { tag, id: gid, classes: gclasses };
            let ghost j = self.spec_pos();
            proof {
                assert(spec_parse_selector(input, head) == Ok::<(SelectorV, int), ParseError>(
                    (sel, j),
                ));
            }
            let built = new_css_selector(tag, class, id);
            proof {
                assert(built@ =~= sel);
            }
            let ghost old_sels = selectors@;
            selectors.push(built);
            proof {
                assert(selectors@.drop_last() =~= old_sels);
            }
            let ghost before_ws = self.spec_pos();
            self.consume_white_space();
            proof {
                crate::parser::lemma_scan_bounds(input, before_ws, CharClass::Space);
                assert(scan(input, self.spec_pos(), CharClass::Space) == self.spec_pos());
                // the grammar from the selector's end agrees with the
                // grammar from the position after the trailing space
                assert(spec_parse_selectors(input, j) == spec_parse_selectors(
                    input,
                    self.spec_pos(),
                )) by {
                    reveal_with_fuel(spec_parse_selectors, 2);
                }
                // thread the just-parsed selector into the running list
                assert(spec_parse_selectors(input, head) == (match spec_parse_selectors(input, j) {
                    Ok((rest, p)) => Ok::<(Seq<SelectorV>, int), ParseError>(
                        (seq![sel] + rest, p),
                    ),
                    Err(e) => Err::<(Seq<SelectorV>, int), ParseError>(e),
                }));
                match spec_parse_selectors(input, self.spec_pos()) {
                    Ok((rest, p)) => {
                        assert(selector_views(selectors@) =~= selector_views(old_sels).push(sel));
                        assert(selector_views(old_sels) + (seq![sel] + rest) =~= selector_views(
                            selectors@,
                        ) + rest);
                    },
                    Err(_) => {},
                }
            }
        }
        proof {
            assert(spec_parse_selectors(input, self.spec_pos()) == Ok::<
                (Seq<SelectorV>, int),
                ParseError,
            >((Seq::empty(), self.spec_pos())));
            assert(selector_views(selectors@) + Seq::<SelectorV>::empty() =~= selector_views(
                selectors@,
            ));
        }
        Ok(selectors)
    }

    /// Parses the `property: value;` declarations of a rule's block:
    /// exactly the declarations the grammar denotes from this position.
    #[verifier::loop_isolation(false)]
    fn parse_declarations(&mut self) -> (r: Result<Vec<CSSDeclaration>, ParseError>)
        requires
            old(self).wf(),
        ensures
            final(self).wf(),
            final(self).spec_input() == old(self).spec_input(),
            old(self).spec_pos() <= final(self).spec_pos(),
            match r {
                Ok(decls) => spec_parse_declarations(old(self).spec_input(), old(self).spec_pos())
                    == Ok::<(Seq<DeclV>, int), ParseError>(
                    (decl_views(decls@), final(self).spec_pos()),
                ),
                Err(e) => spec_parse_declarations(old(self).spec_input(), old(self).spec_pos())
                    == Err::<(Seq<DeclV>, int), ParseError>(e),
            },
    {
        let ghost input = self.spec_input();
        let ghost start = self.spec_pos();
        let n = self.input.as_str().unicode_len();
        let mut declarations: Vec<CSSDeclaration> = Vec::new();
        self.consume_white_space();
        proof {
            crate::parser::lemma_scan_bounds(input, start, CharClass::Space);
            assert(scan(input, self.spec_pos(), CharClass::Space) == self.spec_pos());
            assert(decl_views(declarations@) =~= Seq::<DeclV>::empty());
            assert(spec_parse_declarations(input, self.spec_pos()) == spec_parse_declarations(
                input,
                start,
            )) by {
                reveal_with_fuel(spec_parse_declarations, 2);
            }
        }
        while !self.eof() && self.next_char() != '}'
            invariant
                self.wf(),
                self.spec_input() == input,
                n == input.len(),
                start <= self.spec_pos(),
                scan(input, self.spec_pos(), CharClass::Space) == self.spec_pos(),
                (match spec_parse_declarations(input, self.spec_pos()) {
                    Ok((rest, p)) => spec_parse_declarations(input, start) == Ok::<
                        (Seq<DeclV>, int),
                        ParseError,
                    >((decl_views(declarations@) + rest, p)),
                    Err(e) => spec_parse_declarations(input, start) == Err::<
                        (Seq<DeclV>, int),
                        ParseError,
                    >(e),
                }),
            decreases n - self.spec_pos(),
        {
            let ghost head = self.spec_pos();
            let property = match self.parse_property() {
                Ok(p) => p,
                Err(e) => {
                    return Err(e);
                },
            };
            let ghost pb = self.spec_pos();
            self.consume_white_space();
            let ghost pc = self.spec_pos();
            match self.expect_char(':') {
                Ok(()) => {},
                Err(e) => {
                    return Err(e);
                },
            }
            let ghost pd = self.spec_pos();
            let raw = self.consume_class(CharClass::NotSemicolon);
            let ghost pe = self.spec_pos();
            match self.expect_char(';') {
                Ok(()) => {},
                Err(e) => {
                    return Err(e);
                },
            }
            let ghost pf = self.spec_pos();
            let (vres, is_important) = value_from_raw(raw.as_str());
            let value = match vres {
                Ok(v) => v,
                Err(e) => {
                    return Err(e);
                },
            };
            let ghost decl = DeclV { property, value: value@, important: is_important };
            let built = new_css_declaration(property, value, is_important);
            let ghost old_decls = declarations@;
            declarations.push(built);
            proof {
                assert(declarations@.drop_last() =~= old_decls);
                assert(decl_views(declarations@) =~= decl_views(old_decls).push(decl));
            }
            self.consume_white_space();
            proof {
                crate::parser::lemma_scan_bounds(input, pf, CharClass::Space);
                assert(scan(input, self.spec_pos(), CharClass::Space) == self.spec_pos());
                assert(spec_parse_declarations(input, pf) == spec_parse_declarations(
                    input,
                    self.spec_pos(),
                )) by {
                    reveal_with_fuel(spec_parse_declarations, 2);
                }
                assert(spec_parse_declarations(input, head) == (
                match spec_parse_declarations(input, pf) {
                    Ok((rest, p)) => Ok::<(Seq<DeclV>, int), ParseError>((seq![decl] + rest, p)),
                    Err(e) => Err::<(Seq<DeclV>, int), ParseError>(e),
                }));
                match spec_parse_declarations(input, self.spec_pos()) {
                    Ok((rest, p)) => {
                        assert(decl_views(old_decls) + (seq![decl] + rest) =~= decl_views(
                            declarations@,
                        ) + rest);
                    },
                    Err(_) => {},
                }
            }
        }
        proof {
            assert(spec_parse_declarations(input, self.spec_pos()) == Ok::<
                (Seq<DeclV>, int),
                ParseError,
            >((Seq::empty(), self.spec_pos())));
            assert(decl_views(declarations@) + Seq::<DeclV>::empty() =~= decl_views(
                declarations@,
            ));
        }
        Ok(declarations)
    }

    /// Parses one rule: selectors, then a braced declaration block —
    /// exactly the rule the grammar denotes from this position.
    fn parse_rule(&mut self) -> (r: Result<CSSRule, ParseError>)
        requires
            old(self).wf(),
        ensures
            final(self).wf(),
            final(self).spec_input() == old(self).spec_input(),
            old(self).spec_pos() <= final(self).spec_pos(),
            match r {
                Ok(rule) => spec_parse_rule(old(self).spec_input(), old(self).spec_pos()) == Ok::<
                    (RuleV, int),
                    ParseError,
                >((rule@, final(self).spec_pos()))
                    && old(self).spec_pos() < final(self).spec_pos(),
                Err(e) => spec_parse_rule(old(self).spec_input(), old(self).spec_pos()) == Err::<
                    (RuleV, int),
                    ParseError,
                >(e),
            },
    {
        let selectors = match self.parse_selectors() {
            Ok(s) => s,
            Err(e) => {
                return Err(e);
            },
        };
        match self.expect_char('{') {
            Ok(()) => {},
            Err(e) => {
                return Err(e);
            },
        }
        let declarations = match self.parse_declarations() {
            Ok(d) => d,
            Err(e) => {
                return Err(e);
            },
        };
        self.consume_white_space();
        match self.expect_char('}') {
            Ok(()) => {},
            Err(e) => {
                return Err(e);
            },
        }
        let ghost sv = selector_views(selectors@);
        let ghost dv = decl_views(declarations@);
        let rule = new_css_rule(selectors, declarations);
        proof {
            assert(rule@ =~= (RuleV { selectors: sv, decls: dv }));
        }
        Ok(rule)
    }

    /// Parses a whole stylesheet: exactly the rules the grammar
    /// denotes, consuming all of the input on success.
    #[verifier::loop_isolation(false)]
    pub fn parse(&mut self) -> (r: Result<Stylesheet, ParseError>)
        requires
            old(self).wf(),
        ensures
            final(self).wf(),
            final(self).spec_input() == old(self).spec_input(),
            match r {
                Ok(sheet) => spec_parse_stylesheet(old(self).spec_input(), old(self).spec_pos())
                    == Ok::<(Seq<RuleV>, int), ParseError>((sheet@, final(self).spec_pos()))
                    && final(self).spec_pos() == final(self).spec_input().len(),
                Err(e) => spec_parse_stylesheet(old(self).spec_input(), old(self).spec_pos())
                    == Err::<(Seq<RuleV>, int), ParseError>(e),
            },
    {
        let ghost input = self.spec_input();
        let ghost start = self.spec_pos();
        let n = self.input.as_str().unicode_len();
        let mut stylesheet = Stylesheet::new(Vec::new());
        proof {
            assert(stylesheet@ =~= Seq::<RuleV>::empty());
        }
        self.consume_white_space();
        proof {
            crate::parser::lemma_scan_bounds(input, start, CharClass::Space);
            assert(scan(input, self.spec_pos(), CharClass::Space) == self.spec_pos());
            assert(spec_parse_stylesheet(input, self.spec_pos()) == spec_parse_stylesheet(
                input,
                start,
            )) by {
                reveal_with_fuel(spec_parse_stylesheet, 2);
            }
        }
        while !self.eof()
            invariant
                self.wf(),
                self.spec_input() == input,
                n == input.len(),
                start <= self.spec_pos(),
                scan(input, self.spec_pos(), CharClass::Space) == self.spec_pos(),
                (match spec_parse_stylesheet(input, self.spec_pos()) {
                    Ok((rest, p)) => spec_parse_stylesheet(input, start) == Ok::<
                        (Seq<RuleV>, int),
                        ParseError,
                    >((stylesheet@ + rest, p)),
                    Err(e) => spec_parse_stylesheet(input, start) == Err::<
                        (Seq<RuleV>, int),
                        ParseError,
                    >(e),
                }),
            decreases n - self.spec_pos(),
        {
            let ghost head = self.spec_pos();
            let rule = match self.parse_rule() {
                Ok(rule) => rule,
                Err(e) => {
                    return Err(e);
                },
            };
            let ghost rv = rule@;
            let ghost j = self.spec_pos();
            let ghost old_sheet = stylesheet@;
            stylesheet.add_rule(rule);
            self.consume_white_space();
            proof {
                crate::parser::lemma_scan_bounds(input, j, CharClass::Space);
                assert(scan(input, self.spec_pos(), CharClass::Space) == self.spec_pos());
                assert(spec_parse_stylesheet(input, j) == spec_parse_stylesheet(
                    input,
                    self.spec_pos(),
                )) by {
                    reveal_with_fuel(spec_parse_stylesheet, 2);
                }
                assert(spec_parse_stylesheet(input, head) == (
                match spec_parse_stylesheet(input, j) {
                    Ok((rest, p)) => Ok::<(Seq<RuleV>, int), ParseError>((seq![rv] + rest, p)),
                    Err(e) => Err::<(Seq<RuleV>, int), ParseError>(e),
                }));
                match spec_parse_stylesheet(input, self.spec_pos()) {
                    Ok((rest, p)) => {
                        assert(old_sheet + (seq![rv] + rest) =~= stylesheet@ + rest);
                    },
                    Err(_) => {},
                }
            }
        }
        proof {
            assert(spec_parse_stylesheet(input, self.spec_pos()) == Ok::<
                (Seq<RuleV>, int),
                ParseError,
            >((Seq::empty(), self.spec_pos())));
            assert(stylesheet@ + Seq::<RuleV>::empty() =~= stylesheet@);
        }
        Ok(stylesheet)
    }
}

impl IParser for CSSParser {
    type Output = Result<Stylesheet, ParseError>;

    fn new(input: &str) -> Self {
        CSSParser::new(input)
    }

    fn parse(&mut self) -> Self::Output {
        // a parser built by `new` always stands inside its input; the
        // check keeps this trait entry total for any value
        if self.pos > self.input.as_str().unicode_len() {
            return Err(ParseError::Eof);
        }
        CSSParser::parse(self)
    }
}


/// Printing a length and reading it back is the identity: the text a
/// dimension renders to denotes that same dimension.
pub proof fn lemma_length_round_trip(n: u32, u: Unit)
    ensures
        spec_value_of_text(crate::cssom::value_str(ValueV::Dimension(n, u))) == Ok::<
            ValueV,
            ParseError,
        >(ValueV::Dimension(n, u)),
{
    reveal_strlit("rgb(");
    reveal_strlit("px");
    reveal_strlit("%");
    let head = crate::cssom::dec_digits(n as int);
    let unit = crate::cssom::unit_str(u);
    let t = crate::cssom::value_str(ValueV::Dimension(n, u));
    crate::cssom::lemma_dec_digits_value(n as int);
    assert(t == head + unit);
    assert(t[0] == head[0]);
    assert(crate::text::is_digit_char(t[0]));
    if t.len() >= 4 {
        assert(t.subrange(0, 4) != "rgb("@) by {
            assert(t.subrange(0, 4)[0] == t[0]);
            assert(!crate::text::is_digit_char('r'));
        }
    }
    let nd = scan(t, 0, CharClass::Digits);
    assert(nd == head.len()) by {
        assert(unit[0] == 'p' || unit[0] == '%');
        assert(forall|k: int| 0 <= k < head.len() ==> t[k] == head[k]);
        assert(t[head.len() as int] == unit[0]);
        crate::parser::lemma_scan_agree(t, 0, head.len() as int, CharClass::Digits);
    }
    assert(t.subrange(0, nd) =~= head);
    assert(t.subrange(nd, t.len() as int) =~= unit);
    assert(crate::parser::digits_val(head) == n);
    if u == Unit::Percent {
        assert(unit == "%"@);
    } else {
        assert(unit == "px"@);
        assert(unit != "%"@) by {
            assert(unit.len() == 2);
        }
    }
}


/// A property's printed name reads back as that property.
pub proof fn lemma_property_name_round_trip(p: CSSProperty)
    ensures
        property_of_name(crate::cssom::property_str(p)) == Some(p),
{
    reveal_strlit("display");
    reveal_strlit("padding");
    reveal_strlit("background");
    reveal_strlit("color");
    reveal_strlit("width");
    reveal_strlit("height");
    assert("display"@[0] == 'd');
    assert("padding"@[0] == 'p');
    assert("background"@[0] == 'b');
    assert("color"@[0] == 'c');
    assert("width"@[0] == 'w');
    assert("height"@[0] == 'h');
}

/// A tag's printed name reads back as that tag.
pub proof fn lemma_tag_name_round_trip(t: TagType)
    ensures
        tag_of_name(crate::dom::tag_str(t)) == Some(t),
{
    reveal_strlit("html");
    reveal_strlit("div");
    reveal_strlit("p");
    reveal_strlit("span");
    reveal_strlit("style");
    assert("html"@[0] == 'h');
    assert("div"@[0] == 'd');
    assert("p"@[0] == 'p');
    assert("span"@[0] == 's');
    assert("style"@[0] == 's');
    assert("span"@.len() == 4 && "style"@.len() == 5);
}


// --- the stylesheet grammar, at spec level ---
//
// Each function takes the input characters and a position and returns
// what the exec parser returns from there, with the position after
// it. The guards before each recursive call only restate what the
// scan bounds guarantee, so the recursion visibly advances.

/// The id and class items after a selector's tag: `#name` sets the
/// id, `.name` appends a class, a comma ends the selector and is
/// consumed, anything else ends it unconsumed.
pub open spec fn spec_selector_items(
    s: Seq<char>,
    i: int,
    classes: Seq<Seq<char>>,
    id: Option<Seq<char>>,
) -> (Seq<Seq<char>>, Option<Seq<char>>, int)
    decreases s.len() - i,
{
    if !(0 <= i < s.len()) {
        (classes, id, i)
    } else if s[i] == '#' {
        let j = scan(s, i + 1, CharClass::Identifier);
        if i + 1 <= j <= s.len() {
            spec_selector_items(s, j, classes, Some(s.subrange(i + 1, j)))
        } else {
            (classes, id, i)
        }
    } else if s[i] == '.' {
        let j = scan(s, i + 1, CharClass::Identifier);
        if i + 1 <= j <= s.len() {
            spec_selector_items(s, j, classes.push(s.subrange(i + 1, j)), id)
        } else {
            (classes, id, i)
        }
    } else if s[i] == ',' {
        (classes, id, i + 1)
    } else {
        (classes, id, i)
    }
}

/// One selector at position `i` (on a non-space character): its view
/// and the position after it.
pub open spec fn spec_parse_selector(s: Seq<char>, i: int) -> Result<(SelectorV, int), ParseError> {
    if !(0 <= i < s.len()) {
        Err(ParseError::Eof)
    } else if s[i] == '.' || s[i] == '#' {
        let (classes, id, j) = spec_selector_items(s, i, Seq::empty(), None);
        Ok((SelectorV { tag: None, id, classes }, j))
    } else {
        let j0 = scan(s, i, CharClass::SelectorTag);
        match tag_of_name(s.subrange(i, j0)) {
            Some(t) => {
                let (classes, id, j) = spec_selector_items(s, j0, Seq::empty(), None);
                Ok((SelectorV { tag: Some(t), id, classes }, j))
            },
            None => Err(ParseError::UnknownTag),
        }
    }
}

/// The selectors before a rule's block, whitespace skipped around
/// them, ending at the block opener or the end of input.
pub open spec fn spec_parse_selectors(s: Seq<char>, i: int) -> Result<
    (Seq<SelectorV>, int),
    ParseError,
>
    decreases s.len() - i,
{
    let i1 = scan(s, i, CharClass::Space);
    if !(i <= i1 <= s.len()) {
        Err(ParseError::BadChar)
    } else if i1 == s.len() || s[i1] == '{' {
        Ok((Seq::empty(), i1))
    } else {
        match spec_parse_selector(s, i1) {
            Ok((sel, j)) => if i1 < j <= s.len() {
                match spec_parse_selectors(s, j) {
                    Ok((rest, p)) => Ok((seq![sel] + rest, p)),
                    Err(e) => Err(e),
                }
            } else {
                Err(ParseError::BadChar)
            },
            Err(e) => Err(e),
        }
    }
}

/// The declarations of a rule's block, whitespace skipped around
/// them, ending at the block closer or the end of input.
pub open spec fn spec_parse_declarations(s: Seq<char>, i: int) -> Result<
    (Seq<DeclV>, int),
    ParseError,
>
    decreases s.len() - i,
{
    let i1 = scan(s, i, CharClass::Space);
    if !(i <= i1 <= s.len()) {
        Err(ParseError::BadChar)
    } else if i1 == s.len() || s[i1] == '}' {
        Ok((Seq::empty(), i1))
    } else {
        let pa = scan(s, i1, CharClass::Space);
        let pb = scan(s, pa, CharClass::Identifier);
        match property_of_name(s.subrange(pa, pb)) {
            None => Err(ParseError::UnknownProperty),
            Some(property) => {
                let pc = scan(s, pb, CharClass::Space);
                match crate::parser::spec_expect(s, pc, ':') {
                    Err(e) => Err(e),
                    Ok(pd) => {
                        let pe = scan(s, pd, CharClass::NotSemicolon);
                        match crate::parser::spec_expect(s, pe, ';') {
                            Err(e) => Err(e),
                            Ok(pf) => {
                                let (vres, important) = spec_value_of_raw(s.subrange(pd, pe));
                                match vres {
                                    Err(e) => Err(e),
                                    Ok(value) => if i1 < pf <= s.len() {
                                        match spec_parse_declarations(s, pf) {
                                            Ok((rest, p)) => Ok(
                                                (
                                                    seq![
                                                        DeclV { property, value, important },
                                                    ] + rest,
                                                    p,
                                                ),
                                            ),
                                            Err(e) => Err(e),
                                        }
                                    } else {
                                        Err(ParseError::BadChar)
                                    },
                                }
                            },
                        }
                    },
                }
            },
        }
    }
}

/// One rule: its selectors, then its braced declaration block.
pub open spec fn spec_parse_rule(s: Seq<char>, i: int) -> Result<(RuleV, int), ParseError> {
    match spec_parse_selectors(s, i) {
        Err(e) => Err(e),
        Ok((selectors, j)) => match crate::parser::spec_expect(s, j, '{') {
            Err(e) => Err(e),
            Ok(k) => match spec_parse_declarations(s, k) {
                Err(e) => Err(e),
                Ok((decls, m)) => {
                    let m1 = scan(s, m, CharClass::Space);
                    match crate::parser::spec_expect(s, m1, '}') {
                        Err(e) => Err(e),
                        Ok(p) => Ok((RuleV { selectors, decls }, p)),
                    }
                },
            },
        },
    }
}

/// A whole stylesheet: rules until the input ends.
pub open spec fn spec_parse_stylesheet(s: Seq<char>, i: int) -> Result<
    (Seq<RuleV>, int),
    ParseError,
>
    decreases s.len() - i,
{
    let i1 = scan(s, i, CharClass::Space);
    if !(i <= i1 <= s.len()) {
        Err(ParseError::BadChar)
    } else if i1 == s.len() {
        Ok((Seq::empty(), i1))
    } else {
        match spec_parse_rule(s, i1) {
            Err(e) => Err(e),
            Ok((rule, j)) => if i1 < j <= s.len() {
                match spec_parse_stylesheet(s, j) {
                    Ok((rest, p)) => Ok((seq![rule] + rest, p)),
                    Err(e) => Err(e),
                }
            } else {
                Err(ParseError::BadChar)
            },
        }
    }
}

/// The views of a selector list, in order.
pub open spec fn selector_views(v: Seq<CSSSelector>) -> Seq<SelectorV> {
    Seq::new(v.len(), |i: int| v[i]@)
}

/// The views of a declaration list, in order.
pub open spec fn decl_views(v: Seq<CSSDeclaration>) -> Seq<DeclV> {
    Seq::new(v.len(), |i: int| v[i]@)
}

} // verus!
