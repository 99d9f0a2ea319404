//! The CSS object model: stylesheets, rules, simple selectors,
//! declarations and values, with their ghost views.
use vstd::prelude::*;
use vstd::string::StringExecFns;

use crate::dom::{tag_str, TagType};

verus! {

/// Selector strength: (id present, class count, tag present), compared
/// lexicographically, highest wins.
pub type CSSSpecifity = (usize, usize, usize);

#[derive(Debug)]
pub struct Stylesheet {
    pub rules: Vec<CSSRule>,
}

#[derive(Debug)]
pub struct CSSRule {
    pub selectors: Vec<CSSSelector>,
    pub declarations: Vec<CSSDeclaration>,
}

#[derive(Debug)]
pub enum CSSSelector {
    SimpleSelector(SimpleSelector),
}

#[derive(Debug)]
pub struct SimpleSelector {
    pub tag: Option<TagType>,
    pub id: Option<String>,
    pub class: Vec<String>,
}

#[derive(Debug)]
pub struct CSSDeclaration {
    pub property: CSSProperty,
    pub value: CSSValue,
    pub is_important: bool,
}

#[derive(Debug, PartialEq, Eq, Hash, Clone, Copy, Structural)]
pub enum CSSProperty {
    Display,
    Padding,
    Background,
    Color,
    Width,
    Height,
}

#[derive(Debug, Clone, Copy, PartialEq, Eq, Structural)]
pub enum Unit {
    Px,
    Percent,
}

#[derive(Debug)]
pub enum ColorData {
    Rgb(u32, u32, u32),
    Hex(String),
}

/// A property value. Lengths are whole pixel or percent counts.
#[derive(Debug)]
pub enum CSSValue {
    Dimension(u32, Unit),
    Keyword(String),
    Color(ColorData),
}

#[verifier::ext_equal]
pub enum ColorV {
    Rgb(u32, u32, u32),
    Hex(Seq<char>),
}

#[verifier::ext_equal]
pub enum ValueV {
    Dimension(u32, Unit),
    Keyword(Seq<char>),
    Color(ColorV),
}

#[verifier::ext_equal]
pub struct SelectorV {
    pub tag: Option<TagType>,
    pub id: Option<Seq<char>>,
    pub classes: Seq<Seq<char>>,
}

#[verifier::ext_equal]
pub struct DeclV {
    pub property: CSSProperty,
    pub value: ValueV,
    pub important: bool,
}

#[verifier::ext_equal]
pub struct RuleV {
    pub selectors: Seq<SelectorV>,
    pub decls: Seq<DeclV>,
}

impl View for ColorData {
    type V = ColorV;

    open spec fn view(&self) -> ColorV {
        match self {
            ColorData::Rgb(r, g, b) => ColorV::Rgb(*r, *g, *b),
            ColorData::Hex(s) => ColorV::Hex(s@),
        }
    }
}

impl View for CSSValue {
    type V = ValueV;

    open spec fn view(&self) -> ValueV {
        match self {
            CSSValue::Dimension(n, u) => ValueV::Dimension(*n, *u),
            CSSValue::Keyword(s) => ValueV::Keyword(s@),
            CSSValue::Color(c) => ValueV::Color(c@),
        }
    }
}

impl View for CSSSelector {
    type V = SelectorV;

    open spec fn view(&self) -> SelectorV {
        match self {
            CSSSelector::SimpleSelector(s) => SelectorV {
                tag: s.tag,
                id: match &s.id {
                    Some(id) => Some(id@),
                    None => None,
                },
                classes: Seq::new(s.class@.len(), |i: int| s.class@[i]@),
            },
        }
    }
}

impl View for CSSDeclaration {
    type V = DeclV;

    open spec fn view(&self) -> DeclV {
        DeclV { property: self.property, value: self.value@, important: self.is_important }
    }
}

impl View for CSSRule {
    type V = RuleV;

    open spec fn view(&self) -> RuleV {
        RuleV {
            selectors: Seq::new(self.selectors@.len(), |i: int| self.selectors@[i]@),
            decls: Seq::new(self.declarations@.len(), |i: int| self.declarations@[i]@),
        }
    }
}

impl View for Stylesheet {
    type V = Seq<RuleV>;

    open spec fn view(&self) -> Seq<RuleV> {
        Seq::new(self.rules@.len(), |i: int| self.rules@[i]@)
    }
}

impl Stylesheet {
    pub fn new(rules: Vec<CSSRule>) -> (r: Stylesheet)
        ensures
            r@.len() == rules@.len(),
            forall|k: int| 0 <= k < rules@.len() ==> r@[k] == rules@[k]@,
    {
        Stylesheet { rules }
    }

    pub fn add_rule(&mut self, rule: CSSRule)
        ensures
            final(self)@ =~= old(self)@.push(rule@),
    {
        self.rules.push(rule);
        proof {
            assert(self@ =~= old(self)@.push(rule@));
        }
    }
}

/// The specificity triple of a selector's ghost view.
pub open spec fn spec_specificity(s: SelectorV) -> (int, int, int) {
    (
        if s.id is Some {
            1int
        } else {
            0int
        },
        s.classes.len() as int,
        if s.tag is Some {
            1int
        } else {
            0int
        },
    )
}

/// Lexicographic order on specificity triples.
pub open spec fn spec3_le(a: (int, int, int), b: (int, int, int)) -> bool {
    a.0 < b.0 || (a.0 == b.0 && (a.1 < b.1 || (a.1 == b.1 && a.2 <= b.2)))
}

impl CSSSelector {
    pub fn specificity(&self) -> (r: CSSSpecifity)
        ensures
            (r.0 as int, r.1 as int, r.2 as int) == spec_specificity(self@),
    {
        let CSSSelector::SimpleSelector(selector) = self;
        let a: usize = if selector.id.is_some() {
            1
        } else {
            0
        };
        let b: usize = selector.class.len();
        let c: usize = if selector.tag.is_some() {
            1
        } else {
            0
        };
        (a, b, c)
    }
}

impl CSSProperty {
    /// The fixed fallback for a property left unset by every matching
    /// rule. Geometry fallbacks: padding is a zero length, while width
    /// and height stay keywords so the layout pass can substitute the
    /// container width and the accumulated content height.
    pub open spec fn spec_default(self) -> ValueV {
        match self {
            CSSProperty::Display => ValueV::Keyword("block"@),
            CSSProperty::Padding => ValueV::Dimension(0, Unit::Px),
            CSSProperty::Background => ValueV::Keyword("transparent"@),
            CSSProperty::Color => ValueV::Keyword("black"@),
            CSSProperty::Width => ValueV::Keyword("auto"@),
            CSSProperty::Height => ValueV::Keyword("auto"@),
        }
    }

    pub fn default_value(&self) -> (r: CSSValue)
        ensures
            r@ == self.spec_default(),
    {
        match self {
            CSSProperty::Display => CSSValue::Keyword("block".to_owned()),
            CSSProperty::Padding => CSSValue::Dimension(0, Unit::Px),
            CSSProperty::Background => CSSValue::Keyword("transparent".to_owned()),
            CSSProperty::Color => CSSValue::Keyword("black".to_owned()),
            CSSProperty::Width => CSSValue::Keyword("auto".to_owned()),
            CSSProperty::Height => CSSValue::Keyword("auto".to_owned()),
        }
    }
}

impl ColorData {
    pub fn duplicate(&self) -> (r: ColorData)
        ensures
            r@ == self@,
    {
        match self {
            ColorData::Rgb(a, b, c) => ColorData::Rgb(*a, *b, *c),
            ColorData::Hex(s) => ColorData::Hex(s.clone()),
        }
    }
}

impl CSSValue {
    pub fn duplicate(&self) -> (r: CSSValue)
        ensures
            r@ == self@,
    {
        match self {
            CSSValue::Dimension(n, u) => CSSValue::Dimension(*n, *u),
            CSSValue::Keyword(s) => CSSValue::Keyword(s.clone()),
            CSSValue::Color(c) => CSSValue::Color(c.duplicate()),
        }
    }
}

pub fn new_css_rule(selectors: Vec<CSSSelector>, declarations: Vec<CSSDeclaration>) -> (r:
    CSSRule)
    ensures
        r@.selectors.len() == selectors@.len(),
        forall|k: int| 0 <= k < selectors@.len() ==> r@.selectors[k] == selectors@[k]@,
        r@.decls.len() == declarations@.len(),
        forall|k: int| 0 <= k < declarations@.len() ==> r@.decls[k] == declarations@[k]@,
{
    CSSRule { selectors, declarations }
}

pub fn new_css_declaration(property: CSSProperty, value: CSSValue, is_important: bool) -> (r:
    CSSDeclaration)
    ensures
        r@ == (DeclV { property, value: value@, important: is_important }),
{
    CSSDeclaration { property, value, is_important }
}

pub fn new_css_selector(tag: Option<TagType>, class: Vec<String>, id: Option<String>) -> (r:
    CSSSelector)
    ensures
        r@.tag == tag,
        r@.id == (match id {
            Some(s) => Some(s@),
            None => None::<Seq<char>>,
        }),
        r@.classes.len() == class@.len(),
        forall|k: int| 0 <= k < class@.len() ==> r@.classes[k] == class@[k]@,
{
    CSSSelector::SimpleSelector(SimpleSelector { tag, id, class })
}


// --- source text of the object model ---

pub open spec fn digit_str(d: int) -> Seq<char> {
    if d == 0 {
        "0"@
    } else if d == 1 {
        "1"@
    } else if d == 2 {
        "2"@
    } else if d == 3 {
        "3"@
    } else if d == 4 {
        "4"@
    } else if d == 5 {
        "5"@
    } else if d == 6 {
        "6"@
    } else if d == 7 {
        "7"@
    } else {
        "8"@
    }
}

/// The decimal digits of a number.
pub open spec fn dec_digits(n: int) -> Seq<char>
    decreases n,
{
    if n < 0 {
        Seq::empty()
    } else if n < 9 {
        digit_str(n)
    } else if n == 9 {
        "9"@
    } else if n % 10 == 9 {
        dec_digits(n / 10) + "9"@
    } else {
        dec_digits(n / 10) + digit_str(n % 10)
    }
}

/// Appends the decimal digits of `n`.
fn push_u32(out: &mut String, n: u32)
    ensures
        final(out)@ == old(out)@ + dec_digits(n as int),
    decreases n,
{
    if n >= 10 {
        push_u32(out, n / 10);
    }
    let d = n % 10;
    match d {
        0 => out.append("0"),
        1 => out.append("1"),
        2 => out.append("2"),
        3 => out.append("3"),
        4 => out.append("4"),
        5 => out.append("5"),
        6 => out.append("6"),
        7 => out.append("7"),
        8 => out.append("8"),
        _ => out.append("9"),
    }
}

pub open spec fn unit_str(u: Unit) -> Seq<char> {
    match u {
        Unit::Px => "px"@,
        Unit::Percent => "%"@,
    }
}

pub open spec fn property_str(p: CSSProperty) -> Seq<char> {
    match p {
        CSSProperty::Display => "display"@,
        CSSProperty::Padding => "padding"@,
        CSSProperty::Background => "background"@,
        CSSProperty::Color => "color"@,
        CSSProperty::Width => "width"@,
        CSSProperty::Height => "height"@,
    }
}

pub open spec fn value_str(v: ValueV) -> Seq<char> {
    match v {
        ValueV::Dimension(n, u) => dec_digits(n as int) + unit_str(u),
        ValueV::Keyword(s) => s,
        ValueV::Color(ColorV::Hex(s)) => s,
        ValueV::Color(ColorV::Rgb(r, g, b)) => "rgb("@ + dec_digits(r as int) + ", "@ + dec_digits(
            g as int,
        ) + ", "@ + dec_digits(b as int) + ")"@,
    }
}

pub open spec fn declaration_str(d: DeclV) -> Seq<char> {
    property_str(d.property) + ": "@ + value_str(d.value) + (if d.important {
        " !important"@
    } else {
        Seq::<char>::empty()
    }) + ";"@
}

/// The class part of a selector: each class behind a dot.
pub open spec fn classes_str(cs: Seq<Seq<char>>) -> Seq<char>
    decreases cs.len(),
{
    if cs.len() == 0 {
        Seq::empty()
    } else {
        classes_str(cs.drop_last()) + "."@ + cs.last()
    }
}

pub open spec fn selector_str(s: SelectorV) -> Seq<char> {
    (match s.tag {
        Some(t) => tag_str(t),
        None => Seq::<char>::empty(),
    }) + (match s.id {
        Some(id) => "#"@ + id,
        None => Seq::<char>::empty(),
    }) + classes_str(s.classes)
}

/// The selector list, comma-and-newline separated.
pub open spec fn selectors_str(ss: Seq<SelectorV>) -> Seq<char>
    decreases ss.len(),
{
    if ss.len() == 0 {
        Seq::empty()
    } else if ss.len() == 1 {
        selector_str(ss.last())
    } else {
        selectors_str(ss.drop_last()) + ",\n"@ + selector_str(ss.last())
    }
}

/// The declaration block, one tabbed line each.
pub open spec fn decls_str(ds: Seq<DeclV>) -> Seq<char>
    decreases ds.len(),
{
    if ds.len() == 0 {
        Seq::empty()
    } else {
        decls_str(ds.drop_last()) + "\t"@ + declaration_str(ds.last()) + "\n"@
    }
}

pub open spec fn rule_str(r: RuleV) -> Seq<char> {
    selectors_str(r.selectors) + " {\n"@ + decls_str(r.decls) + "}\n"@
}

pub open spec fn sheet_str(rules: Seq<RuleV>) -> Seq<char>
    decreases rules.len(),
{
    if rules.len() == 0 {
        Seq::empty()
    } else {
        sheet_str(rules.drop_last()) + rule_str(rules.last())
    }
}

impl Unit {
    /// The unit's source suffix.
    pub fn to_css_string(&self) -> (r: String)
        ensures
            r@ == unit_str(*self),
    {
        match self {
            Unit::Px => "px".to_owned(),
            Unit::Percent => "%".to_owned(),
        }
    }
}

impl CSSProperty {
    /// The property's source name.
    pub fn to_css_string(&self) -> (r: String)
        ensures
            r@ == property_str(*self),
    {
        match self {
            CSSProperty::Display => "display".to_owned(),
            CSSProperty::Padding => "padding".to_owned(),
            CSSProperty::Background => "background".to_owned(),
            CSSProperty::Color => "color".to_owned(),
            CSSProperty::Width => "width".to_owned(),
            CSSProperty::Height => "height".to_owned(),
        }
    }
}

impl CSSValue {
    /// The value's source text.
    pub fn to_css_string(&self) -> (r: String)
        ensures
            r@ == value_str(self@),
    {
        let mut out = String::new();
        match self {
            CSSValue::Dimension(n, u) => {
                push_u32(&mut out, *n);
                let unit = u.to_css_string();
                out.append(unit.as_str());
            },
            CSSValue::Keyword(s) => {
                out.append(s.as_str());
            },
            CSSValue::Color(ColorData::Hex(s)) => {
                out.append(s.as_str());
            },
            CSSValue::Color(ColorData::Rgb(cr, cg, cb)) => {
                out.append("rgb(");
                push_u32(&mut out, *cr);
                out.append(", ");
                push_u32(&mut out, *cg);
                out.append(", ");
                push_u32(&mut out, *cb);
                out.append(")");
            },
        }
        out
    }
}

impl CSSDeclaration {
    /// The declaration's source line, semicolon included.
    pub fn to_css_string(&self) -> (r: String)
        ensures
            r@ == declaration_str(self@),
    {
        let mut out = self.property.to_css_string();
        out.append(": ");
        let value = self.value.to_css_string();
        out.append(value.as_str());
        if self.is_important {
            out.append(" !important");
        }
        out.append(";");
        out
    }
}

impl CSSSelector {
    /// The selector's source text.
    pub fn to_css_string(&self) -> (r: String)
        ensures
            r@ == selector_str(self@),
    {
        let CSSSelector::SimpleSelector(simple) = self;
        let mut out = String::new();
        match &simple.tag {
            Some(t) => {
                let name = t.to_css_string();
                out.append(name.as_str());
            },
            None => {},
        }
        match &simple.id {
            Some(id) => {
                out.append("#");
                out.append(id.as_str());
            },
            None => {},
        }
        let ghost classes = self@.classes;
        let mut k: usize = 0;
        let ghost head = out@;
        while k < simple.class.len()
            invariant
                0 <= k <= simple.class.len(),
                classes.len() == simple.class@.len(),
                forall|j: int| 0 <= j < classes.len() ==> classes[j] == simple.class@[j]@,
                out@ == head + classes_str(classes.subrange(0, k as int)),
            decreases simple.class.len() - k,
        {
            proof {
                assert(classes.subrange(0, k as int + 1).drop_last() =~= classes.subrange(
                    0,
                    k as int,
                ));
                assert(classes.subrange(0, k as int + 1).last() == classes[k as int]);
            }
            out.append(".");
            out.append(simple.class[k].as_str());
            k = k + 1;
        }
        proof {
            assert(classes.subrange(0, classes.len() as int) =~= classes);
            assert(classes_str(classes.subrange(0, 0)) =~= Seq::<char>::empty());
        }
        out
    }
}

impl CSSRule {
    /// The rule's source text: selectors, then a braced block.
    pub fn to_css_string(&self) -> (r: String)
        ensures
            r@ == rule_str(self@),
    {
        let mut out = String::new();
        let ghost sels = self@.selectors;
        let mut k: usize = 0;
        while k < self.selectors.len()
            invariant
                0 <= k <= self.selectors.len(),
                sels.len() == self.selectors@.len(),
                forall|j: int| 0 <= j < sels.len() ==> sels[j] == self.selectors@[j]@,
                out@ == selectors_str(sels.subrange(0, k as int)),
            decreases self.selectors.len() - k,
        {
            proof {
                assert(sels.subrange(0, k as int + 1).drop_last() =~= sels.subrange(0, k as int));
                assert(sels.subrange(0, k as int + 1).last() == sels[k as int]);
            }
            if k > 0 {
                out.append(",\n");
            }
            let sel = self.selectors[k].to_css_string();
            out.append(sel.as_str());
            k = k + 1;
        }
        proof {
            assert(sels.subrange(0, sels.len() as int) =~= sels);
        }
        out.append(" {\n");
        let ghost mid = out@;
        let ghost ds = self@.decls;
        let mut j: usize = 0;
        while j < self.declarations.len()
            invariant
                0 <= j <= self.declarations.len(),
                ds.len() == self.declarations@.len(),
                forall|t: int| 0 <= t < ds.len() ==> ds[t] == self.declarations@[t]@,
                out@ == mid + decls_str(ds.subrange(0, j as int)),
            decreases self.declarations.len() - j,
        {
            proof {
                assert(ds.subrange(0, j as int + 1).drop_last() =~= ds.subrange(0, j as int));
                assert(ds.subrange(0, j as int + 1).last() == ds[j as int]);
            }
            out.append("\t");
            let line = self.declarations[j].to_css_string();
            out.append(line.as_str());
            out.append("\n");
            j = j + 1;
        }
        proof {
            assert(ds.subrange(0, ds.len() as int) =~= ds);
            assert(decls_str(ds.subrange(0, 0)) =~= Seq::<char>::empty());
        }
        out.append("}\n");
        out
    }
}

impl Stylesheet {
    /// The stylesheet's source text: its rules in order.
    pub fn to_css_string(&self) -> (r: String)
        ensures
            r@ == sheet_str(self@),
    {
        let mut out = String::new();
        let ghost rs = self@;
        let mut k: usize = 0;
        while k < self.rules.len()
            invariant
                0 <= k <= self.rules.len(),
                rs.len() == self.rules@.len(),
                forall|j: int| 0 <= j < rs.len() ==> rs[j] == self.rules@[j]@,
                out@ == sheet_str(rs.subrange(0, k as int)),
            decreases self.rules.len() - k,
        {
            proof {
                assert(rs.subrange(0, k as int + 1).drop_last() =~= rs.subrange(0, k as int));
                assert(rs.subrange(0, k as int + 1).last() == rs[k as int]);
            }
            let rule = self.rules[k].to_css_string();
            out.append(rule.as_str());
            k = k + 1;
        }
        proof {
            assert(rs.subrange(0, rs.len() as int) =~= rs);
        }
        out
    }
}

impl Default for Stylesheet {
    /// An empty stylesheet.
    fn default() -> (r: Stylesheet)
        ensures
            r@ =~= Seq::<RuleV>::empty(),
    {
        let r = Stylesheet { rules: Vec::new() };
        proof {
            assert(r@ =~= Seq::<RuleV>::empty());
        }
        r
    }
}


/// The decimal digits of a number read back as that number: printing
/// then parsing is the identity.
pub proof fn lemma_dec_digits_value(n: int)
    requires
        n >= 0,
    ensures
        crate::parser::all_digits(dec_digits(n)),
        dec_digits(n).len() > 0,
        crate::text::is_digit_char(dec_digits(n)[0]),
        crate::parser::digits_val(dec_digits(n)) == n,
    decreases n,
{
    reveal_strlit("0");
    reveal_strlit("1");
    reveal_strlit("2");
    reveal_strlit("3");
    reveal_strlit("4");
    reveal_strlit("5");
    reveal_strlit("6");
    reveal_strlit("7");
    reveal_strlit("8");
    reveal_strlit("9");
    if n <= 9 {
        let d = dec_digits(n);
        assert(d.len() == 1);
        assert(d.drop_last() =~= Seq::<char>::empty());
        assert(crate::parser::digits_val(Seq::<char>::empty()) == 0);
        assert(d.last() == d[0]);
        assert(crate::parser::digits_val(d) == d[0] as u32 - 48);
    } else {
        lemma_dec_digits_value(n / 10);
        let head = dec_digits(n / 10);
        let tail = if n % 10 == 9 {
            "9"@
        } else {
            digit_str(n % 10)
        };
        assert(tail.len() == 1);
        assert(tail[0] as u32 - 48 == n % 10);
        let whole = head + tail;
        assert(dec_digits(n) == whole);
        assert(whole.drop_last() =~= head);
        assert(whole.last() == tail[0]);
        assert(crate::parser::digits_val(whole) == crate::parser::digits_val(head) * 10 + (n % 10));
        assert(crate::parser::all_digits(whole)) by {
            assert(forall|k: int| 0 <= k < head.len() ==> whole[k] == head[k]);
        }
        assert(crate::parser::digits_val(whole) == n);
    }
}

} // verus!
