//! The style resolver: matches stylesheet rules against document
//! elements and merges declarations by cascade order into a resolved
//! property map per node.
//!
//! The cascade is specified directly: among all declarations for a
//! property whose rule matches the element, the winner is the one with
//! the greatest key `(important, specificity, rule index, declaration
//! index)`, compared lexicographically.
use vstd::prelude::*;

use crate::cssom::{
    spec3_le, spec_specificity, CSSDeclaration, CSSProperty, CSSRule, CSSSelector, CSSSpecifity,
    CSSValue, DeclV, RuleV, SelectorV, SimpleSelector, Stylesheet, ValueV,
};
use crate::dom::{
    elem_has_class, elem_id, node_tag, DomNode, ElemV, ElementData, NodeKindV, NodeType, NodeV,
    TagType,
};
use crate::text::string_eq_str;

verus! {

#[derive(Debug, PartialEq, Eq, Clone, Copy, Structural)]
pub enum Display {
    Block,
    Inline,
    Hidden,
}

/// A resolved property map: one value and importance flag per
/// property; the earliest entry for a property is its binding.
#[derive(Debug)]
pub struct PropertyMap {
    entries: Vec<(CSSProperty, CSSValue, bool)>,
}

/// First-match lookup in a property entry list.
pub open spec fn props_get(s: Seq<(CSSProperty, ValueV, bool)>, p: CSSProperty) -> Option<
    (ValueV, bool),
>
    decreases s.len(),
{
    if s.len() == 0 {
        None
    } else if s[0].0 == p {
        Some((s[0].1, s[0].2))
    } else {
        props_get(s.drop_first(), p)
    }
}

impl View for PropertyMap {
    type V = Seq<(CSSProperty, ValueV, bool)>;

    closed spec fn view(&self) -> Seq<(CSSProperty, ValueV, bool)> {
        Seq::new(self.entries@.len(), |i: int| (self.entries@[i].0, self.entries@[i].1@, self.entries@[i].2))
    }
}

impl PropertyMap {
    pub open spec fn spec_get(self, p: CSSProperty) -> Option<(ValueV, bool)> {
        props_get(self@, p)
    }

    pub fn new() -> (r: PropertyMap)
        ensures
            r@ =~= Seq::<(CSSProperty, ValueV, bool)>::empty(),
            forall|p: CSSProperty| r.spec_get(p) is None,
    {
        let r = PropertyMap { entries: Vec::new() };
        proof {
            assert(r@ =~= Seq::<(CSSProperty, ValueV, bool)>::empty());
        }
        r
    }

    /// Binds `p`, shadowing any earlier binding.
    pub fn set(&mut self, p: CSSProperty, value: CSSValue, important: bool)
        ensures
            final(self)@ =~= seq![(p, value@, important)] + old(self)@,
            final(self).spec_get(p) == Some((value@, important)),
            forall|q: CSSProperty| q != p ==> final(self).spec_get(q) == old(self).spec_get(q),
    {
        let ghost v = value@;
        self.entries.insert(0, (p, value, important));
        proof {
            assert(self@ =~= seq![(p, v, important)] + old(self)@);
            assert(self@.drop_first() =~= old(self)@);
        }
    }

    pub fn get(&self, name: &CSSProperty) -> (r: Option<&CSSValue>)
        ensures
            match r {
                Some(v) => props_get(self@, *name) matches Some((pv, _)) && pv == v@,
                None => props_get(self@, *name) is None,
            },
    {
        let mut i: usize = 0;
        while i < self.entries.len()
            invariant
                0 <= i <= self.entries.len(),
                forall|k: int| 0 <= k < i ==> self@[k].0 != *name,
            decreases self.entries.len() - i,
        {
            if self.entries[i].0 == *name {
                proof {
                    lemma_props_get_found(self@, *name, i as int);
                }
                return Some(&self.entries[i].1);
            }
            i = i + 1;
        }
        proof {
            lemma_props_get_missing(self@, *name);
        }
        None
    }

    /// An element-wise copy.
    pub fn duplicate(&self) -> (r: PropertyMap)
        ensures
            r@ == self@,
    {
        let mut entries: Vec<(CSSProperty, CSSValue, bool)> = Vec::new();
        let mut i: usize = 0;
        while i < self.entries.len()
            invariant
                0 <= i <= self.entries.len(),
                entries@.len() == i,
                forall|k: int|
                    0 <= k < i ==> entries@[k].0 == self@[k].0 && entries@[k].1@ == self@[k].1
                        && entries@[k].2 == self@[k].2,
            decreases self.entries.len() - i,
        {
            let e = &self.entries[i];
            entries.push((e.0, e.1.duplicate(), e.2));
            i = i + 1;
        }
        let r = PropertyMap { entries };
        proof {
            assert(r@ =~= self@);
        }
        r
    }
}

proof fn lemma_props_get_found(s: Seq<(CSSProperty, ValueV, bool)>, p: CSSProperty, i: int)
    requires
        0 <= i < s.len(),
        forall|k: int| 0 <= k < i ==> s[k].0 != p,
        s[i].0 == p,
    ensures
        props_get(s, p) == Some((s[i].1, s[i].2)),
    decreases i,
{
    if i > 0 {
        lemma_props_get_found(s.drop_first(), p, i - 1);
    }
}

proof fn lemma_props_get_missing(s: Seq<(CSSProperty, ValueV, bool)>, p: CSSProperty)
    requires
        forall|k: int| 0 <= k < s.len() ==> s[k].0 != p,
    ensures
        props_get(s, p) is None,
    decreases s.len(),
{
    if s.len() > 0 {
        lemma_props_get_missing(s.drop_first(), p);
    }
}

/// Whether a simple selector matches an element: each stated
/// constraint must hold; an absent constraint is a wildcard.
pub open spec fn sel_matches(e: ElemV, s: SelectorV) -> bool {
    &&& match s.tag {
        Some(t) => e.tag == t,
        None => true,
    }
    &&& match s.id {
        Some(id) => elem_id(e) == Some(id),
        None => true,
    }
    &&& forall|k: int| 0 <= k < s.classes.len() ==> elem_has_class(e, #[trigger] s.classes[k])
}

#[verifier::loop_isolation(false)]
fn matches_simple_selector(elem: &ElementData, selector: &SimpleSelector) -> (r: bool)
    ensures
        r == sel_matches(elem@, CSSSelector::SimpleSelector(*selector)@),
{
    let ghost sv = CSSSelector::SimpleSelector(*selector)@;
    match &selector.tag {
        Some(t) => {
            if elem.tag_type != *t {
                return false;
            }
        },
        None => {},
    }
    match &selector.id {
        Some(id) => {
            match elem.id() {
                Some(eid) => {
                    if !string_eq_str(eid, id.as_str()) {
                        proof {
                            assert(elem_id(elem@) != Some(sv.id->0));
                        }
                        return false;
                    }
                },
                None => {
                    return false;
                },
            }
        },
        None => {},
    }
    let mut k: usize = 0;
    while k < selector.class.len()
        invariant
            0 <= k <= selector.class.len(),
            sv.classes.len() == selector.class@.len(),
            forall|j: int| 0 <= j < selector.class@.len() ==> sv.classes[j] == selector.class@[j]@,
            forall|j: int| 0 <= j < k ==> elem_has_class(elem@, #[trigger] sv.classes[j]),
        decreases selector.class.len() - k,
    {
        if !elem.has_class(selector.class[k].as_str()) {
            proof {
                assert(0 <= (k as int) && (k as int) < sv.classes.len() && !elem_has_class(
                    elem@,
                    sv.classes[k as int],
                ));
            }
            return false;
        }
        k = k + 1;
    }
    true
}

fn matches(node: &ElementData, selector: &CSSSelector) -> (r: bool)
    ensures
        r == sel_matches(node@, selector@),
{
    match selector {
        CSSSelector::SimpleSelector(simple) => matches_simple_selector(node, simple),
    }
}

/// The best (greatest) specificity among the selectors that match the
/// element; `None` when no selector matches.
pub open spec fn best_specificity(sels: Seq<SelectorV>, e: ElemV) -> Option<(int, int, int)>
    decreases sels.len(),
{
    if sels.len() == 0 {
        None
    } else {
        let prev = best_specificity(sels.drop_last(), e);
        if sel_matches(e, sels.last()) {
            let s = spec_specificity(sels.last());
            match prev {
                None => Some(s),
                Some(p) => if spec3_le(s, p) {
                    Some(p)
                } else {
                    Some(s)
                },
            }
        } else {
            prev
        }
    }
}

fn triple_le(a: CSSSpecifity, b: CSSSpecifity) -> (r: bool)
    ensures
        r == spec3_le((a.0 as int, a.1 as int, a.2 as int), (b.0 as int, b.1 as int, b.2 as int)),
{
    a.0 < b.0 || (a.0 == b.0 && (a.1 < b.1 || (a.1 == b.1 && a.2 <= b.2)))
}

#[verifier::loop_isolation(false)]
fn matches_rule(node: &ElementData, rule: &CSSRule) -> (r: Option<CSSSpecifity>)
    ensures
        match r {
            Some(t) => best_specificity(rule@.selectors, node@) == Some(
                (t.0 as int, t.1 as int, t.2 as int),
            ),
            None => best_specificity(rule@.selectors, node@) is None,
        },
{
    let mut best: Option<CSSSpecifity> = None;
    let mut i: usize = 0;
    while i < rule.selectors.len()
        invariant
            0 <= i <= rule.selectors.len(),
            rule@.selectors.len() == rule.selectors@.len(),
            forall|j: int| 0 <= j < rule.selectors@.len() ==> rule@.selectors[j] == rule.selectors@[j]@,
            match best {
                Some(t) => best_specificity(rule@.selectors.subrange(0, i as int), node@) == Some(
                    (t.0 as int, t.1 as int, t.2 as int),
                ),
                None => best_specificity(rule@.selectors.subrange(0, i as int), node@) is None,
            },
        decreases rule.selectors.len() - i,
    {
        proof {
            assert(rule@.selectors.subrange(0, i as int + 1).drop_last() =~= rule@.selectors.subrange(
                0,
                i as int,
            ));
            assert(rule@.selectors.subrange(0, i as int + 1).last() == rule@.selectors[i as int]);
        }
        if matches(node, &rule.selectors[i]) {
            let s = rule.selectors[i].specificity();
            best = match best {
                None => Some(s),
                Some(b) => if triple_le(s, b) {
                    Some(b)
                } else {
                    Some(s)
                },
            };
        }
        i = i + 1;
    }
    proof {
        assert(rule@.selectors.subrange(0, rule.selectors@.len() as int) =~= rule@.selectors);
    }
    best
}


/// A candidate declaration for a property on an element: its value,
/// importance, the matching rule's best specificity, and its position
/// as (rule index, declaration index).
#[verifier::ext_equal]
pub struct CandV {
    pub value: ValueV,
    pub important: bool,
    pub spec: (int, int, int),
    pub pos: (int, int),
}

/// Strict lexicographic order on specificity triples.
pub open spec fn spec3_lt(a: (int, int, int), b: (int, int, int)) -> bool {
    spec3_le(a, b) && a != b
}

/// Document order on (rule index, declaration index) positions.
pub open spec fn pos_lt(a: (int, int), b: (int, int)) -> bool {
    a.0 < b.0 || (a.0 == b.0 && a.1 < b.1)
}

/// Strict priority order on candidates: importance first, then
/// specificity, then document order.
pub open spec fn cand_lt(a: CandV, b: CandV) -> bool {
    ||| (!a.important && b.important)
    ||| (a.important == b.important && spec3_lt(a.spec, b.spec))
    ||| (a.important == b.important && a.spec == b.spec && pos_lt(a.pos, b.pos))
}

/// The candidates that the declarations of one matching rule
/// contribute for property `p`.
pub open spec fn decls_cands(decls: Seq<DeclV>, s: (int, int, int), p: CSSProperty, ri: int) -> Seq<
    CandV,
>
    decreases decls.len(),
{
    if decls.len() == 0 {
        Seq::empty()
    } else {
        let rest = decls_cands(decls.drop_last(), s, p, ri);
        if decls.last().property == p {
            rest.push(
                CandV {
                    value: decls.last().value,
                    important: decls.last().important,
                    spec: s,
                    pos: (ri, decls.len() - 1),
                },
            )
        } else {
            rest
        }
    }
}

/// All candidates for property `p` on element `e`, in document order.
pub open spec fn all_cands(rules: Seq<RuleV>, e: ElemV, p: CSSProperty) -> Seq<CandV>
    decreases rules.len(),
{
    if rules.len() == 0 {
        Seq::empty()
    } else {
        all_cands(rules.drop_last(), e, p) + (match best_specificity(rules.last().selectors, e) {
            Some(s) => decls_cands(rules.last().decls, s, p, rules.len() - 1),
            None => Seq::empty(),
        })
    }
}

/// The winning candidate: the greatest in priority order; among equals
/// the earliest (positions make equals impossible in practice).
pub open spec fn best_cand(cands: Seq<CandV>) -> Option<CandV>
    decreases cands.len(),
{
    if cands.len() == 0 {
        None
    } else {
        match best_cand(cands.drop_last()) {
            None => Some(cands.last()),
            Some(w) => if cand_lt(w, cands.last()) {
                Some(cands.last())
            } else {
                Some(w)
            },
        }
    }
}

/// The cascade: the winning declaration's value and importance for
/// property `p` on element `e`, if any matching rule supplies one.
pub open spec fn cascade(rules: Seq<RuleV>, e: ElemV, p: CSSProperty) -> Option<(ValueV, bool)> {
    match best_cand(all_cands(rules, e, p)) {
        Some(c) => Some((c.value, c.important)),
        None => None,
    }
}

/// The resolved binding for a document node: text nodes and style
/// elements resolve to nothing; other elements resolve by the cascade.
pub open spec fn specified_values_of(n: NodeV, rules: Seq<RuleV>, p: CSSProperty) -> Option<
    (ValueV, bool),
> {
    match n.kind {
        NodeKindV::Text(_) => None,
        NodeKindV::Element(e) => if e.tag == TagType::Style {
            None
        } else {
            cascade(rules, e, p)
        },
    }
}

/// One working entry while folding the cascade: the current winner for
/// a property, with the specificity that installed it.
type WorkEntry = (CSSProperty, CSSValue, bool, CSSSpecifity);

/// The ghost image of a working entry.
type WorkEntryV = (CSSProperty, ValueV, bool, (int, int, int));

spec fn work_view(v: Seq<WorkEntry>) -> Seq<WorkEntryV> {
    Seq::new(
        v.len(),
        |i: int| (v[i].0, v[i].1@, v[i].2, (v[i].3.0 as int, v[i].3.1 as int, v[i].3.2 as int)),
    )
}

/// First-match lookup among working entries.
spec fn work_get(s: Seq<WorkEntryV>, p: CSSProperty) -> Option<(ValueV, bool, (int, int, int))>
    decreases s.len(),
{
    if s.len() == 0 {
        None
    } else if s[0].0 == p {
        Some((s[0].1, s[0].2, s[0].3))
    } else {
        work_get(s.drop_first(), p)
    }
}

proof fn lemma_work_get_found(s: Seq<WorkEntryV>, p: CSSProperty, i: int)
    requires
        0 <= i < s.len(),
        forall|k: int| 0 <= k < i ==> s[k].0 != p,
        s[i].0 == p,
    ensures
        work_get(s, p) == Some((s[i].1, s[i].2, s[i].3)),
    decreases i,
{
    if i > 0 {
        lemma_work_get_found(s.drop_first(), p, i - 1);
    }
}

proof fn lemma_work_get_missing(s: Seq<WorkEntryV>, p: CSSProperty)
    requires
        forall|k: int| 0 <= k < s.len() ==> s[k].0 != p,
    ensures
        work_get(s, p) is None,
    decreases s.len(),
{
    if s.len() > 0 {
        lemma_work_get_missing(s.drop_first(), p);
    }
}

proof fn lemma_work_get_push_front(s: Seq<WorkEntryV>, x: WorkEntryV, p: CSSProperty)
    ensures
        work_get(seq![x] + s, p) == (if x.0 == p {
            Some((x.1, x.2, x.3))
        } else {
            work_get(s, p)
        }),
{
    assert((seq![x] + s).drop_first() =~= s);
    assert((seq![x] + s)[0] == x);
}

/// The working entries name the winner among `cands` for `p`, and the
/// winner sits before `bound` in document order.
spec fn winner_matches(
    wv: Seq<WorkEntryV>,
    cands: Seq<CandV>,
    p: CSSProperty,
    bound: (int, int),
) -> bool {
    match best_cand(cands) {
        None => work_get(wv, p) is None,
        Some(c) => work_get(wv, p) == Some((c.value, c.important, c.spec)) && pos_lt(c.pos, bound),
    }
}

fn work_find(v: &Vec<WorkEntry>, p: CSSProperty) -> (r: Option<(bool, CSSSpecifity)>)
    ensures
        match r {
            Some((imp, s)) => work_get(work_view(v@), p) matches Some((_, i2, s2)) && i2 == imp
                && s2 == (s.0 as int, s.1 as int, s.2 as int),
            None => work_get(work_view(v@), p) is None,
        },
{
    let mut i: usize = 0;
    while i < v.len()
        invariant
            0 <= i <= v.len(),
            forall|k: int| 0 <= k < i ==> work_view(v@)[k].0 != p,
        decreases v.len() - i,
    {
        if v[i].0 == p {
            proof {
                lemma_work_get_found(work_view(v@), p, i as int);
            }
            return Some((v[i].2, v[i].3));
        }
        i = i + 1;
    }
    proof {
        lemma_work_get_missing(work_view(v@), p);
    }
    None
}

/// Resolves the property map of one document node against the
/// stylesheet: for every property, the map holds exactly the cascade's
/// winning declaration, or nothing when no matching rule names it.
#[verifier::loop_isolation(false)]
pub fn get_specified_values(node: &DomNode, stylesheet: &Stylesheet) -> (r: PropertyMap)
    ensures
        forall|p: CSSProperty| #![all_triggers] r.spec_get(p) == specified_values_of(node@, stylesheet@, p),
{
    let elem: &ElementData = match node.get_node_type() {
        NodeType::Text(_) => {
            return PropertyMap::new();
        },
        NodeType::Element(e) => e,
    };
    if elem.tag_type == TagType::Style {
        return PropertyMap::new();
    }
    let ghost e = elem@;
    let ghost rules = stylesheet@;
    let mut working: Vec<WorkEntry> = Vec::new();
    let mut ri: usize = 0;
    while ri < stylesheet.rules.len()
        invariant
            0 <= ri <= stylesheet.rules.len(),
            rules.len() == stylesheet.rules@.len(),
            forall|j: int| 0 <= j < rules.len() ==> rules[j] == stylesheet.rules@[j]@,
            forall|p: CSSProperty|
                #[trigger] winner_matches(
                    work_view(working@),
                    all_cands(rules.subrange(0, ri as int), e, p),
                    p,
                    (ri as int, 0),
                ),
        decreases stylesheet.rules.len() - ri,
    {
        let found = matches_rule(elem, &stylesheet.rules[ri]);
        proof {
            assert(rules.subrange(0, ri as int + 1).drop_last() =~= rules.subrange(0, ri as int));
            assert(rules.subrange(0, ri as int + 1).last() == rules[ri as int]);
        }
        match found {
            Some(spec) => {
                let ghost sv = (spec.0 as int, spec.1 as int, spec.2 as int);
                let rule = &stylesheet.rules[ri];
                let ghost decls = rules[ri as int].decls;
                let mut di: usize = 0;
                while di < rule.declarations.len()
                    invariant
                        0 <= di <= rule.declarations.len(),
                        decls.len() == rule.declarations@.len(),
                        forall|j: int| 0 <= j < decls.len() ==> decls[j] == rule.declarations@[j]@,
                        best_specificity(rules[ri as int].selectors, e) == Some(sv),
                        forall|p: CSSProperty|
                            #[trigger] winner_matches(
                                work_view(working@),
                                all_cands(rules.subrange(0, ri as int), e, p) + decls_cands(
                                    decls.subrange(0, di as int),
                                    sv,
                                    p,
                                    ri as int,
                                ),
                                p,
                                (ri as int, di as int),
                            ),
                    decreases rule.declarations.len() - di,
                {
                    let decl = &rule.declarations[di];
                    let p0 = decl.property;
                    let cur = work_find(&working, p0);
                    let overwrite: bool = match cur {
                        None => true,
                        Some((w_imp, w_spec)) => (!w_imp && decl.is_important) || (w_imp
                            == decl.is_important && triple_le(w_spec, spec)),
                    };
                    let ghost old_working = work_view(working@);
                    let ghost c_new = CandV {
                        value: decls[di as int].value,
                        important: decls[di as int].important,
                        spec: sv,
                        pos: (ri as int, di as int),
                    };
                    if overwrite {
                        working.insert(0, (p0, decl.value.duplicate(), decl.is_important, spec));
                    }
                    proof {
                        let wnew = work_view(working@);
                        if overwrite {
                            assert(wnew =~= seq![
                                (p0, decls[di as int].value, decls[di as int].important, sv),
                            ] + old_working);
                        }
                        assert forall|p: CSSProperty|
                            #[trigger] winner_matches(
                                wnew,
                                all_cands(rules.subrange(0, ri as int), e, p) + decls_cands(
                                    decls.subrange(0, di as int + 1),
                                    sv,
                                    p,
                                    ri as int,
                                ),
                                p,
                                (ri as int, di as int + 1),
                            ) by {
                            let before = all_cands(rules.subrange(0, ri as int), e, p)
                                + decls_cands(decls.subrange(0, di as int), sv, p, ri as int);
                            assert(winner_matches(
                                old_working,
                                all_cands(rules.subrange(0, ri as int), e, p) + decls_cands(
                                    decls.subrange(0, di as int),
                                    sv,
                                    p,
                                    ri as int,
                                ),
                                p,
                                (ri as int, di as int),
                            ));
                            let after = all_cands(rules.subrange(0, ri as int), e, p)
                                + decls_cands(
                                decls.subrange(0, di as int + 1),
                                sv,
                                p,
                                ri as int,
                            );
                            assert(decls.subrange(0, di as int + 1).drop_last() =~= decls.subrange(
                                0,
                                di as int,
                            ));
                            assert(decls.subrange(0, di as int + 1).last() == decls[di as int]);
                            if p == p0 {
                                assert(after =~= before.push(c_new));
                                assert(after.drop_last() =~= before);
                                if overwrite {
                                    lemma_work_get_push_front(
                                        old_working,
                                        (p0, decls[di as int].value, decls[di as int].important, sv),
                                        p,
                                    );
                                } else {
                                    assert(wnew == old_working);
                                }
                            } else {
                                assert(after =~= before);
                                if overwrite {
                                    lemma_work_get_push_front(
                                        old_working,
                                        (p0, decls[di as int].value, decls[di as int].important, sv),
                                        p,
                                    );
                                } else {
                                    assert(wnew == old_working);
                                }
                            }
                        }
                    }
                    di = di + 1;
                }
                proof {
                    let dn = decls.len() as int;
                    assert forall|p: CSSProperty|
                        #[trigger] winner_matches(
                            work_view(working@),
                            all_cands(rules.subrange(0, ri as int + 1), e, p),
                            p,
                            (ri as int + 1, 0),
                        ) by {
                        assert(winner_matches(
                            work_view(working@),
                            all_cands(rules.subrange(0, ri as int), e, p) + decls_cands(
                                decls.subrange(0, dn),
                                sv,
                                p,
                                ri as int,
                            ),
                            p,
                            (ri as int, dn),
                        ));
                        assert(decls.subrange(0, dn) =~= decls);
                        assert(all_cands(rules.subrange(0, ri as int + 1), e, p) == all_cands(
                            rules.subrange(0, ri as int),
                            e,
                            p,
                        ) + decls_cands(decls, sv, p, ri as int));
                    }
                }
            },
            None => {
                proof {
                    assert forall|p: CSSProperty|
                        #[trigger] winner_matches(
                            work_view(working@),
                            all_cands(rules.subrange(0, ri as int + 1), e, p),
                            p,
                            (ri as int + 1, 0),
                        ) by {
                        assert(winner_matches(
                            work_view(working@),
                            all_cands(rules.subrange(0, ri as int), e, p),
                            p,
                            (ri as int, 0),
                        ));
                        assert(all_cands(rules.subrange(0, ri as int + 1), e, p) =~= all_cands(
                            rules.subrange(0, ri as int),
                            e,
                            p,
                        ));
                    }
                }
            },
        }
        ri = ri + 1;
    }
    proof {
        assert(rules.subrange(0, rules.len() as int) =~= rules);
    }
    // Fold the working entries, oldest first, into the final map: the
    // front (current) entry for each property lands last and wins.
    let mut map = PropertyMap::new();
    let mut j: usize = working.len();
    while j > 0
        invariant
            0 <= j <= working.len(),
            forall|p: CSSProperty| #![all_triggers]
                props_get(map@, p) == (match work_get(
                    work_view(working@).subrange(j as int, working@.len() as int),
                    p,
                ) {
                    Some((v, imp, _)) => Some((v, imp)),
                    None => None,
                }),
        decreases j,
    {
        j = j - 1;
        let entry = (working[j].0, working[j].1.duplicate(), working[j].2);
        let ghost old_map = map@;
        let ghost old_pm = map;
        map.set(entry.0, entry.1, entry.2);
        proof {
            let wv = work_view(working@);
            assert(wv.subrange(j as int, wv.len() as int).drop_first() =~= wv.subrange(
                j as int + 1,
                wv.len() as int,
            ));
            assert forall|p: CSSProperty| #![all_triggers]
                props_get(map@, p) == (match work_get(
                    wv.subrange(j as int, wv.len() as int),
                    p,
                ) {
                    Some((v, imp, _)) => Some((v, imp)),
                    None => None,
                }) by {
                assert(props_get(old_map, p) == (match work_get(
                    wv.subrange(j as int + 1, wv.len() as int),
                    p,
                ) {
                    Some((v, imp, _)) => Some((v, imp)),
                    None => None,
                }));
                assert(wv.subrange(j as int, wv.len() as int)[0] == wv[j as int]);
                let tail = wv.subrange(j as int + 1, wv.len() as int);
                if p == entry.0 {
                    assert(wv[j as int].0 == p);
                    assert(work_get(wv.subrange(j as int, wv.len() as int), p) == Some(
                        (wv[j as int].1, wv[j as int].2, wv[j as int].3),
                    ));
                    assert(props_get(map@, p) == Some((wv[j as int].1, wv[j as int].2)));
                } else {
                    assert(map.spec_get(p) == old_pm.spec_get(p));
                    assert(props_get(map@, p) == props_get(old_map, p));
                    assert(work_get(wv.subrange(j as int, wv.len() as int), p) == work_get(
                        tail,
                        p,
                    ));
                }
            }
        }
    }
    proof {
        let wv = work_view(working@);
        assert(wv.subrange(0, wv.len() as int) =~= wv);
        let rn = rules.len() as int;
        assert forall|p: CSSProperty| #![all_triggers]
            props_get(map@, p) == specified_values_of(node@, stylesheet@, p) by {
            assert(winner_matches(wv, all_cands(rules.subrange(0, rn), e, p), p, (rn, 0)));
            assert(rules.subrange(0, rn) =~= rules);
            assert(props_get(map@, p) == (match work_get(wv.subrange(0, wv.len() as int), p) {
                Some((v, imp, _)) => Some((v, imp)),
                None => None,
            }));
        }
    }
    map
}


/// The ghost model of a styled node: the document node it styles, its
/// resolved property entries, and its styled children.
#[verifier::ext_equal]
pub struct StyledV {
    pub node: NodeV,
    pub props: Seq<(CSSProperty, ValueV, bool)>,
    pub children: Seq<StyledV>,
}

/// A document node paired with its resolved property map and its
/// styled children, in document order.
#[derive(Debug)]
pub struct StyledNode {
    pub node: Box<DomNode>,
    pub specified_values: PropertyMap,
    pub children: Vec<StyledNode>,
}

pub open spec fn styled_view(s: &StyledNode) -> StyledV
    decreases s,
{
    StyledV {
        node: s.node@,
        props: s.specified_values@,
        children: Seq::new(
            s.children@.len(),
            |i: int|
                if 0 <= i < s.children@.len() {
                    styled_view(&s.children@[i])
                } else {
                    arbitrary()
                },
        ),
    }
}

impl View for StyledNode {
    type V = StyledV;

    open spec fn view(&self) -> StyledV {
        styled_view(self)
    }
}

/// The computed value of a property: the resolved binding, or the
/// property's fixed default when no matching rule set it.
pub open spec fn computed_value(s: StyledV, p: CSSProperty) -> ValueV {
    match props_get(s.props, p) {
        Some((v, _)) => v,
        None => p.spec_default(),
    }
}

/// The computed display mode. A span element is inline whatever the
/// stylesheet says; otherwise the computed `display` keyword decides,
/// and anything but `inline` and `none` renders as a block.
pub open spec fn computed_display(s: StyledV) -> Display {
    if node_tag(s.node) == Some(TagType::Span) {
        Display::Inline
    } else {
        match computed_value(s, CSSProperty::Display) {
            ValueV::Keyword(k) => if k == "inline"@ {
                Display::Inline
            } else if k == "none"@ {
                Display::Hidden
            } else {
                Display::Block
            },
            _ => Display::Block,
        }
    }
}

impl StyledNode {
    /// The computed value for `name`: never absent, since every
    /// property has a fixed default.
    pub fn get_computed_value(&self, name: &CSSProperty) -> (r: Option<CSSValue>)
        ensures
            r matches Some(v) && v@ == computed_value(self@, *name),
    {
        match self.specified_values.get(name) {
            Some(v) => Some(v.duplicate()),
            None => Some(name.default_value()),
        }
    }

    pub fn get_computed_display(&self) -> (r: Display)
        ensures
            r == computed_display(self@),
    {
        match self.node.get_tag_type() {
            Some(TagType::Span) => {
                return Display::Inline;
            },
            _ => {},
        }
        match self.get_computed_value(&CSSProperty::Display) {
            Some(CSSValue::Keyword(value)) => {
                if string_eq_str(&value, "inline") {
                    Display::Inline
                } else if string_eq_str(&value, "none") {
                    Display::Hidden
                } else {
                    Display::Block
                }
            },
            _ => Display::Block,
        }
    }

    /// A structural copy.
    pub fn duplicate(&self) -> (r: StyledNode)
        ensures
            r@ == self@,
        decreases self@,
    {
        let node = Box::new(self.node.duplicate());
        let specified_values = self.specified_values.duplicate();
        let mut children: Vec<StyledNode> = Vec::new();
        let mut i: usize = 0;
        while i < self.children.len()
            invariant
                0 <= i <= self.children.len(),
                children@.len() == i,
                forall|k: int| 0 <= k < i ==> children@[k]@ == self@.children[k],
            decreases self.children.len() - i,
        {
            proof {
                assert(self@.children[i as int] == self.children@[i as int]@);
                assert(decreases_to!(self@ => self@.children));
                assert(decreases_to!(self@.children => self@.children[i as int]));
            }
            let c = self.children[i].duplicate();
            children.push(c);
            i = i + 1;
        }
        let r = StyledNode { node, specified_values, children };
        proof {
            assert(r@.children =~= self@.children);
            assert(r@ =~= self@);
        }
        r
    }
}

/// `s` is the styled image of `n` under `rules`: it carries a copy of
/// `n`, its property entries resolve exactly as the cascade says, and
/// its children are the styled images of `n`'s children in order.
pub open spec fn styled_rel(s: StyledV, n: NodeV, rules: Seq<RuleV>) -> bool
    decreases n,
{
    &&& s.node == n
    &&& forall|p: CSSProperty| #[trigger] props_get(s.props, p) == specified_values_of(
        n,
        rules,
        p,
    )
    &&& styled_rel_seq(s.children, n.children, rules)
}

pub open spec fn styled_rel_seq(ss: Seq<StyledV>, ns: Seq<NodeV>, rules: Seq<RuleV>) -> bool
    decreases ns,
{
    &&& ss.len() == ns.len()
    &&& ns.len() > 0 ==> styled_rel(ss.last(), ns.last(), rules) && styled_rel_seq(
        ss.drop_last(),
        ns.drop_last(),
        rules,
    )
}

pub proof fn lemma_styled_rel_seq_index(ss: Seq<StyledV>, ns: Seq<NodeV>, rules: Seq<RuleV>, k: int)
    requires
        styled_rel_seq(ss, ns, rules),
        0 <= k < ns.len(),
    ensures
        styled_rel(ss[k], ns[k], rules),
    decreases ns.len(),
{
    if k < ns.len() - 1 {
        lemma_styled_rel_seq_index(ss.drop_last(), ns.drop_last(), rules, k);
    }
}

pub proof fn lemma_styled_rel_seq_pointwise(ss: Seq<StyledV>, ns: Seq<NodeV>, rules: Seq<RuleV>)
    requires
        ss.len() == ns.len(),
        forall|k: int| 0 <= k < ns.len() ==> styled_rel(#[trigger] ss[k], ns[k], rules),
    ensures
        styled_rel_seq(ss, ns, rules),
    decreases ns.len(),
{
    if ns.len() > 0 {
        lemma_styled_rel_seq_pointwise(ss.drop_last(), ns.drop_last(), rules);
    }
}

/// Styles a document node against the stylesheet, recursively: each
/// node of the result pairs a copy of the document node with the
/// property map the cascade resolves for it.
pub fn generate_styled_node(node: &DomNode, stylesheet: &Stylesheet) -> (r: StyledNode)
    ensures
        styled_rel(r@, node@, stylesheet@),
    decreases node@,
{
    let specified_values = get_specified_values(node, stylesheet);
    let children_src = node.get_children();
    let mut children: Vec<StyledNode> = Vec::new();
    let mut i: usize = 0;
    while i < children_src.len()
        invariant
            0 <= i <= children_src.len(),
            children_src@.len() == node@.children.len(),
            forall|k: int| 0 <= k < children_src@.len() ==> children_src@[k]@ == node@.children[k],
            children@.len() == i,
            forall|k: int|
                0 <= k < i ==> styled_rel(#[trigger] children@[k]@, node@.children[k], stylesheet@),
        decreases children_src.len() - i,
    {
        proof {
            assert(decreases_to!(node@ => node@.children));
            assert(decreases_to!(node@.children => node@.children[i as int]));
        }
        let c = generate_styled_node(&children_src[i], stylesheet);
        children.push(c);
        i = i + 1;
    }
    let r = StyledNode {
        node: Box::new(node.duplicate()),
        specified_values,
        children,
    };
    proof {
        assert(r@.children.len() == node@.children.len());
        assert forall|k: int| 0 <= k < node@.children.len() implies styled_rel(
            #[trigger] r@.children[k],
            node@.children[k],
            stylesheet@,
        ) by {
            assert(r@.children[k] == children@[k]@);
        }
        lemma_styled_rel_seq_pointwise(r@.children, node@.children, stylesheet@);
    }
    r
}


// --- laws of the cascade ---

/// The winner of a cascade is one of its candidates, and no candidate
/// outranks it.
pub proof fn lemma_best_cand_is_max(cands: Seq<CandV>)
    requires
        cands.len() > 0,
    ensures
        best_cand(cands) matches Some(c) && cands.contains(c) && forall|i: int|
            0 <= i < cands.len() ==> !cand_lt(c, #[trigger] cands[i]),
    decreases cands.len(),
{
    if cands.len() == 1 {
        assert(cands[0] == cands.last());
        assert(cands.contains(cands.last()));
    } else {
        lemma_best_cand_is_max(cands.drop_last());
        let rest = best_cand(cands.drop_last())->0;
        assert(cands.drop_last().contains(rest));
        let j = choose|j: int| 0 <= j < cands.drop_last().len() && cands.drop_last()[j] == rest;
        assert(cands[j] == rest);
        let c = best_cand(cands)->0;
        assert(cands.contains(c)) by {
            if cand_lt(rest, cands.last()) {
                assert(cands[cands.len() - 1] == cands.last());
            } else {
                assert(cands[j] == c);
            }
        }
        assert forall|i: int| 0 <= i < cands.len() implies !cand_lt(c, #[trigger] cands[i]) by {
            if i < cands.len() - 1 {
                assert(cands.drop_last()[i] == cands[i]);
            }
        }
    }
}

/// The winner is important exactly when some candidate is important: a
/// plain declaration never buries an important one, and an important
/// one always surfaces.
pub proof fn lemma_important_wins(cands: Seq<CandV>)
    requires
        cands.len() > 0,
    ensures
        best_cand(cands) matches Some(c) && (c.important <==> exists|i: int|
            0 <= i < cands.len() && (#[trigger] cands[i]).important),
    decreases cands.len(),
{
    if cands.len() == 1 {
        assert(cands[0] == cands.last());
    } else {
        lemma_important_wins(cands.drop_last());
        let rest = best_cand(cands.drop_last())->0;
        let c = best_cand(cands)->0;
        if c.important {
            if cand_lt(rest, cands.last()) {
                assert(cands[cands.len() - 1] == cands.last());
            } else {
                let i = choose|i: int|
                    0 <= i < cands.drop_last().len() && (#[trigger] cands.drop_last()[i]).important;
                assert(cands[i] == cands.drop_last()[i]);
            }
        }
        if exists|i: int| 0 <= i < cands.len() && (#[trigger] cands[i]).important {
            let i = choose|i: int| 0 <= i < cands.len() && (#[trigger] cands[i]).important;
            if i < cands.len() - 1 {
                assert(cands.drop_last()[i].important);
                assert(rest.important);
                if cand_lt(rest, cands.last()) {
                    assert(cands.last().important);
                }
            }
        }
    }
}

/// The candidate list of two rules, each matching `e` and carrying one
/// declaration for `p`.
proof fn lemma_two_single_rules(r1: RuleV, r2: RuleV, e: ElemV, p: CSSProperty)
    requires
        best_specificity(r1.selectors, e) is Some,
        best_specificity(r2.selectors, e) is Some,
        r1.decls.len() == 1,
        r2.decls.len() == 1,
        r1.decls[0].property == p,
        r2.decls[0].property == p,
    ensures
        all_cands(seq![r1, r2], e, p) =~= seq![
            CandV {
                value: r1.decls[0].value,
                important: r1.decls[0].important,
                spec: best_specificity(r1.selectors, e)->0,
                pos: (0, 0),
            },
            CandV {
                value: r2.decls[0].value,
                important: r2.decls[0].important,
                spec: best_specificity(r2.selectors, e)->0,
                pos: (1, 0),
            },
        ],
{
    let rules = seq![r1, r2];
    let s1 = best_specificity(r1.selectors, e)->0;
    let s2 = best_specificity(r2.selectors, e)->0;
    let c1 = CandV {
        value: r1.decls[0].value,
        important: r1.decls[0].important,
        spec: s1,
        pos: (0, 0),
    };
    let c2 = CandV {
        value: r2.decls[0].value,
        important: r2.decls[0].important,
        spec: s2,
        pos: (1, 0),
    };
    assert(r1.decls.drop_last() =~= Seq::<DeclV>::empty());
    assert(r2.decls.drop_last() =~= Seq::<DeclV>::empty());
    assert(r1.decls.last() == r1.decls[0]);
    assert(r2.decls.last() == r2.decls[0]);
    assert(decls_cands(Seq::<DeclV>::empty(), s1, p, 0) =~= Seq::<CandV>::empty());
    assert(decls_cands(Seq::<DeclV>::empty(), s2, p, 1) =~= Seq::<CandV>::empty());
    assert(decls_cands(r1.decls, s1, p, 0) =~= seq![c1]);
    assert(decls_cands(r2.decls, s2, p, 1) =~= seq![c2]);
    assert(rules.drop_last() =~= seq![r1]);
    assert(seq![r1].drop_last() =~= Seq::<RuleV>::empty());
    assert(all_cands(Seq::<RuleV>::empty(), e, p) =~= Seq::<CandV>::empty());
    assert(seq![r1].last() == r1);
    assert(seq![r1].len() - 1 == 0);
    assert(all_cands(seq![r1], e, p) =~= seq![c1]);
    assert(rules.last() == r2);
    assert(rules.len() - 1 == 1);
    assert(all_cands(rules, e, p) =~= seq![c1] + decls_cands(r2.decls, s2, p, 1));
    assert(all_cands(rules, e, p) =~= seq![c1, c2]);
}

/// Specificity ordering: with two matching rules, each giving one
/// plain (non-important) declaration for `p`, the higher specificity
/// supplies the computed value, whichever rule came first.
pub proof fn lemma_higher_specificity_wins(r1: RuleV, r2: RuleV, e: ElemV, p: CSSProperty)
    requires
        best_specificity(r1.selectors, e) is Some,
        best_specificity(r2.selectors, e) is Some,
        r1.decls.len() == 1,
        r2.decls.len() == 1,
        r1.decls[0].property == p,
        r2.decls[0].property == p,
        !r1.decls[0].important,
        !r2.decls[0].important,
        best_specificity(r1.selectors, e) != best_specificity(r2.selectors, e),
    ensures
        cascade(seq![r1, r2], e, p) == (if spec3_le(
            best_specificity(r2.selectors, e)->0,
            best_specificity(r1.selectors, e)->0,
        ) {
            Some((r1.decls[0].value, false))
        } else {
            Some((r2.decls[0].value, false))
        }),
{
    lemma_two_single_rules(r1, r2, e, p);
    let cands = all_cands(seq![r1, r2], e, p);
    assert(cands.drop_last() =~= seq![cands[0]]);
    assert(seq![cands[0]].drop_last() =~= Seq::<CandV>::empty());
    assert(best_cand(Seq::<CandV>::empty()) is None);
    assert(best_cand(seq![cands[0]]) == Some(cands[0]));
    assert(best_cand(cands) == (if cand_lt(cands[0], cands[1]) {
        Some(cands[1])
    } else {
        Some(cands[0])
    }));
}

/// Cascade order: with two matching rules of equal specificity, each
/// giving one plain declaration for `p`, the later rule wins.
pub proof fn lemma_equal_specificity_later_wins(r1: RuleV, r2: RuleV, e: ElemV, p: CSSProperty)
    requires
        best_specificity(r1.selectors, e) is Some,
        best_specificity(r2.selectors, e) is Some,
        r1.decls.len() == 1,
        r2.decls.len() == 1,
        r1.decls[0].property == p,
        r2.decls[0].property == p,
        !r1.decls[0].important,
        !r2.decls[0].important,
        best_specificity(r1.selectors, e) == best_specificity(r2.selectors, e),
    ensures
        cascade(seq![r1, r2], e, p) == Some((r2.decls[0].value, false)),
{
    lemma_two_single_rules(r1, r2, e, p);
    let cands = all_cands(seq![r1, r2], e, p);
    assert(cands.drop_last() =~= seq![cands[0]]);
    assert(seq![cands[0]].drop_last() =~= Seq::<CandV>::empty());
    assert(best_cand(Seq::<CandV>::empty()) is None);
    assert(best_cand(seq![cands[0]]) == Some(cands[0]));
    assert(best_cand(cands) == (if cand_lt(cands[0], cands[1]) {
        Some(cands[1])
    } else {
        Some(cands[0])
    }));
}

/// Important override: with two matching rules, each giving one
/// declaration for `p`, an important declaration is never overwritten
/// by a plain one, whatever the order or specificity; and an important
/// declaration always overwrites a plain one.
pub proof fn lemma_important_override(r1: RuleV, r2: RuleV, e: ElemV, p: CSSProperty)
    requires
        best_specificity(r1.selectors, e) is Some,
        best_specificity(r2.selectors, e) is Some,
        r1.decls.len() == 1,
        r2.decls.len() == 1,
        r1.decls[0].property == p,
        r2.decls[0].property == p,
        r1.decls[0].important != r2.decls[0].important,
    ensures
        cascade(seq![r1, r2], e, p) == (if r1.decls[0].important {
            Some((r1.decls[0].value, true))
        } else {
            Some((r2.decls[0].value, true))
        }),
{
    lemma_two_single_rules(r1, r2, e, p);
    let cands = all_cands(seq![r1, r2], e, p);
    assert(cands.drop_last() =~= seq![cands[0]]);
    assert(seq![cands[0]].drop_last() =~= Seq::<CandV>::empty());
    assert(best_cand(Seq::<CandV>::empty()) is None);
    assert(best_cand(seq![cands[0]]) == Some(cands[0]));
    assert(best_cand(cands) == (if cand_lt(cands[0], cands[1]) {
        Some(cands[1])
    } else {
        Some(cands[0])
    }));
}

// --- laws of matching ---

/// An id selector matches exactly the elements carrying that id,
/// whatever their tag or classes.
pub proof fn lemma_id_selector_matches(e: ElemV, id: Seq<char>)
    ensures
        sel_matches(
            e,
            SelectorV { tag: None, id: Some(id), classes: Seq::empty() },
        ) <==> elem_id(e) == Some(id),
{
}

/// A class selector matches exactly the elements whose class tokens
/// contain that class.
pub proof fn lemma_class_selector_matches(e: ElemV, c: Seq<char>)
    ensures
        sel_matches(
            e,
            SelectorV { tag: None, id: None, classes: seq![c] },
        ) <==> elem_has_class(e, c),
{
    let s = SelectorV { tag: None, id: None, classes: seq![c] };
    assert(s.classes[0] == c);
    if elem_has_class(e, c) {
        assert forall|k: int| 0 <= k < s.classes.len() implies elem_has_class(
            e,
            #[trigger] s.classes[k],
        ) by {
            assert(s.classes[k] == c);
        }
    }
}


/// The display policy: a span element renders inline even when the
/// stylesheet declares another display — the tag wins over the
/// declaration, a deliberate quirk of this engine.
pub proof fn lemma_span_tag_overrides_display(s: StyledV)
    requires
        node_tag(s.node) == Some(TagType::Span),
    ensures
        computed_display(s) == Display::Inline,
{
}


/// The candidate a rule position denotes.
pub open spec fn cand_at(rules: Seq<RuleV>, e: ElemV, ri: int, di: int) -> CandV {
    CandV {
        value: rules[ri].decls[di].value,
        important: rules[ri].decls[di].important,
        spec: best_specificity(rules[ri].selectors, e)->0,
        pos: (ri, di),
    }
}

/// Whether (ri, di) points at a declaration for `p` inside a rule
/// that matches `e`.
pub open spec fn is_cand_pos(rules: Seq<RuleV>, e: ElemV, p: CSSProperty, ri: int, di: int) -> bool {
    &&& 0 <= ri < rules.len()
    &&& best_specificity(rules[ri].selectors, e) is Some
    &&& 0 <= di < rules[ri].decls.len()
    &&& rules[ri].decls[di].property == p
}

proof fn lemma_decls_cands_mem(decls: Seq<DeclV>, s: (int, int, int), p: CSSProperty, ri: int, c: CandV)
    ensures
        decls_cands(decls, s, p, ri).contains(c) <==> exists|di: int|
            0 <= di < decls.len() && (#[trigger] decls[di]).property == p && c == (CandV {
                value: decls[di].value,
                important: decls[di].important,
                spec: s,
                pos: (ri, di),
            }),
    decreases decls.len(),
{
    if decls.len() == 0 {
    } else {
        lemma_decls_cands_mem(decls.drop_last(), s, p, ri, c);
        let rest = decls_cands(decls.drop_last(), s, p, ri);
        let whole = decls_cands(decls, s, p, ri);
        assert(forall|k: int| 0 <= k < decls.len() - 1 ==> decls.drop_last()[k] == #[trigger] decls[k]);
        if decls.last().property == p {
            let lastc = CandV {
                value: decls.last().value,
                important: decls.last().important,
                spec: s,
                pos: (ri, decls.len() - 1),
            };
            assert(whole == rest.push(lastc));
            if whole.contains(c) {
                let k = choose|k: int| 0 <= k < whole.len() && whole[k] == c;
                if k < rest.len() {
                    assert(rest[k] == c);
                    assert(rest.contains(c));
                } else {
                    assert(c == lastc);
                    assert(decls[decls.len() - 1].property == p);
                }
            }
            if exists|di: int|
                0 <= di < decls.len() && (#[trigger] decls[di]).property == p && c == (CandV {
                    value: decls[di].value,
                    important: decls[di].important,
                    spec: s,
                    pos: (ri, di),
                }) {
                let di = choose|di: int|
                    0 <= di < decls.len() && (#[trigger] decls[di]).property == p && c == (CandV {
                        value: decls[di].value,
                        important: decls[di].important,
                        spec: s,
                        pos: (ri, di),
                    });
                if di == decls.len() - 1 {
                    assert(whole[whole.len() - 1] == c);
                } else {
                    assert(rest.contains(c));
                    let k = choose|k: int| 0 <= k < rest.len() && rest[k] == c;
                    assert(whole[k] == c);
                }
                assert(whole.contains(c));
            }
        } else {
            assert(whole == rest);
            if whole.contains(c) {
                let di = choose|di: int|
                    0 <= di < decls.len() - 1 && (#[trigger] decls.drop_last()[di]).property == p
                        && c == (CandV {
                        value: decls.drop_last()[di].value,
                        important: decls.drop_last()[di].important,
                        spec: s,
                        pos: (ri, di),
                    });
                assert(decls[di].property == p);
            }
            if exists|di: int|
                0 <= di < decls.len() && (#[trigger] decls[di]).property == p && c == (CandV {
                    value: decls[di].value,
                    important: decls[di].important,
                    spec: s,
                    pos: (ri, di),
                }) {
                let di = choose|di: int|
                    0 <= di < decls.len() && (#[trigger] decls[di]).property == p && c == (CandV {
                        value: decls[di].value,
                        important: decls[di].important,
                        spec: s,
                        pos: (ri, di),
                    });
                assert(di < decls.len() - 1);
                assert(decls.drop_last()[di].property == p);
            }
        }
    }
}

/// A candidate list holds exactly the declarations for `p` of the
/// matching rules, each tagged with its rule's best specificity and
/// its position.
pub proof fn lemma_all_cands_mem(rules: Seq<RuleV>, e: ElemV, p: CSSProperty, c: CandV)
    ensures
        all_cands(rules, e, p).contains(c) <==> exists|ri: int, di: int|
            #![trigger is_cand_pos(rules, e, p, ri, di)]
            is_cand_pos(rules, e, p, ri, di) && c == cand_at(rules, e, ri, di),
    decreases rules.len(),
{
    if rules.len() == 0 {
    } else {
        lemma_all_cands_mem(rules.drop_last(), e, p, c);
        let rest = all_cands(rules.drop_last(), e, p);
        let whole = all_cands(rules, e, p);
        let last_ri = rules.len() - 1;
        assert(forall|k: int| 0 <= k < rules.len() - 1 ==> rules.drop_last()[k] == #[trigger] rules[k]);
        let block = match best_specificity(rules.last().selectors, e) {
            Some(s) => decls_cands(rules.last().decls, s, p, last_ri),
            None => Seq::<CandV>::empty(),
        };
        assert(whole == rest + block);
        match best_specificity(rules.last().selectors, e) {
            Some(s) => {
                lemma_decls_cands_mem(rules.last().decls, s, p, last_ri, c);
            },
            None => {},
        }
        if whole.contains(c) {
            let k = choose|k: int| 0 <= k < whole.len() && whole[k] == c;
            if k < rest.len() {
                assert(rest[k] == c);
                assert(rest.contains(c));
                let (ri, di) = choose|ri: int, di: int|
                    #![trigger is_cand_pos(rules.drop_last(), e, p, ri, di)]
                    is_cand_pos(rules.drop_last(), e, p, ri, di) && c == cand_at(
                        rules.drop_last(),
                        e,
                        ri,
                        di,
                    );
                assert(is_cand_pos(rules, e, p, ri, di) && c == cand_at(rules, e, ri, di));
            } else {
                assert(block[k - rest.len()] == c);
                assert(block.contains(c));
                let s = best_specificity(rules.last().selectors, e)->0;
                let di = choose|di: int|
                    0 <= di < rules.last().decls.len() && (#[trigger] rules.last().decls[di]).property
                        == p && c == (CandV {
                        value: rules.last().decls[di].value,
                        important: rules.last().decls[di].important,
                        spec: s,
                        pos: (last_ri, di),
                    });
                assert(is_cand_pos(rules, e, p, last_ri, di) && c == cand_at(rules, e, last_ri, di));
            }
        }
        if exists|ri: int, di: int|
            #![trigger is_cand_pos(rules, e, p, ri, di)]
            is_cand_pos(rules, e, p, ri, di) && c == cand_at(rules, e, ri, di) {
            let (ri, di) = choose|ri: int, di: int|
                #![trigger is_cand_pos(rules, e, p, ri, di)]
                is_cand_pos(rules, e, p, ri, di) && c == cand_at(rules, e, ri, di);
            if ri < rules.len() - 1 {
                assert(is_cand_pos(rules.drop_last(), e, p, ri, di) && c == cand_at(
                    rules.drop_last(),
                    e,
                    ri,
                    di,
                ));
                assert(rest.contains(c));
                let k = choose|k: int| 0 <= k < rest.len() && rest[k] == c;
                assert(whole[k] == c);
            } else {
                let s = best_specificity(rules.last().selectors, e)->0;
                assert(block.contains(c));
                let k = choose|k: int| 0 <= k < block.len() && block[k] == c;
                assert(whole[rest.len() + k] == c);
            }
            assert(whole.contains(c));
        }
    }
}


/// Specificity ordering, in general: whatever else the stylesheet
/// holds, when no matching declaration for `p` is important, a
/// matching rule of strictly lower specificity than some other
/// matching rule declaring `p` never supplies the winner.
pub proof fn lemma_lower_specificity_never_wins(
    rules: Seq<RuleV>,
    e: ElemV,
    p: CSSProperty,
    hi: int,
    dhi: int,
    lo: int,
)
    requires
        is_cand_pos(rules, e, p, hi, dhi),
        0 <= lo < rules.len(),
        spec3_lt(
            best_specificity(rules[lo].selectors, e)->0,
            best_specificity(rules[hi].selectors, e)->0,
        ),
        forall|ri: int, di: int|
            #[trigger] is_cand_pos(rules, e, p, ri, di) ==> !rules[ri].decls[di].important,
    ensures
        best_cand(all_cands(rules, e, p)) matches Some(w) && w.pos.0 != lo && cascade(rules, e, p)
            == Some((w.value, w.important)),
{
    let cands = all_cands(rules, e, p);
    let chi = cand_at(rules, e, hi, dhi);
    lemma_all_cands_mem(rules, e, p, chi);
    assert(cands.contains(chi));
    assert(cands.len() > 0);
    lemma_best_cand_is_max(cands);
    let w = best_cand(cands)->0;
    lemma_all_cands_mem(rules, e, p, w);
    let (rw, dw) = choose|ri: int, di: int|
        #![trigger is_cand_pos(rules, e, p, ri, di)]
        is_cand_pos(rules, e, p, ri, di) && w == cand_at(rules, e, ri, di);
    if w.pos.0 == lo {
        assert(rw == lo);
        assert(!w.important && !chi.important);
        assert(cand_lt(w, chi));
        let k = choose|k: int| 0 <= k < cands.len() && cands[k] == chi;
        assert(!cand_lt(w, cands[k]));
    }
}

/// Cascade order, in general: whatever else the stylesheet holds,
/// when no matching declaration for `p` is important, the earlier of
/// two matching rules of equal specificity declaring `p` never
/// supplies the winner.
pub proof fn lemma_earlier_equal_rule_never_wins(
    rules: Seq<RuleV>,
    e: ElemV,
    p: CSSProperty,
    i: int,
    j: int,
    dj: int,
)
    requires
        0 <= i < rules.len(),
        best_specificity(rules[i].selectors, e) is Some,
        is_cand_pos(rules, e, p, j, dj),
        i < j,
        best_specificity(rules[i].selectors, e) == best_specificity(rules[j].selectors, e),
        forall|ri: int, di: int|
            #[trigger] is_cand_pos(rules, e, p, ri, di) ==> !rules[ri].decls[di].important,
    ensures
        best_cand(all_cands(rules, e, p)) matches Some(w) && w.pos.0 != i && cascade(rules, e, p)
            == Some((w.value, w.important)),
{
    let cands = all_cands(rules, e, p);
    let cj = cand_at(rules, e, j, dj);
    lemma_all_cands_mem(rules, e, p, cj);
    assert(cands.contains(cj));
    assert(cands.len() > 0);
    lemma_best_cand_is_max(cands);
    let w = best_cand(cands)->0;
    lemma_all_cands_mem(rules, e, p, w);
    let (rw, dw) = choose|ri: int, di: int|
        #![trigger is_cand_pos(rules, e, p, ri, di)]
        is_cand_pos(rules, e, p, ri, di) && w == cand_at(rules, e, ri, di);
    if w.pos.0 == i {
        assert(rw == i);
        assert(!w.important && !cj.important);
        assert(w.spec == cj.spec);
        assert(pos_lt(w.pos, cj.pos));
        assert(cand_lt(w, cj));
        let k = choose|k: int| 0 <= k < cands.len() && cands[k] == cj;
        assert(!cand_lt(w, cands[k]));
    }
}

/// Important override, in general: whenever any matching rule
/// declares `p`, the cascade resolves it, and the winner is important
/// exactly when some matching declaration for `p` is important — a
/// plain declaration never buries an important one, and an important
/// one always surfaces.
pub proof fn lemma_important_override_general(rules: Seq<RuleV>, e: ElemV, p: CSSProperty)
    requires
        exists|ri: int, di: int| #[trigger] is_cand_pos(rules, e, p, ri, di),
    ensures
        best_cand(all_cands(rules, e, p)) matches Some(w) && cascade(rules, e, p) == Some(
            (w.value, w.important),
        ) && (w.important <==> exists|ri: int, di: int|
            #[trigger] is_cand_pos(rules, e, p, ri, di) && rules[ri].decls[di].important),
{
    let cands = all_cands(rules, e, p);
    let (ri0, di0) = choose|ri: int, di: int| #[trigger] is_cand_pos(rules, e, p, ri, di);
    let c0 = cand_at(rules, e, ri0, di0);
    lemma_all_cands_mem(rules, e, p, c0);
    assert(cands.contains(c0));
    assert(cands.len() > 0);
    lemma_important_wins(cands);
    let w = best_cand(cands)->0;
    if w.important {
        let k = choose|k: int| 0 <= k < cands.len() && (#[trigger] cands[k]).important;
        let c = cands[k];
        assert(cands.contains(c));
        lemma_all_cands_mem(rules, e, p, c);
        let (ri, di) = choose|ri: int, di: int|
            #![trigger is_cand_pos(rules, e, p, ri, di)]
            is_cand_pos(rules, e, p, ri, di) && c == cand_at(rules, e, ri, di);
        assert(is_cand_pos(rules, e, p, ri, di) && rules[ri].decls[di].important);
    }
    if exists|ri: int, di: int|
        #[trigger] is_cand_pos(rules, e, p, ri, di) && rules[ri].decls[di].important {
        let (ri, di) = choose|ri: int, di: int|
            #[trigger] is_cand_pos(rules, e, p, ri, di) && rules[ri].decls[di].important;
        let c = cand_at(rules, e, ri, di);
        lemma_all_cands_mem(rules, e, p, c);
        assert(cands.contains(c));
        let k = choose|k: int| 0 <= k < cands.len() && cands[k] == c;
        assert(cands[k].important);
    }
}


/// Among important declarations for `p`, one outranked by another —
/// lower specificity, or the same specificity but an earlier position
/// — never supplies the winner: the last-applied important
/// declaration wins.
pub proof fn lemma_outranked_important_never_wins(
    rules: Seq<RuleV>,
    e: ElemV,
    p: CSSProperty,
    i: int,
    di: int,
    j: int,
    dj: int,
)
    requires
        is_cand_pos(rules, e, p, i, di),
        is_cand_pos(rules, e, p, j, dj),
        rules[i].decls[di].important,
        rules[j].decls[dj].important,
        spec3_lt(
            best_specificity(rules[i].selectors, e)->0,
            best_specificity(rules[j].selectors, e)->0,
        ) || (best_specificity(rules[i].selectors, e) == best_specificity(rules[j].selectors, e)
            && pos_lt((i, di), (j, dj))),
    ensures
        best_cand(all_cands(rules, e, p)) matches Some(w) && w.pos != (i, di) && cascade(
            rules,
            e,
            p,
        ) == Some((w.value, w.important)),
{
    let cands = all_cands(rules, e, p);
    let ci = cand_at(rules, e, i, di);
    let cj = cand_at(rules, e, j, dj);
    lemma_all_cands_mem(rules, e, p, ci);
    lemma_all_cands_mem(rules, e, p, cj);
    assert(cands.contains(cj));
    assert(cands.len() > 0);
    lemma_best_cand_is_max(cands);
    let w = best_cand(cands)->0;
    lemma_all_cands_mem(rules, e, p, w);
    let (rw, dw) = choose|ri2: int, di2: int|
        #![trigger is_cand_pos(rules, e, p, ri2, di2)]
        is_cand_pos(rules, e, p, ri2, di2) && w == cand_at(rules, e, ri2, di2);
    if w.pos == (i, di) {
        assert((rw, dw) == (i, di));
        assert(w == ci);
        assert(cand_lt(w, cj));
        let k = choose|k: int| 0 <= k < cands.len() && cands[k] == cj;
        assert(!cand_lt(w, cands[k]));
    }
}

} // verus!
