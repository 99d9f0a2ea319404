//! The pipeline: stylesheet and document text in, a box tree out,
//! ready for a `layout` pass against a containing block.
use vstd::prelude::*;

use crate::cssom::RuleV;
use crate::dom::{ElemV, NodeKindV, NodeV, TagType};
use crate::layout::{generate_layout_tree, spec_build, LayoutBox, LayoutError};
use crate::parser::css::spec_parse_stylesheet;
use crate::parser::html::spec_parse_nodes;
use crate::parser::{CSSParser, HTMLParser, ParseError};
use crate::style::{computed_display, generate_styled_node, styled_rel, Display, StyledV};

verus! {

/// Why the pipeline stopped.
#[derive(Debug, Clone, Copy, PartialEq, Eq, Structural)]
pub enum EngineError {
    /// The stylesheet or the document did not parse.
    Parse(ParseError),
    /// The box tree could not be built.
    Layout(LayoutError),
}

/// The stylesheet a piece of text denotes: its grammar's rules.
pub open spec fn denoted_stylesheet(css: Seq<char>) -> Result<Seq<RuleV>, ParseError> {
    match spec_parse_stylesheet(css, 0) {
        Ok((rules, _)) => Ok(rules),
        Err(e) => Err(e),
    }
}

/// The document a piece of text denotes: its grammar's top-level
/// nodes under a synthetic html root with no attributes.
pub open spec fn denoted_document(html: Seq<char>) -> Result<NodeV, ParseError> {
    match spec_parse_nodes(html, 0) {
        Ok((kids, _)) => Ok(
            NodeV {
                kind: NodeKindV::Element(ElemV { tag: TagType::Html, attrs: Seq::empty() }),
                children: kids,
            },
        ),
        Err(e) => Err(e),
    }
}

/// Parses the document and the stylesheet, resolves styles, and
/// builds the layout box tree. Success is owed exactly when both
/// texts parse and the document's root does not compute hidden; the
/// tree handed back is the build of a styled tree faithful to the
/// denoted document under the denoted rules.
pub fn parse_to_layout(html: &str, css: &str) -> (r: Result<LayoutBox, EngineError>)
    ensures
        match r {
            Ok(b) => denoted_stylesheet(css@) matches Ok(rules) && denoted_document(
                html@,
            ) matches Ok(dom) && exists|s: StyledV|
                styled_rel(s, dom, rules) && computed_display(s) != Display::Hidden && b@
                    == #[trigger] spec_build(s),
            Err(EngineError::Parse(e)) => denoted_stylesheet(css@) == Err::<
                Seq<RuleV>,
                ParseError,
            >(e) || (denoted_stylesheet(css@) is Ok && denoted_document(html@) == Err::<
                NodeV,
                ParseError,
            >(e)),
            Err(EngineError::Layout(e)) => {
                &&& e == LayoutError::HiddenRoot
                &&& denoted_stylesheet(css@) matches Ok(rules) && denoted_document(
                    html@,
                ) matches Ok(dom) && (exists|s: StyledV|
                    #[trigger] styled_rel(s, dom, rules) && computed_display(s)
                        == Display::Hidden)
            },
        },
{
    let mut css_parser = CSSParser::new(css);
    let stylesheet = match css_parser.parse() {
        Ok(s) => s,
        Err(e) => {
            return Err(EngineError::Parse(e));
        },
    };
    let mut html_parser = HTMLParser::new(html);
    let dom = match html_parser.parse() {
        Ok(d) => d,
        Err(e) => {
            return Err(EngineError::Parse(e));
        },
    };
    let styled_dom = generate_styled_node(&dom, &stylesheet);
    proof {
        assert(denoted_stylesheet(css@) == Ok::<Seq<RuleV>, ParseError>(stylesheet@));
        assert(denoted_document(html@) == Ok::<NodeV, ParseError>(dom@));
        assert(styled_rel(styled_dom@, dom@, stylesheet@));
    }
    match generate_layout_tree(&styled_dom) {
        Ok(tree) => {
            proof {
                // the styled tree just built witnesses the pipeline's claim
                assert(styled_rel(styled_dom@, dom@, stylesheet@) && computed_display(styled_dom@)
                    != Display::Hidden && tree@ == spec_build(styled_dom@));
            }
            Ok(tree)
        },
        Err(e) => {
            proof {
                // the styled tree witnesses the hidden root
                assert(computed_display(styled_dom@) == Display::Hidden);
                assert(styled_rel(
                    styled_dom@,
                    denoted_document(html@)->Ok_0,
                    denoted_stylesheet(css@)->Ok_0,
                ));
            }
            Err(EngineError::Layout(e))
        },
    }
}

} // verus!
