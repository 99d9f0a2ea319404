//! Small text utilities around the pipeline.
use vstd::prelude::*;
use vstd::string::StrSliceExecFns;
use vstd::string::StringExecFns;

use crate::text::{is_space, is_space_char};

verus! {

/// `s` with every whitespace character removed.
pub open spec fn spec_minify(s: Seq<char>) -> Seq<char>
    decreases s.len(),
{
    if s.len() == 0 {
        Seq::empty()
    } else if is_space_char(s.last()) {
        spec_minify(s.drop_last())
    } else {
        spec_minify(s.drop_last()).push(s.last())
    }
}

/// Strips all whitespace from a stylesheet's text.
pub fn minify(css: &str) -> (r: String)
    ensures
        r@ == spec_minify(css@),
{
    let n = css.unicode_len();
    let mut out = String::new();
    let mut i: usize = 0;
    while i < n
        invariant
            0 <= i <= n,
            n == css@.len(),
            out@ == spec_minify(css@.subrange(0, i as int)),
        decreases n - i,
    {
        let c = css.get_char(i);
        proof {
            assert(css@.subrange(0, i as int + 1).drop_last() =~= css@.subrange(0, i as int));
            assert(css@.subrange(0, i as int + 1).last() == css@[i as int]);
        }
        if !is_space(c) {
            let piece = css.substring_char(i, i + 1);
            proof {
                assert(piece@ =~= seq![css@[i as int]]);
            }
            out.append(piece);
            proof {
                assert(out@ =~= spec_minify(css@.subrange(0, i as int)).push(css@[i as int]));
            }
        }
        i = i + 1;
    }
    proof {
        assert(css@.subrange(0, n as int) =~= css@);
    }
    out
}

/// Nothing whitespace survives minification.
pub proof fn lemma_minify_no_space(s: Seq<char>)
    ensures
        forall|k: int|
            0 <= k < spec_minify(s).len() ==> !is_space_char(#[trigger] spec_minify(s)[k]),
    decreases s.len(),
{
    if s.len() > 0 {
        lemma_minify_no_space(s.drop_last());
        if !is_space_char(s.last()) {
            assert forall|k: int|
                0 <= k < spec_minify(s).len() implies !is_space_char(
                #[trigger] spec_minify(s)[k],
            ) by {
                if k < spec_minify(s).len() - 1 {
                    assert(spec_minify(s)[k] == spec_minify(s.drop_last())[k]);
                }
            }
        }
    }
}

/// Minification leaves a whitespace-free text as it stands.
pub proof fn lemma_minify_spaceless_identity(s: Seq<char>)
    requires
        forall|k: int| 0 <= k < s.len() ==> !is_space_char(#[trigger] s[k]),
    ensures
        spec_minify(s) == s,
    decreases s.len(),
{
    if s.len() > 0 {
        assert(forall|k: int|
            0 <= k < s.len() - 1 ==> !is_space_char(#[trigger] s.drop_last()[k]));
        lemma_minify_spaceless_identity(s.drop_last());
        assert(!is_space_char(s.last()));
        assert(spec_minify(s) =~= s);
    }
}

/// Minification is idempotent: a second pass changes nothing.
pub proof fn lemma_minify_idempotent(s: Seq<char>)
    ensures
        spec_minify(spec_minify(s)) == spec_minify(s),
{
    lemma_minify_no_space(s);
    lemma_minify_spaceless_identity(spec_minify(s));
}

} // verus!
