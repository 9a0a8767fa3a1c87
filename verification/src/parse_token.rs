//! Tree nodes produced by the parser, and their mathematical model.

use vstd::prelude::*;

use crate::token::Token;
use crate::token::TokenModel;
use crate::token::tags_model;
use crate::token::token_model;
use crate::token::tokens_model;

verus! {

/// Mathematical model of a tree node: content and tags as character
/// sequences, children modelled recursively.
#[verifier::ext_equal]
pub ghost struct PtModel {
    pub content: Seq<char>,
    pub tags: Seq<Seq<char>>,
    pub children: Seq<PtModel>,
    pub line: nat,
    pub col: nat,
    pub file: Seq<char>,
}

/// A tree node: leaves are lifted tokens with no children, internal nodes are
/// produced by combine-mode rules and carry the matched run as children.
pub struct ParseToken {
    pub content: String,
    pub tags: Vec<String>,
    pub children: Vec<ParseToken>,
    pub line: usize,
    pub char: usize,
    pub file: String,
}

/// The model of one tree node.
pub open spec fn pt_model(p: ParseToken) -> PtModel
    decreases p,
{
    PtModel {
        content: p.content@,
        tags: tags_model(p.tags@),
        children: pts_model(p.children@),
        line: p.line as nat,
        col: p.char as nat,
        file: p.file@,
    }
}

/// The model of a sequence of tree nodes.
pub open spec fn pts_model(s: Seq<ParseToken>) -> Seq<PtModel>
    decreases s,
{
    if s.len() == 0 {
        Seq::empty()
    } else {
        seq![pt_model(s[0])] + pts_model(s.subrange(1, s.len() as int))
    }
}

/// `pts_model` maps `pt_model` over the sequence: it keeps the length and
/// models each node in place.
pub broadcast proof fn lemma_pts_model(s: Seq<ParseToken>)
    ensures
        (#[trigger] pts_model(s)).len() == s.len(),
        forall|i: int| 0 <= i < s.len() ==> pts_model(s)[i] == pt_model(s[i]),
    decreases s.len(),
{
    if s.len() > 0 {
        lemma_pts_model(s.subrange(1, s.len() as int));
    }
}

impl ParseToken {
    /// The text this node covers: for a leaf the underlying character, for an
    /// internal node the ordered concatenation of its children's content.
    pub fn content(&self) -> (r: &str)
        ensures
            r@ == self.content@,
    {
        self.content.as_str()
    }
}

/// The leaf node a token lifts to: same content, tags and position, no
/// children.
pub open spec fn lift_model(t: TokenModel) -> PtModel {
    PtModel {
        content: t.content,
        tags: t.tags,
        children: Seq::empty(),
        line: t.line,
        col: t.col,
        file: t.file,
    }
}

/// The leaf sequence a token sequence lifts to, one leaf per token.
pub open spec fn lift_models(s: Seq<TokenModel>) -> Seq<PtModel> {
    s.map_values(|t: TokenModel| lift_model(t))
}

/// Promotes one token to a leaf node.
fn lift_token(t: Token) -> (r: ParseToken)
    ensures
        pt_model(r) == lift_model(token_model(t)),
{
    let r = ParseToken {
        content: t.content,
        tags: t.tags,
        children: Vec::new(),
        line: t.line,
        char: t.char,
        file: t.file,
    };
    proof {
        assert(pts_model(r.children@) =~= Seq::<PtModel>::empty());
    }
    r
}

/// Promotes a token sequence to a leaf node sequence, 1:1, with empty
/// children.
pub fn to_parse_tokens(tokens: Vec<Token>) -> (r: Vec<ParseToken>)
    ensures
        pts_model(r@) == lift_models(tokens_model(tokens@)),
{
    broadcast use lemma_pts_model;

    let ghost orig = tokens@;
    let mut tokens = tokens;
    let mut to_ret: Vec<ParseToken> = Vec::new();
    let mut i: usize = 0;
    let n = tokens.len();
    while i < n
        invariant
            n == orig.len(),
            i <= n,
            tokens@ == orig.subrange(i as int, orig.len() as int),
            to_ret@.len() == i,
            forall|j: int|
                0 <= j < i ==> pt_model(#[trigger] to_ret@[j]) == lift_model(
                    token_model(orig[j]),
                ),
        decreases n - i,
    {
        let t = tokens.remove(0);
        proof {
            assert(t == orig[i as int]);
            assert(tokens@ =~= orig.subrange(i + 1, orig.len() as int));
        }
        to_ret.push(lift_token(t));
        i = i + 1;
    }
    proof {
        assert(pts_model(to_ret@) =~= lift_models(tokens_model(orig)));
    }
    to_ret
}

} // verus!
