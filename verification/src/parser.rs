//! The parser engine: tag-pattern rules applied to a node sequence until a
//! full pass makes no change, folding runs of nodes into parent nodes or
//! annotating them with tags.

use vstd::prelude::*;

use crate::parse_token::ParseToken;
use crate::parse_token::PtModel;
use crate::parse_token::lemma_pts_model;
use crate::parse_token::pt_model;
use crate::parse_token::pts_model;
use crate::token::tags_model;
use crate::token::clone_strings;
use crate::token::tags_contain;

verus! {

broadcast use lemma_pts_model;

/// A declarative rewrite rule: an ordered list of required match tags (one
/// per pattern position), an optional single repeatable position, the output
/// tags, and the mode: combine (`add_all == false`, fold the matched run into
/// one parent node) or annotate (`add_all == true`, add the output tags to
/// every node of the run).
pub struct Rule {
    pub matches: Vec<String>,
    pub tags: Vec<String>,
    pub repeat: Option<usize>,
    pub add_all: bool,
}

/// An ordered list of rules, applied in order within each fixpoint pass.
pub struct Parser {
    pub rules: Vec<Rule>,
}

/// The fatal condition of a rule set that never reaches a fixpoint: the pass
/// ceiling was exceeded, which signals a rule-authoring defect, never a
/// data-dependent failure.
#[derive(Debug, Clone, Copy, PartialEq, Eq)]
pub enum ParseError {
    DepthLimitExceeded,
}

/// Mathematical model of a rule.
#[verifier::ext_equal]
pub ghost struct RuleModel {
    pub matches: Seq<Seq<char>>,
    pub tags: Seq<Seq<char>>,
    pub repeat: Option<int>,
    pub add_all: bool,
}

/// The model of one rule.
pub open spec fn rule_model(r: Rule) -> RuleModel {
    RuleModel {
        matches: tags_model(r.matches@),
        tags: tags_model(r.tags@),
        repeat: match r.repeat {
            Some(u) => Some(u as int),
            None => None,
        },
        add_all: r.add_all,
    }
}

/// The model of a rule sequence.
pub open spec fn rules_model(s: Seq<Rule>) -> Seq<RuleModel> {
    s.map_values(|r: Rule| rule_model(r))
}

/// Whether a node carries `tag`.
pub open spec fn node_has_tag(n: PtModel, tag: Seq<char>) -> bool {
    n.tags.contains(tag)
}

/// The pattern walk from rule position `ir` and token offset `off` within the
/// window at `start`: walks both pointers forward and returns the total
/// number of nodes the window consumes, or `None` when the window fails.
///
/// The repeat position consumes any number of consecutive matching nodes and
/// moves on only once its tag check fails or the sequence ends; a trailing
/// repeat position may match zero nodes at the end of the sequence.
pub open spec fn match_from(
    r: RuleModel,
    nodes: Seq<PtModel>,
    start: int,
    ir: int,
    off: int,
) -> Option<int>
    decreases r.matches.len() - ir, nodes.len() - (start + off),
{
    if ir < 0 || off < 0 || start < 0 {
        None
    } else if ir >= r.matches.len() {
        Some(off)
    } else if start + off >= nodes.len() {
        if ir == r.matches.len() - 1 && r.repeat == Some(ir) {
            Some(off)
        } else {
            None
        }
    } else if !node_has_tag(nodes[start + off], r.matches[ir]) {
        if r.repeat == Some(ir) {
            match_from(r, nodes, start, ir + 1, off)
        } else {
            None
        }
    } else {
        if r.repeat == Some(ir) {
            match_from(r, nodes, start, ir, off + 1)
        } else {
            match_from(r, nodes, start, ir + 1, off + 1)
        }
    }
}

/// A window that consumes at least one node succeeds; one that consumes no
/// node counts as no match.
pub open spec fn window_match(r: RuleModel, nodes: Seq<PtModel>, start: int) -> Option<int> {
    match match_from(r, nodes, start, 0, 0) {
        Some(k) => if k >= 1 {
            Some(k)
        } else {
            None
        },
        None => None,
    }
}

/// A successful walk never consumes more nodes than the sequence holds past
/// `start`.
pub proof fn lemma_match_from_bounds(r: RuleModel, nodes: Seq<PtModel>, start: int, ir: int, off: int)
    requires
        match_from(r, nodes, start, ir, off) is Some,
    ensures
        off <= match_from(r, nodes, start, ir, off)->Some_0,
        start + match_from(r, nodes, start, ir, off)->Some_0 <= vstd::math::max(
            nodes.len() as int,
            start + off,
        ),
    decreases r.matches.len() - ir, nodes.len() - (start + off),
{
    if ir < 0 || off < 0 || start < 0 {
    } else if ir >= r.matches.len() {
    } else if start + off >= nodes.len() {
    } else if !node_has_tag(nodes[start + off], r.matches[ir]) {
        if r.repeat == Some(ir) {
            lemma_match_from_bounds(r, nodes, start, ir + 1, off);
        }
    } else {
        if r.repeat == Some(ir) {
            lemma_match_from_bounds(r, nodes, start, ir, off + 1);
        } else {
            lemma_match_from_bounds(r, nodes, start, ir + 1, off + 1);
        }
    }
}

/// A successful window consumes between one node and all nodes past `start`.
pub proof fn lemma_window_match_bounds(r: RuleModel, nodes: Seq<PtModel>, start: int)
    requires
        0 <= start < nodes.len(),
        window_match(r, nodes, start) is Some,
    ensures
        1 <= window_match(r, nodes, start)->Some_0 <= nodes.len() - start,
{
    lemma_match_from_bounds(r, nodes, start, 0, 0);
}

/// The ordered concatenation of the nodes' content.
pub open spec fn concat_contents(s: Seq<PtModel>) -> Seq<char>
    decreases s.len(),
{
    if s.len() == 0 {
        Seq::empty()
    } else {
        s[0].content + concat_contents(s.subrange(1, s.len() as int))
    }
}

/// Concatenation splits off its last element.
pub proof fn lemma_concat_contents_snoc(s: Seq<PtModel>)
    requires
        s.len() > 0,
    ensures
        concat_contents(s) == concat_contents(s.drop_last()) + s.last().content,
    decreases s.len(),
{
    if s.len() == 1 {
        assert(s.drop_last() =~= Seq::empty());
        assert(s.subrange(1, s.len() as int) =~= Seq::empty());
        assert(s[0] == s.last());
        assert(concat_contents(Seq::<PtModel>::empty()) == Seq::<char>::empty());
        assert(concat_contents(s) == s[0].content + Seq::<char>::empty());
        assert(s[0].content + Seq::<char>::empty() =~= s[0].content);
        assert(concat_contents(s.drop_last()) + s.last().content =~= s.last().content);
    } else {
        let t = s.subrange(1, s.len() as int);
        lemma_concat_contents_snoc(t);
        assert(t.drop_last() =~= s.drop_last().subrange(1, s.drop_last().len() as int));
        assert(t.last() == s.last());
        assert(s.drop_last()[0] == s[0]);
        assert(concat_contents(s) =~= concat_contents(s.drop_last()) + s.last().content);
    }
}

/// The parent node a combine-mode match produces: content is the ordered
/// concatenation of the matched nodes' content, the tags are exactly the
/// rule's output tags, the children are the matched run in original order,
/// and the position metadata comes from the first matched node.
pub open spec fn combined_node(
    nodes: Seq<PtModel>,
    start: int,
    k: int,
    tags: Seq<Seq<char>>,
) -> PtModel {
    PtModel {
        content: concat_contents(nodes.subrange(start, start + k)),
        tags: tags,
        children: nodes.subrange(start, start + k),
        line: nodes[start].line,
        col: nodes[start].col,
        file: nodes[start].file,
    }
}

/// Splices the matched run `[start, start + k)` out and inserts the one
/// parent node in its place: the sequence shrinks by `k - 1`.
pub open spec fn apply_combine(
    nodes: Seq<PtModel>,
    start: int,
    k: int,
    tags: Seq<Seq<char>>,
) -> Seq<PtModel> {
    nodes.subrange(0, start) + seq![combined_node(nodes, start, k, tags)] + nodes.subrange(
        start + k,
        nodes.len() as int,
    )
}

/// Appends, in order, each tag of `adds` that `tags` does not already hold.
pub open spec fn add_missing(tags: Seq<Seq<char>>, adds: Seq<Seq<char>>) -> Seq<Seq<char>>
    decreases adds.len(),
{
    if adds.len() == 0 {
        tags
    } else {
        let next = if tags.contains(adds[0]) {
            tags
        } else {
            tags.push(adds[0])
        };
        add_missing(next, adds.subrange(1, adds.len() as int))
    }
}

/// A node with the missing tags of `adds` appended; everything else is
/// untouched.
pub open spec fn annotated_node(n: PtModel, adds: Seq<Seq<char>>) -> PtModel {
    PtModel { tags: add_missing(n.tags, adds), ..n }
}

/// Annotates the nodes of `[start, end)` (clamped to the sequence) with the
/// missing tags of `adds`; the structure is untouched.
pub open spec fn apply_annotate(
    nodes: Seq<PtModel>,
    start: int,
    end: int,
    adds: Seq<Seq<char>>,
) -> Seq<PtModel> {
    Seq::new(
        nodes.len(),
        |i: int|
            if start <= i < end {
                annotated_node(nodes[i], adds)
            } else {
                nodes[i]
            },
    )
}

/// Whether annotating `[start, end)` actually adds some tag somewhere.
pub open spec fn annotate_changed(
    nodes: Seq<PtModel>,
    start: int,
    end: int,
    adds: Seq<Seq<char>>,
) -> bool {
    exists|i: int|
        0 <= i < nodes.len() && start <= i < end && add_missing(#[trigger] nodes[i].tags, adds)
            != nodes[i].tags
}

/// One full traversal of a rule from window start `start`: at each start the
/// window is attempted; a match applies the rule (combine or annotate) and
/// either way the start advances by one, so overlapping windows are always
/// attempted. Returns the rewritten sequence and the changed flag.
pub open spec fn rule_traverse_spec(
    r: RuleModel,
    nodes: Seq<PtModel>,
    start: int,
    changed: bool,
) -> (Seq<PtModel>, bool)
    decreases nodes.len() - start,
    when start >= 0
    via rule_traverse_spec_dec
{
    if start >= nodes.len() {
        (nodes, changed)
    } else {
        match window_match(r, nodes, start) {
            None => rule_traverse_spec(r, nodes, start + 1, changed),
            Some(k) => if r.add_all {
                rule_traverse_spec(
                    r,
                    apply_annotate(nodes, start, start + k, r.tags),
                    start + 1,
                    changed || annotate_changed(nodes, start, start + k, r.tags),
                )
            } else {
                rule_traverse_spec(r, apply_combine(nodes, start, k, r.tags), start + 1, true)
            },
        }
    }
}

#[via_fn]
proof fn rule_traverse_spec_dec(r: RuleModel, nodes: Seq<PtModel>, start: int, changed: bool) {
    if 0 <= start < nodes.len() {
        match window_match(r, nodes, start) {
            None => {},
            Some(k) => {
                lemma_window_match_bounds(r, nodes, start);
                assert(apply_annotate(nodes, start, start + k, r.tags).len() == nodes.len());
                assert(apply_combine(nodes, start, k, r.tags).len() == nodes.len() - k + 1);
            },
        }
    }
}

/// One fixpoint pass: every rule traversed once, in order, threading the node
/// sequence and the changed flag.
pub open spec fn pass_spec(rules: Seq<RuleModel>, nodes: Seq<PtModel>, changed: bool) -> (
    Seq<PtModel>,
    bool,
)
    decreases rules.len(),
{
    if rules.len() == 0 {
        (nodes, changed)
    } else {
        let first = rule_traverse_spec(rules[0], nodes, 0, changed);
        pass_spec(rules.subrange(1, rules.len() as int), first.0, first.1)
    }
}

/// The parser fixpoint: passes repeat until one makes no change. `fuel` is
/// how many further passes the depth ceiling still allows after the first;
/// the second component tells whether the fixpoint was reached within it.
pub open spec fn parse_fix(rules: Seq<RuleModel>, nodes: Seq<PtModel>, fuel: nat) -> (
    Seq<PtModel>,
    bool,
)
    decreases fuel,
{
    let p = pass_spec(rules, nodes, false);
    if !p.1 {
        (p.0, true)
    } else if fuel == 0 {
        (p.0, false)
    } else {
        parse_fix(rules, p.0, (fuel - 1) as nat)
    }
}

/// Appends to `tags`, in order, each tag of `adds` that it does not already
/// hold, and raises `changed` when some tag was appended.
fn add_tags(tags: &mut Vec<String>, adds: &Vec<String>, changed: &mut bool)
    ensures
        tags_model(final(tags)@) == add_missing(tags_model(old(tags)@), tags_model(adds@)),
        *final(changed) == (*old(changed) || tags_model(final(tags)@) != tags_model(
            old(tags)@,
        )),
{
    let ghost orig = tags_model(old(tags)@);
    let ghost adds_m = tags_model(adds@);
    let n = adds.len();
    proof {
        assert(adds_m.subrange(0, n as int) =~= adds_m);
    }
    let mut j: usize = 0;
    while j < n
        invariant
            n == adds@.len(),
            j <= n,
            adds_m == tags_model(adds@),
            orig.len() <= tags_model(tags@).len(),
            tags_model(tags@).len() == orig.len() ==> tags_model(tags@) == orig,
            add_missing(orig, adds_m) == add_missing(
                tags_model(tags@),
                adds_m.subrange(j as int, n as int),
            ),
            *changed == (*old(changed) || tags_model(tags@) != orig),
        decreases n - j,
    {
        let ghost before = tags_model(tags@);
        let ghost suffix = adds_m.subrange(j as int, n as int);
        proof {
            assert(suffix[0] == adds_m[j as int]);
            assert(suffix.subrange(1, suffix.len() as int) =~= adds_m.subrange(
                j + 1,
                n as int,
            ));
        }
        if !tags_contain(tags, &adds[j]) {
            tags.push(adds[j].clone());
            *changed = true;
            proof {
                assert(tags_model(tags@) =~= before.push(adds_m[j as int]));
            }
        }
        j = j + 1;
    }
    proof {
        assert(adds_m.subrange(n as int, n as int) =~= Seq::<Seq<char>>::empty());
    }
}

impl Rule {
    /// Attempts this rule's pattern against the window starting at `start`:
    /// returns how many nodes the window consumes, or `None` when it fails or
    /// consumes nothing.
    fn match_at(&self, code: &Vec<ParseToken>, start: usize) -> (r: Option<usize>)
        requires
            start < code@.len(),
        ensures
            match r {
                Some(k) => window_match(rule_model(*self), pts_model(code@), start as int)
                    == Some(k as int),
                None => window_match(rule_model(*self), pts_model(code@), start as int) is None,
            },
    {
        let ghost rm = rule_model(*self);
        let ghost ns = pts_model(code@);
        let n_rule = self.matches.len();
        let n_code = code.len();
        let mut index_in_rule: usize = 0;
        let mut parse_token_index: usize = 0;
        while index_in_rule < n_rule
            invariant
                start < ns.len(),
                ns == pts_model(code@),
                rm == rule_model(*self),
                n_rule == self.matches@.len(),
                n_code == code@.len(),
                index_in_rule <= n_rule,
                start + parse_token_index <= code@.len(),
                ns.len() == code@.len(),
                match_from(rm, ns, start as int, 0, 0) == match_from(
                    rm,
                    ns,
                    start as int,
                    index_in_rule as int,
                    parse_token_index as int,
                ),
            decreases n_rule - index_in_rule, code@.len() - (start + parse_token_index),
        {
            let is_repeat = match self.repeat {
                Some(rp) => rp == index_in_rule,
                None => false,
            };
            if parse_token_index >= n_code - start {
                if index_in_rule == n_rule - 1 && is_repeat {
                    // A trailing repeat position matches zero nodes at the end.
                    if parse_token_index == 0 {
                        return None;
                    }
                    return Some(parse_token_index);
                }
                return None;
            }
            proof {
                assert(ns[start + parse_token_index] == pt_model(
                    code@[start + parse_token_index],
                ));
            }
            if !tags_contain(
                &code[parse_token_index + start].tags,
                &self.matches[index_in_rule],
            ) {
                if is_repeat {
                    index_in_rule = index_in_rule + 1;
                } else {
                    return None;
                }
            } else {
                if !is_repeat {
                    index_in_rule = index_in_rule + 1;
                }
                parse_token_index = parse_token_index + 1;
            }
        }
        if parse_token_index == 0 {
            None
        } else {
            Some(parse_token_index)
        }
    }

    /// Slides the window start across the whole node sequence, applying this
    /// rule (combine or annotate) at every start where the pattern matches; a
    /// failed window advances the start by one, and so does a successful one,
    /// so overlapping windows are always attempted. The verbose flag selects
    /// tracing, an optional side channel with no effect on results, which
    /// this library omits.
    pub fn traverse(&self, code: &mut Vec<ParseToken>, changed: &mut bool, verbose: bool)
        ensures
            pts_model(final(code)@) == rule_traverse_spec(
                rule_model(*self),
                pts_model(old(code)@),
                0,
                *old(changed),
            ).0,
            *final(changed) == rule_traverse_spec(
                rule_model(*self),
                pts_model(old(code)@),
                0,
                *old(changed),
            ).1,
    {
        let _ = verbose;
        let ghost rm = rule_model(*self);
        let ghost orig = pts_model(old(code)@);
        let ghost orig_changed = *old(changed);
        let mut start_index: usize = 0;
        while start_index < code.len()
            invariant
                rm == rule_model(*self),
                start_index <= code@.len(),
                rule_traverse_spec(rm, orig, 0, orig_changed) == rule_traverse_spec(
                    rm,
                    pts_model(code@),
                    start_index as int,
                    *changed,
                ),
            decreases code@.len() - start_index,
        {
            let ghost ns = pts_model(code@);
            match self.match_at(code, start_index) {
                None => {
                    proof {
                        assert(rule_traverse_spec(rm, ns, start_index as int, *changed)
                            == rule_traverse_spec(rm, ns, start_index + 1, *changed));
                    }
                },
                Some(k) => {
                    proof {
                        lemma_window_match_bounds(rm, ns, start_index as int);
                    }
                    if self.add_all {
                        let ghost pre_changed = *changed;
                        self.add_all(code, start_index, start_index + k, changed);
                        proof {
                            assert(rule_traverse_spec(rm, ns, start_index as int, pre_changed)
                                == rule_traverse_spec(
                                rm,
                                pts_model(code@),
                                start_index + 1,
                                *changed,
                            ));
                        }
                    } else {
                        let ghost pre_changed = *changed;
                        self.combine(code, start_index, start_index + k, changed);
                        proof {
                            assert(rule_traverse_spec(rm, ns, start_index as int, pre_changed)
                                == rule_traverse_spec(
                                rm,
                                pts_model(code@),
                                start_index + 1,
                                *changed,
                            ));
                        }
                    }
                },
            }
            start_index = start_index + 1;
        }
    }

    /// Splices the matched run `[start_index, end_index)` out and inserts one
    /// new parent node in its place: content is the ordered concatenation of
    /// the matched nodes' content, the tags are this rule's output tags, the
    /// children are the matched run in original order, and the position
    /// metadata comes from the first matched node. Raises `changed`.
    pub fn combine(
        &self,
        code: &mut Vec<ParseToken>,
        start_index: usize,
        end_index: usize,
        changed: &mut bool,
    )
        requires
            start_index < end_index <= old(code)@.len(),
        ensures
            pts_model(final(code)@) == apply_combine(
                pts_model(old(code)@),
                start_index as int,
                end_index - start_index,
                rule_model(*self).tags,
            ),
            *final(changed),
    {
        let ghost orig = pts_model(old(code)@);
        let k = end_index - start_index;

        // Move the matched run out, in order.
        let mut children: Vec<ParseToken> = Vec::new();
        let mut j: usize = 0;
        while j < k
            invariant
                j <= k,
                k == end_index - start_index,
                start_index < end_index <= old(code)@.len(),
                children@ == old(code)@.subrange(start_index as int, start_index + j),
                code@ == old(code)@.subrange(0, start_index as int) + old(code)@.subrange(
                    start_index + j,
                    old(code)@.len() as int,
                ),
            decreases k - j,
        {
            proof {
                assert(code@[start_index as int] == old(code)@[start_index + j]);
            }
            let node = code.remove(start_index);
            children.push(node);
            proof {
                assert(children@ =~= old(code)@.subrange(start_index as int, start_index + j + 1));
                assert(code@ =~= old(code)@.subrange(0, start_index as int) + old(
                    code,
                )@.subrange(start_index + j + 1, old(code)@.len() as int));
            }
            j = j + 1;
        }
        proof {
            assert(pts_model(children@) =~= orig.subrange(start_index as int, start_index + k));
        }

        // Concatenate the run's content.
        let mut content = String::new();
        let mut j2: usize = 0;
        while j2 < k
            invariant
                j2 <= k,
                children@.len() == k,
                content@ == concat_contents(pts_model(children@).subrange(0, j2 as int)),
            decreases k - j2,
        {
            content.append(children[j2].content.as_str());
            proof {
                let cm = pts_model(children@);
                lemma_concat_contents_snoc(cm.subrange(0, j2 + 1));
                assert(cm.subrange(0, j2 + 1).drop_last() =~= cm.subrange(0, j2 as int));
                assert(cm.subrange(0, j2 + 1).last() == pt_model(children@[j2 as int]));
            }
            j2 = j2 + 1;
        }
        proof {
            assert(pts_model(children@).subrange(0, k as int) =~= pts_model(children@));
        }

        let line = children[0].line;
        let char_pos = children[0].char;
        let file = children[0].file.clone();
        let tags = clone_strings(&self.tags);
        let parent = ParseToken { content, tags, children, line, char: char_pos, file };
        proof {
            assert(pt_model(parent) =~= combined_node(
                orig,
                start_index as int,
                k as int,
                rule_model(*self).tags,
            ));
        }
        code.insert(start_index, parent);
        proof {
            assert(pts_model(code@) =~= apply_combine(
                orig,
                start_index as int,
                k as int,
                rule_model(*self).tags,
            ));
        }
        *changed = true;
    }

    /// Leaves the structure untouched and adds this rule's output tags to
    /// every node of `[start_index, end_index)` (clamped to the sequence);
    /// tags already present are left as they are. Raises `changed` exactly
    /// when some tag was added somewhere.
    pub fn add_all(
        &self,
        code: &mut Vec<ParseToken>,
        start_index: usize,
        end_index: usize,
        changed: &mut bool,
    )
        ensures
            pts_model(final(code)@) == apply_annotate(
                pts_model(old(code)@),
                start_index as int,
                end_index as int,
                rule_model(*self).tags,
            ),
            *final(changed) == (*old(changed) || annotate_changed(
                pts_model(old(code)@),
                start_index as int,
                end_index as int,
                rule_model(*self).tags,
            )),
    {
        let ghost orig = pts_model(old(code)@);
        let ghost adds = rule_model(*self).tags;
        let n = code.len();
        let mut pt = start_index;
        while pt < end_index && pt < n
            invariant
                n == code@.len(),
                orig.len() == n as int,
                start_index <= pt,
                pt <= end_index || pt == start_index,
                adds == rule_model(*self).tags,
                forall|i: int|
                    0 <= i < n ==> #[trigger] pts_model(code@)[i] == (if start_index <= i < pt {
                        annotated_node(orig[i], adds)
                    } else {
                        orig[i]
                    }),
                *changed == (*old(changed) || exists|i: int|
                    0 <= i < n && start_index <= i < pt && add_missing(
                        #[trigger] orig[i].tags,
                        adds,
                    ) != orig[i].tags),
            decreases end_index - pt,
        {
            let ghost before_code = code@;
            let ghost before = pts_model(code@);
            let ghost old_changed = *changed;
            let mut node = code.remove(pt);
            let ghost node0 = node;
            add_tags(&mut node.tags, &self.tags, changed);
            proof {
                assert(node0 == before_code[pt as int]);
                assert(before[pt as int] == pt_model(node0));
                assert(before[pt as int] == orig[pt as int]);
                assert(pt_model(node) =~= annotated_node(pt_model(node0), adds));
                assert(pt_model(node0) == orig[pt as int]);
                assert((tags_model(node.tags@) != tags_model(node0.tags@)) == (pt_model(node)
                    != pt_model(node0)));
            }
            code.insert(pt, node);
            proof {
                assert(code@ =~= before_code.update(pt as int, node));
                assert forall|i: int|
                    0 <= i < n implies #[trigger] pts_model(code@)[i] == (if start_index <= i < pt
                    + 1 {
                    annotated_node(orig[i], adds)
                } else {
                    orig[i]
                }) by {
                    if i == pt {
                        assert(pts_model(code@)[i] == pt_model(node));
                    } else {
                        assert(code@[i] == before_code[i]);
                        assert(pts_model(code@)[i] == before[i]);
                        assert(before[i] == (if start_index <= i < pt {
                            annotated_node(orig[i], adds)
                        } else {
                            orig[i]
                        }));
                    }
                }
                assert(*changed == (old_changed || (pt_model(node) != pt_model(node0))));
                assert((pt_model(node) != pt_model(node0)) == (add_missing(
                    orig[pt as int].tags,
                    adds,
                ) != orig[pt as int].tags));
            }
            pt = pt + 1;
        }
        proof {
            let target = apply_annotate(orig, start_index as int, end_index as int, adds);
            assert forall|i: int| 0 <= i < n implies #[trigger] pts_model(code@)[i]
                == target[i] by {}
            assert(pts_model(code@) =~= target);
            let in_loop = (exists|i: int|
                0 <= i < n && start_index <= i < pt && add_missing(#[trigger] orig[i].tags, adds)
                    != orig[i].tags);
            let in_goal = annotate_changed(orig, start_index as int, end_index as int, adds);
            if in_loop {
                let i = choose|i: int|
                    0 <= i < n && start_index <= i < pt && add_missing(
                        #[trigger] orig[i].tags,
                        adds,
                    ) != orig[i].tags;
                assert(0 <= i < orig.len() && start_index <= i < end_index && add_missing(
                    orig[i].tags,
                    adds,
                ) != orig[i].tags);
                assert(in_goal);
            }
            if in_goal {
                let i = choose|i: int|
                    0 <= i < orig.len() && start_index <= i < end_index as int && add_missing(
                        #[trigger] orig[i].tags,
                        adds,
                    ) != orig[i].tags;
                assert(0 <= i < n && start_index <= i < pt && add_missing(orig[i].tags, adds)
                    != orig[i].tags);
                assert(in_loop);
            }
        }
    }
}

/// `add_missing` only appends: the old tags stay, in place, as a prefix.
pub proof fn lemma_add_missing_extends(tags: Seq<Seq<char>>, adds: Seq<Seq<char>>)
    ensures
        add_missing(tags, adds).len() >= tags.len(),
        add_missing(tags, adds).subrange(0, tags.len() as int) == tags,
    decreases adds.len(),
{
    if adds.len() == 0 {
        assert(tags.subrange(0, tags.len() as int) =~= tags);
    } else {
        let next = if tags.contains(adds[0]) {
            tags
        } else {
            tags.push(adds[0])
        };
        lemma_add_missing_extends(next, adds.subrange(1, adds.len() as int));
        assert(next.subrange(0, tags.len() as int) =~= tags);
        let out = add_missing(tags, adds);
        assert(out.subrange(0, tags.len() as int) =~= out.subrange(
            0,
            next.len() as int,
        ).subrange(0, tags.len() as int));
    }
}

/// Tags that are all present already are not added again.
pub proof fn lemma_add_missing_present(tags: Seq<Seq<char>>, adds: Seq<Seq<char>>)
    requires
        forall|j: int| 0 <= j < adds.len() ==> tags.contains(#[trigger] adds[j]),
    ensures
        add_missing(tags, adds) == tags,
    decreases adds.len(),
{
    if adds.len() > 0 {
        assert(tags.contains(adds[0]));
        lemma_add_missing_present(tags, adds.subrange(1, adds.len() as int));
    }
}

/// An annotation that adds no tag anywhere leaves the sequence as it was.
pub proof fn lemma_annotate_unchanged(
    nodes: Seq<PtModel>,
    start: int,
    end: int,
    adds: Seq<Seq<char>>,
)
    requires
        !annotate_changed(nodes, start, end, adds),
    ensures
        apply_annotate(nodes, start, end, adds) == nodes,
{
    assert forall|i: int| 0 <= i < nodes.len() implies apply_annotate(nodes, start, end, adds)[i]
        == nodes[i] by {
        if start <= i < end {
            assert(add_missing(nodes[i].tags, adds) == nodes[i].tags);
            assert(annotated_node(nodes[i], adds) =~= nodes[i]);
        }
    }
    assert(apply_annotate(nodes, start, end, adds) =~= nodes);
}

/// Once raised, the changed flag stays raised through the rest of a
/// traversal.
pub proof fn lemma_traverse_changed_monotone(r: RuleModel, nodes: Seq<PtModel>, start: int)
    requires
        0 <= start,
    ensures
        rule_traverse_spec(r, nodes, start, true).1,
    decreases nodes.len() - start,
{
    if start < nodes.len() {
        match window_match(r, nodes, start) {
            None => {
                lemma_traverse_changed_monotone(r, nodes, start + 1);
            },
            Some(k) => {
                lemma_window_match_bounds(r, nodes, start);
                if r.add_all {
                    lemma_traverse_changed_monotone(
                        r,
                        apply_annotate(nodes, start, start + k, r.tags),
                        start + 1,
                    );
                } else {
                    lemma_traverse_changed_monotone(
                        r,
                        apply_combine(nodes, start, k, r.tags),
                        start + 1,
                    );
                }
            },
        }
    }
}

/// A traversal that reports no change made none: the nodes come out exactly
/// as they went in. Re-running the rule therefore reports no change either.
pub proof fn lemma_traverse_unchanged(r: RuleModel, nodes: Seq<PtModel>, start: int)
    requires
        0 <= start,
        !rule_traverse_spec(r, nodes, start, false).1,
    ensures
        rule_traverse_spec(r, nodes, start, false).0 == nodes,
    decreases nodes.len() - start,
{
    if start < nodes.len() {
        match window_match(r, nodes, start) {
            None => {
                lemma_traverse_unchanged(r, nodes, start + 1);
            },
            Some(k) => {
                lemma_window_match_bounds(r, nodes, start);
                if r.add_all {
                    let ch = annotate_changed(nodes, start, start + k, r.tags);
                    if ch {
                        lemma_traverse_changed_monotone(
                            r,
                            apply_annotate(nodes, start, start + k, r.tags),
                            start + 1,
                        );
                    } else {
                        lemma_annotate_unchanged(nodes, start, start + k, r.tags);
                        lemma_traverse_unchanged(r, nodes, start + 1);
                    }
                } else {
                    lemma_traverse_changed_monotone(
                        r,
                        apply_combine(nodes, start, k, r.tags),
                        start + 1,
                    );
                }
            },
        }
    }
}

/// Once raised, the changed flag stays raised through the rest of a pass.
pub proof fn lemma_pass_changed_monotone(rules: Seq<RuleModel>, nodes: Seq<PtModel>)
    ensures
        pass_spec(rules, nodes, true).1,
    decreases rules.len(),
{
    if rules.len() > 0 {
        lemma_traverse_changed_monotone(rules[0], nodes, 0);
        lemma_pass_changed_monotone(
            rules.subrange(1, rules.len() as int),
            rule_traverse_spec(rules[0], nodes, 0, true).0,
        );
    }
}

/// A pass that reports no change made none.
pub proof fn lemma_pass_unchanged(rules: Seq<RuleModel>, nodes: Seq<PtModel>)
    requires
        !pass_spec(rules, nodes, false).1,
    ensures
        pass_spec(rules, nodes, false).0 == nodes,
    decreases rules.len(),
{
    if rules.len() > 0 {
        let first = rule_traverse_spec(rules[0], nodes, 0, false);
        if first.1 {
            lemma_pass_changed_monotone(rules.subrange(1, rules.len() as int), first.0);
        } else {
            lemma_traverse_unchanged(rules[0], nodes, 0);
            lemma_pass_unchanged(rules.subrange(1, rules.len() as int), nodes);
        }
    }
}

/// Idempotence of the parser fixpoint: once the fixpoint is reached, running
/// the parser again on its own output is a no-op — the first pass of the
/// second run already reports no change, and the output is returned exactly
/// as it went in, whatever pass budget the second run gets.
pub proof fn lemma_parse_fix_idempotent(
    rules: Seq<RuleModel>,
    nodes: Seq<PtModel>,
    fuel: nat,
    fuel2: nat,
)
    requires
        parse_fix(rules, nodes, fuel).1,
    ensures
        pass_spec(rules, parse_fix(rules, nodes, fuel).0, false) == (
            parse_fix(rules, nodes, fuel).0,
            false,
        ),
        parse_fix(rules, parse_fix(rules, nodes, fuel).0, fuel2) == (
            parse_fix(rules, nodes, fuel).0,
            true,
        ),
    decreases fuel,
{
    let p = pass_spec(rules, nodes, false);
    if !p.1 {
        lemma_pass_unchanged(rules, nodes);
    } else {
        lemma_parse_fix_idempotent(rules, p.0, (fuel - 1) as nat, fuel2);
    }
}

/// The wildcard boundary: a rule whose sole repeat position sits at the end
/// of the pattern matches successfully against zero trailing nodes when the
/// sequence ends exactly there — every earlier position consumes its node,
/// and the trailing repeat matches nothing.
pub proof fn lemma_trailing_repeat_matches_empty(r: RuleModel, nodes: Seq<PtModel>, start: int)
    requires
        0 <= start,
        r.matches.len() >= 2,
        r.repeat == Some(r.matches.len() - 1),
        start + r.matches.len() - 1 == nodes.len(),
        forall|j: int|
            0 <= j < r.matches.len() - 1 ==> node_has_tag(
                #[trigger] nodes[start + j],
                r.matches[j],
            ),
    ensures
        window_match(r, nodes, start) == Some(r.matches.len() - 1),
{
    lemma_trailing_repeat_from(r, nodes, start, 0);
}

/// The pattern walk behind the wildcard boundary: from position `j` on, every
/// remaining non-repeat position consumes its node and the trailing repeat
/// matches zero nodes at the end.
proof fn lemma_trailing_repeat_from(r: RuleModel, nodes: Seq<PtModel>, start: int, j: int)
    requires
        0 <= start,
        0 <= j <= r.matches.len() - 1,
        r.matches.len() >= 2,
        r.repeat == Some(r.matches.len() - 1),
        start + r.matches.len() - 1 == nodes.len(),
        forall|i: int|
            0 <= i < r.matches.len() - 1 ==> node_has_tag(
                #[trigger] nodes[start + i],
                r.matches[i],
            ),
    ensures
        match_from(r, nodes, start, j, j) == Some(r.matches.len() - 1),
    decreases r.matches.len() - j,
{
    if j == r.matches.len() - 1 {
    } else {
        lemma_trailing_repeat_from(r, nodes, start, j + 1);
    }
}

/// An annotate-mode rule never changes the node count, and touches neither
/// content nor children: it only appends tags, keeping each node's old tags,
/// in place, as a prefix of its new ones.
pub proof fn lemma_annotate_preserves_shape(
    r: RuleModel,
    nodes: Seq<PtModel>,
    start: int,
    changed: bool,
)
    requires
        r.add_all,
        0 <= start,
    ensures
        rule_traverse_spec(r, nodes, start, changed).0.len() == nodes.len(),
        forall|i: int|
            0 <= i < nodes.len() ==> {
                let out = (#[trigger] rule_traverse_spec(r, nodes, start, changed).0[i]);
                out.children == nodes[i].children && out.content == nodes[i].content
                    && out.line == nodes[i].line && out.col == nodes[i].col && out.file
                    == nodes[i].file && out.tags.len() >= nodes[i].tags.len() && out.tags.subrange(
                    0,
                    nodes[i].tags.len() as int,
                ) == nodes[i].tags
            },
    decreases nodes.len() - start,
{
    if start >= nodes.len() {
        assert forall|i: int| 0 <= i < nodes.len() implies (#[trigger] rule_traverse_spec(
            r,
            nodes,
            start,
            changed,
        ).0[i]).tags.subrange(0, nodes[i].tags.len() as int) == nodes[i].tags by {
            assert(nodes[i].tags.subrange(0, nodes[i].tags.len() as int) =~= nodes[i].tags);
        }
    } else {
        match window_match(r, nodes, start) {
            None => {
                lemma_annotate_preserves_shape(r, nodes, start + 1, changed);
            },
            Some(k) => {
                lemma_window_match_bounds(r, nodes, start);
                let mid = apply_annotate(nodes, start, start + k, r.tags);
                let ch2 = changed || annotate_changed(nodes, start, start + k, r.tags);
                lemma_annotate_preserves_shape(r, mid, start + 1, ch2);
                let out = rule_traverse_spec(r, nodes, start, changed).0;
                assert(out == rule_traverse_spec(r, mid, start + 1, ch2).0);
                assert forall|i: int| 0 <= i < nodes.len() implies {
                    let o = (#[trigger] out[i]);
                    o.children == nodes[i].children && o.content == nodes[i].content && o.line
                        == nodes[i].line && o.col == nodes[i].col && o.file == nodes[i].file
                        && o.tags.len() >= nodes[i].tags.len() && o.tags.subrange(
                        0,
                        nodes[i].tags.len() as int,
                    ) == nodes[i].tags
                } by {
                    lemma_add_missing_extends(nodes[i].tags, r.tags);
                    assert(mid[i].tags.subrange(0, nodes[i].tags.len() as int) == nodes[i].tags);
                    assert(out[i].tags.subrange(0, mid[i].tags.len() as int) == mid[i].tags);
                    assert(out[i].tags.subrange(0, nodes[i].tags.len() as int) =~= out[
                        i
                    ].tags.subrange(0, mid[i].tags.len() as int).subrange(
                        0,
                        nodes[i].tags.len() as int,
                    ));
                }
            },
        }
    }
}

/// A rule in annotate mode whose output tags are already present on every
/// node matches without effect: the sequence and the changed flag come out as
/// they went in.
pub proof fn lemma_annotate_saturated(r: RuleModel, nodes: Seq<PtModel>, start: int, changed: bool)
    requires
        r.add_all,
        0 <= start,
        forall|i: int, j: int|
            0 <= i < nodes.len() && 0 <= j < r.tags.len() ==> (#[trigger] nodes[i].tags).contains(
                #[trigger] r.tags[j],
            ),
    ensures
        rule_traverse_spec(r, nodes, start, changed) == (nodes, changed),
    decreases nodes.len() - start,
{
    if start < nodes.len() {
        match window_match(r, nodes, start) {
            None => {
                lemma_annotate_saturated(r, nodes, start + 1, changed);
            },
            Some(k) => {
                lemma_window_match_bounds(r, nodes, start);
                assert forall|i: int|
                    0 <= i < nodes.len() implies add_missing(
                    #[trigger] nodes[i].tags,
                    r.tags,
                ) == nodes[i].tags by {
                    lemma_add_missing_present(nodes[i].tags, r.tags);
                }
                assert(!annotate_changed(nodes, start, start + k, r.tags));
                lemma_annotate_unchanged(nodes, start, start + k, r.tags);
                lemma_annotate_saturated(r, nodes, start + 1, changed);
            },
        }
    }
}

/// Well-formedness of a tree node: an internal node's content equals the
/// ordered concatenation of its children's content, recursively.
pub open spec fn node_wf(n: PtModel) -> bool
    decreases n,
{
    &&& (n.children.len() > 0 ==> n.content == concat_contents(n.children))
    &&& nodes_wf(n.children)
}

/// Well-formedness of every node of a sequence.
pub open spec fn nodes_wf(s: Seq<PtModel>) -> bool
    decreases s,
{
    if s.len() == 0 {
        true
    } else {
        node_wf(s[0]) && nodes_wf(s.subrange(1, s.len() as int))
    }
}

/// A sequence is well-formed exactly when each of its nodes is.
pub proof fn lemma_nodes_wf_index(s: Seq<PtModel>)
    ensures
        nodes_wf(s) <==> (forall|i: int| 0 <= i < s.len() ==> node_wf(#[trigger] s[i])),
    decreases s.len(),
{
    if s.len() > 0 {
        let t = s.subrange(1, s.len() as int);
        lemma_nodes_wf_index(t);
        assert forall|i: int| 1 <= i < s.len() implies s[i] == t[i - 1] by {}
        if forall|i: int| 0 <= i < s.len() ==> node_wf(#[trigger] s[i]) {
            assert forall|i: int| 0 <= i < t.len() implies node_wf(#[trigger] t[i]) by {
                assert(t[i] == s[i + 1]);
            }
        }
    }
}

/// Well-formedness restricts to any window.
pub proof fn lemma_nodes_wf_subrange(s: Seq<PtModel>, a: int, b: int)
    requires
        nodes_wf(s),
        0 <= a <= b <= s.len(),
    ensures
        nodes_wf(s.subrange(a, b)),
{
    lemma_nodes_wf_index(s);
    lemma_nodes_wf_index(s.subrange(a, b));
}

/// Lifted tokens are well-formed leaves: they have no children at all.
pub proof fn lemma_lift_wf(s: Seq<crate::token::TokenModel>)
    ensures
        nodes_wf(crate::parse_token::lift_models(s)),
{
    let lifted = crate::parse_token::lift_models(s);
    assert forall|i: int| 0 <= i < lifted.len() implies node_wf(#[trigger] lifted[i]) by {
        assert(lifted[i].children =~= Seq::<PtModel>::empty());
    }
    lemma_nodes_wf_index(lifted);
}

/// A rule application preserves well-formedness: the parent node a combine
/// builds carries exactly its children's concatenated content, and an
/// annotation touches neither content nor children.
pub proof fn lemma_traverse_preserves_wf(
    r: RuleModel,
    nodes: Seq<PtModel>,
    start: int,
    changed: bool,
)
    requires
        0 <= start,
        nodes_wf(nodes),
    ensures
        nodes_wf(rule_traverse_spec(r, nodes, start, changed).0),
    decreases nodes.len() - start,
{
    if start < nodes.len() {
        match window_match(r, nodes, start) {
            None => {
                lemma_traverse_preserves_wf(r, nodes, start + 1, changed);
            },
            Some(k) => {
                lemma_window_match_bounds(r, nodes, start);
                lemma_nodes_wf_index(nodes);
                if r.add_all {
                    let mid = apply_annotate(nodes, start, start + k, r.tags);
                    assert forall|i: int| 0 <= i < mid.len() implies node_wf(
                        #[trigger] mid[i],
                    ) by {
                        assert(node_wf(nodes[i]));
                        if start <= i < start + k {
                            assert(mid[i] == annotated_node(nodes[i], r.tags));
                            assert(mid[i].children == nodes[i].children);
                            assert(mid[i].content == nodes[i].content);
                        }
                    }
                    lemma_nodes_wf_index(mid);
                    lemma_traverse_preserves_wf(
                        r,
                        mid,
                        start + 1,
                        changed || annotate_changed(nodes, start, start + k, r.tags),
                    );
                } else {
                    let mid = apply_combine(nodes, start, k, r.tags);
                    let parent = combined_node(nodes, start, k, r.tags);
                    lemma_nodes_wf_subrange(nodes, start, start + k);
                    assert(node_wf(parent));
                    assert forall|i: int| 0 <= i < mid.len() implies node_wf(
                        #[trigger] mid[i],
                    ) by {
                        if i < start {
                            assert(mid[i] == nodes[i]);
                        } else if i == start {
                            assert(mid[i] == parent);
                        } else {
                            assert(mid[i] == nodes[i + k - 1]);
                        }
                    }
                    lemma_nodes_wf_index(mid);
                    lemma_traverse_preserves_wf(r, mid, start + 1, true);
                }
            },
        }
    }
}

/// The fixpoint preserves well-formedness: whatever the rules did, every
/// internal node of the result carries exactly its children's concatenated
/// content.
pub proof fn lemma_parse_fix_preserves_wf(rules: Seq<RuleModel>, nodes: Seq<PtModel>, fuel: nat)
    requires
        nodes_wf(nodes),
    ensures
        nodes_wf(parse_fix(rules, nodes, fuel).0),
    decreases fuel,
{
    lemma_pass_preserves_wf(rules, nodes, false);
    let p = pass_spec(rules, nodes, false);
    if p.1 && fuel > 0 {
        lemma_parse_fix_preserves_wf(rules, p.0, (fuel - 1) as nat);
    }
}

/// One pass preserves well-formedness.
pub proof fn lemma_pass_preserves_wf(rules: Seq<RuleModel>, nodes: Seq<PtModel>, changed: bool)
    requires
        nodes_wf(nodes),
    ensures
        nodes_wf(pass_spec(rules, nodes, changed).0),
    decreases rules.len(),
{
    if rules.len() > 0 {
        lemma_traverse_preserves_wf(rules[0], nodes, 0, changed);
        let first = rule_traverse_spec(rules[0], nodes, 0, changed);
        lemma_pass_preserves_wf(rules.subrange(1, rules.len() as int), first.0, first.1);
    }
}

/// The number of further fixpoint passes allowed after the first; exceeding
/// the ceiling signals a non-terminating rule set.
pub const PARSE_DEPTH_LIMIT: usize = 10000;

impl Parser {
    /// Runs every rule in order, repeatedly, until a full pass makes no
    /// change. Returns the fatal depth-ceiling error when the rule set
    /// oscillates instead of reaching a fixpoint.
    pub fn parse(&self, code: &mut Vec<ParseToken>, verbose: bool) -> (r: Result<(), ParseError>)
        ensures
            pts_model(final(code)@) == parse_fix(
                rules_model(self.rules@),
                pts_model(old(code)@),
                PARSE_DEPTH_LIMIT as nat,
            ).0,
            (r is Ok) == parse_fix(
                rules_model(self.rules@),
                pts_model(old(code)@),
                PARSE_DEPTH_LIMIT as nat,
            ).1,
    {
        self.parse_depth(code, verbose, 0)
    }

    /// One fixpoint level: runs a full pass, then recurses while the pass
    /// changed something, with `PARSE_DEPTH_LIMIT - depth` further passes
    /// allowed before the ceiling is hit.
    pub fn parse_depth(&self, code: &mut Vec<ParseToken>, verbose: bool, depth: usize) -> (r:
        Result<(), ParseError>)
        ensures
            depth > PARSE_DEPTH_LIMIT ==> (r is Err) && final(code)@ == old(code)@,
            depth <= PARSE_DEPTH_LIMIT ==> {
                let fix = parse_fix(
                    rules_model(self.rules@),
                    pts_model(old(code)@),
                    (PARSE_DEPTH_LIMIT - depth) as nat,
                );
                pts_model(final(code)@) == fix.0 && (r is Ok) == fix.1
            },
        decreases PARSE_DEPTH_LIMIT - depth,
    {
        if depth > PARSE_DEPTH_LIMIT {
            return Err(ParseError::DepthLimitExceeded);
        }
        let ghost rm = rules_model(self.rules@);
        let ghost orig = pts_model(code@);
        let mut changed = false;
        let n = self.rules.len();
        proof {
            assert(rm.subrange(0, n as int) =~= rm);
        }
        let mut i: usize = 0;
        while i < n
            invariant
                n == self.rules@.len(),
                i <= n,
                rm == rules_model(self.rules@),
                pass_spec(rm, orig, false) == pass_spec(
                    rm.subrange(i as int, n as int),
                    pts_model(code@),
                    changed,
                ),
            decreases n - i,
        {
            let ghost pre = pts_model(code@);
            let ghost pre_changed = changed;
            self.rules[i].traverse(code, &mut changed, verbose);
            proof {
                let suffix = rm.subrange(i as int, n as int);
                assert(suffix[0] == rule_model(self.rules@[i as int]));
                assert(suffix.subrange(1, suffix.len() as int) =~= rm.subrange(
                    i + 1,
                    n as int,
                ));
            }
            i = i + 1;
        }
        proof {
            assert(rm.subrange(n as int, n as int) =~= Seq::<RuleModel>::empty());
            assert(pass_spec(rm, orig, false) == (pts_model(code@), changed));
        }
        if changed {
            if depth == PARSE_DEPTH_LIMIT {
                return Err(ParseError::DepthLimitExceeded);
            }
            self.parse_depth(code, verbose, depth + 1)
        } else {
            Ok(())
        }
    }
}

} // verus!
