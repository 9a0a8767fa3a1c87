//! The lexer engine: an instruction-interpreted virtual machine swept over a
//! mutable token sequence, adding tags, merging and deleting tokens,
//! branching on tag membership and jumping between labeled points.

use vstd::prelude::*;

use crate::token::Token;
use crate::token::TokenModel;
use crate::token::tags_contain;
use crate::token::tags_model;
use crate::token::token_model;
use crate::token::tokens_model;

verus! {

/// One instruction of a routine. `Block` nests an independent instruction
/// list with its own program counter and a fresh label table.
pub enum Instruction {
    Block(Vec<Instruction>),
    Next,
    If(String),
    Else,
    Cancel,
    Skip,
    Back,
    Wrap,
    Delete,
    Add(String),
    Label(String),
    Goto(String),
}

/// An immutable named instruction program, swept once across the full token
/// array.
pub struct Routine {
    pub name: String,
    pub instrs: Vec<Instruction>,
}

/// An ordered list of routines; each sees the cumulative effect of all
/// earlier ones.
pub struct Lexer {
    pub rules: Vec<Routine>,
}

/// The fatal conditions of a defective routine: a `Goto` to a label that was
/// never recorded, an `If`/`Else` outside the fixed conditional layout, or a
/// sweep that exceeds its step budget, which signals a routine that cannot
/// terminate.
#[derive(Debug, PartialEq, Eq)]
pub enum LexError {
    UndefinedLabel(String),
    MalformedConditional,
    StepLimitExceeded,
}

/// Model of a fatal lexer condition.
pub ghost enum LexErrModel {
    UndefinedLabel(Seq<char>),
    Malformed,
    StepLimit,
}

/// The model of a fatal lexer condition.
pub open spec fn lex_err_model(e: LexError) -> LexErrModel {
    match e {
        LexError::UndefinedLabel(s) => LexErrModel::UndefinedLabel(s@),
        LexError::MalformedConditional => LexErrModel::Malformed,
        LexError::StepLimitExceeded => LexErrModel::StepLimit,
    }
}

/// The fixed conditional layout: every `If` guards the one instruction that
/// follows it, so one must follow; an `Else` stands only two positions after
/// an `If`, and then guards one following instruction of its own; and every
/// nested `Block` body obeys the same layout.
pub open spec fn if_layout_wf(instrs: Seq<Instruction>) -> bool
    decreases instrs, 1int,
{
    &&& forall|i: int|
        0 <= i < instrs.len() && (#[trigger] instrs[i]) is If ==> i + 1 < instrs.len()
    &&& forall|i: int|
        0 <= i < instrs.len() && (#[trigger] instrs[i]) is Else ==> i >= 2 && instrs[i - 2] is If
    &&& forall|i: int|
        0 <= i + 2 < instrs.len() && (#[trigger] instrs[i]) is If && instrs[i + 2] is Else ==> i
            + 3 < instrs.len()
    &&& blocks_wf(instrs)
}

/// Every `Block` body of the list obeys the conditional layout.
pub open spec fn blocks_wf(instrs: Seq<Instruction>) -> bool
    decreases instrs, 0int,
    via blocks_wf_dec
{
    if instrs.len() == 0 {
        true
    } else {
        (match instrs[0] {
            Instruction::Block(inside) => if_layout_wf(inside@),
            _ => true,
        }) && blocks_wf(instrs.subrange(1, instrs.len() as int))
    }
}

#[via_fn]
proof fn blocks_wf_dec(instrs: Seq<Instruction>) {
    if instrs.len() > 0 {
        assert(decreases_to!(instrs => instrs[0]));
        match instrs[0] {
            Instruction::Block(inside) => {
                assert(decreases_to!(instrs[0] => inside));
            },
            _ => {},
        }
    }
}

/// The block bodies are well-formed exactly when each one is.
pub proof fn lemma_blocks_wf_index(s: Seq<Instruction>)
    ensures
        blocks_wf(s) <==> (forall|i: int|
            0 <= i < s.len() ==> ((#[trigger] s[i]) matches Instruction::Block(inside)
                ==> if_layout_wf(inside@))),
    decreases s.len(),
{
    if s.len() > 0 {
        let t = s.subrange(1, s.len() as int);
        lemma_blocks_wf_index(t);
        assert forall|i: int| 1 <= i < s.len() implies s[i] == t[i - 1] by {}
        if forall|i: int|
            0 <= i < s.len() ==> ((#[trigger] s[i]) matches Instruction::Block(inside)
                ==> if_layout_wf(inside@)) {
            assert forall|i: int|
                0 <= i < t.len() implies ((#[trigger] t[i]) matches Instruction::Block(inside)
                ==> if_layout_wf(inside@)) by {
                assert(t[i] == s[i + 1]);
            }
        }
    }
}

/// Decides the fixed conditional layout, including every nested block body.
fn layout_valid(instrs: &Vec<Instruction>) -> (r: bool)
    ensures
        r == if_layout_wf(instrs@),
    decreases instrs@,
{
    let n = instrs.len();
    let mut i: usize = 0;
    while i < n
        invariant
            n == instrs@.len(),
            i <= n,
            forall|j: int|
                0 <= j < i && (#[trigger] instrs@[j]) is If ==> j + 1 < n as int,
            forall|j: int|
                0 <= j < i && (#[trigger] instrs@[j]) is Else ==> j >= 2 && instrs@[j - 2] is If,
            forall|j: int|
                0 <= j < i && j + 2 < n as int && (#[trigger] instrs@[j]) is If && instrs@[j
                    + 2] is Else ==> j + 3 < n as int,
            forall|j: int|
                0 <= j < i ==> ((#[trigger] instrs@[j]) matches Instruction::Block(inside)
                    ==> if_layout_wf(inside@)),
        decreases n - i,
    {
        match &instrs[i] {
            Instruction::If(_) => {
                if i + 1 >= n {
                    proof {
                        assert(instrs@[i as int] is If);
                        assert(!if_layout_wf(instrs@));
                    }
                    return false;
                }
                if n - i > 2 {
                    let follows_else = match &instrs[i + 2] {
                        Instruction::Else => true,
                        _ => false,
                    };
                    if follows_else && i + 3 >= n {
                        proof {
                            assert(instrs@[i as int] is If && instrs@[i + 2] is Else);
                            assert(!if_layout_wf(instrs@));
                        }
                        return false;
                    }
                }
            },
            Instruction::Else => {
                let fits = if i >= 2 {
                    match &instrs[i - 2] {
                        Instruction::If(_) => true,
                        _ => false,
                    }
                } else {
                    false
                };
                if !fits {
                    proof {
                        assert(instrs@[i as int] is Else);
                        assert(!if_layout_wf(instrs@));
                    }
                    return false;
                }
            },
            Instruction::Block(inside) => {
                proof {
                    assert(decreases_to!(instrs@ => instrs@[i as int]));
                    assert(decreases_to!(instrs@[i as int] => *inside));
                }
                if !layout_valid(inside) {
                    proof {
                        lemma_blocks_wf_index(instrs@);
                        assert(instrs@[i as int] matches Instruction::Block(b) && !if_layout_wf(
                            b@,
                        ));
                        assert(!if_layout_wf(instrs@));
                    }
                    return false;
                }
            },
            _ => {},
        }
        i = i + 1;
    }
    proof {
        lemma_blocks_wf_index(instrs@);
        assert(if_layout_wf(instrs@));
    }
    true
}

/// The running state of the sweep machine: a cursor into the token array, the
/// anchor of the current attempt window, a program counter, and a
/// continuation flag.
#[derive(Clone, Copy)]
pub struct Ltm {
    pub index: usize,
    pub start_index: usize,
    pub rule_index: usize,
    pub keep_going: bool,
}

/// Mathematical model of the machine state.
#[verifier::ext_equal]
pub ghost struct LtmModel {
    pub index: int,
    pub start: int,
    pub pc: int,
    pub going: bool,
}

/// The model of the machine state.
pub open spec fn ltm_model(m: Ltm) -> LtmModel {
    LtmModel {
        index: m.index as int,
        start: m.start_index as int,
        pc: m.rule_index as int,
        going: m.keep_going,
    }
}

/// The model of a label table: name and recorded program position, in
/// insertion order.
pub open spec fn labels_model(s: Seq<(String, usize)>) -> Seq<(Seq<char>, int)> {
    s.map_values(|p: (String, usize)| (p.0@, p.1 as int))
}

/// The recorded position of `name`: the latest insertion wins.
pub open spec fn lookup_label(labels: Seq<(Seq<char>, int)>, name: Seq<char>) -> Option<int>
    decreases labels.len(),
{
    if labels.len() == 0 {
        None
    } else if labels.last().0 == name {
        Some(labels.last().1)
    } else {
        lookup_label(labels.drop_last(), name)
    }
}

/// Stepping one position back, wrapping below zero as the machine's cursor
/// arithmetic does: one before position zero is `usize::MAX`, which no token
/// index reaches, so the attempt ends; when it was the anchor that moved
/// there, advancing the anchor wraps back to zero and the position is
/// retried.
pub open spec fn dec_wrap(x: int) -> int {
    if x == 0 {
        usize::MAX as int
    } else {
        x - 1
    }
}

/// Advancing the anchor by one, wrapping at `usize::MAX`.
pub open spec fn inc_wrap(x: int) -> int {
    if x == usize::MAX as int {
        0
    } else {
        x + 1
    }
}

/// The program counter advanced by `k`, capped at the program's end; any
/// position at or past the end stops the attempt.
pub open spec fn pc_plus(pc: int, k: int, n: int) -> int {
    if pc + k >= n {
        n
    } else {
        pc + k
    }
}

/// The ordered concatenation of the tokens' content.
pub open spec fn concat_token_contents(s: Seq<TokenModel>) -> Seq<char>
    decreases s.len(),
{
    if s.len() == 0 {
        Seq::empty()
    } else {
        s[0].content + concat_token_contents(s.subrange(1, s.len() as int))
    }
}

/// Concatenation splits off its last element.
pub proof fn lemma_concat_token_contents_snoc(s: Seq<TokenModel>)
    requires
        s.len() > 0,
    ensures
        concat_token_contents(s) == concat_token_contents(s.drop_last()) + s.last().content,
    decreases s.len(),
{
    if s.len() == 1 {
        assert(s.drop_last() =~= Seq::empty());
        assert(s.subrange(1, s.len() as int) =~= Seq::empty());
        assert(s[0] == s.last());
        assert(concat_token_contents(Seq::<TokenModel>::empty()) == Seq::<char>::empty());
        assert(concat_token_contents(s) == s[0].content + Seq::<char>::empty());
        assert(s[0].content + Seq::<char>::empty() =~= s[0].content);
    } else {
        let t = s.subrange(1, s.len() as int);
        lemma_concat_token_contents_snoc(t);
        assert(t.drop_last() =~= s.drop_last().subrange(1, s.drop_last().len() as int));
        assert(t.last() == s.last());
        assert(s.drop_last()[0] == s[0]);
        assert(concat_token_contents(s) =~= concat_token_contents(s.drop_last())
            + s.last().content);
    }
}

/// The token that `Wrap` merges the window `[start, hi)` into: concatenated
/// content, no tags, position metadata from the anchor.
pub open spec fn wrapped_token(code: Seq<TokenModel>, start: int, hi: int) -> TokenModel {
    TokenModel {
        content: concat_token_contents(code.subrange(start, hi)),
        tags: Seq::empty(),
        line: code[start].line,
        col: code[start].col,
        file: code[start].file,
    }
}

/// A machine configuration after a step or a run: machine, token sequence,
/// label table, and the fuel still left of the step budget.
#[verifier::ext_equal]
pub ghost struct StepOut {
    pub m: LtmModel,
    pub code: Seq<TokenModel>,
    pub labels: Seq<(Seq<char>, int)>,
    pub fuel: nat,
}

/// The continuation flag recomputed after a step: the attempt goes on only
/// while both the program counter and the cursor are in bounds.
pub open spec fn going_after(pc: int, index: int, n_instrs: int, n_code: int) -> bool {
    pc < n_instrs && index < n_code
}

/// One step of the sweep machine on instruction `instrs[m.pc]`, consuming one
/// unit of fuel. Defined only for in-bounds configurations, which the
/// machine's invariant guarantees.
pub open spec fn step_spec(
    m: LtmModel,
    code: Seq<TokenModel>,
    labels: Seq<(Seq<char>, int)>,
    instrs: Seq<Instruction>,
    fuel: nat,
) -> Result<StepOut, LexErrModel>
    decreases fuel, 0int,
{
    if fuel == 0 {
        Err(LexErrModel::StepLimit)
    } else if !(0 <= m.pc < instrs.len() && 0 <= m.index < code.len()) {
        // Unreachable under the machine's invariant.
        Err(LexErrModel::StepLimit)
    } else {
        let f = (fuel - 1) as nat;
        let n = instrs.len() as int;
        match instrs[m.pc] {
            Instruction::Next => Ok(
                StepOut {
                    m: LtmModel {
                        index: m.index + 1,
                        start: m.start,
                        pc: m.pc + 1,
                        going: going_after(m.pc + 1, m.index + 1, n, code.len() as int),
                    },
                    code,
                    labels,
                    fuel: f,
                },
            ),
            Instruction::Skip => Ok(
                StepOut {
                    m: LtmModel {
                        index: m.index,
                        start: m.start,
                        pc: m.pc + 1,
                        going: going_after(m.pc + 1, m.index, n, code.len() as int),
                    },
                    code,
                    labels,
                    fuel: f,
                },
            ),
            Instruction::Back => {
                let i2 = if m.index == 0 {
                    0
                } else {
                    m.index - 1
                };
                Ok(
                    StepOut {
                        m: LtmModel {
                            index: i2,
                            start: m.start,
                            pc: m.pc + 1,
                            going: going_after(m.pc + 1, i2, n, code.len() as int),
                        },
                        code,
                        labels,
                        fuel: f,
                    },
                )
            },
            Instruction::Add(tag) => {
                let t0 = code[m.index];
                let t1 = TokenModel { tags: t0.tags.push(tag@), ..t0 };
                let code2 = code.update(m.index, t1);
                Ok(
                    StepOut {
                        m: LtmModel {
                            index: m.index,
                            start: m.start,
                            pc: m.pc + 1,
                            going: going_after(m.pc + 1, m.index, n, code2.len() as int),
                        },
                        code: code2,
                        labels,
                        fuel: f,
                    },
                )
            },
            Instruction::Delete => {
                let code2 = code.remove(m.index);
                let s2 = if m.index == m.start {
                    dec_wrap(m.start)
                } else {
                    m.start
                };
                let i2 = dec_wrap(m.index);
                Ok(
                    StepOut {
                        m: LtmModel {
                            index: i2,
                            start: s2,
                            pc: m.pc + 1,
                            going: going_after(m.pc + 1, i2, n, code2.len() as int),
                        },
                        code: code2,
                        labels,
                        fuel: f,
                    },
                )
            },
            Instruction::Wrap => {
                if m.start >= code.len() {
                    // The anchor ran off the shrunken array: the attempt is
                    // cancelled.
                    Ok(
                        StepOut {
                            m: LtmModel { index: m.index, start: m.start, pc: m.pc, going: false },
                            code,
                            labels,
                            fuel: f,
                        },
                    )
                } else {
                    let hi = if m.index > m.start + 1 {
                        m.index
                    } else {
                        m.start + 1
                    };
                    let code2 = code.subrange(0, m.start) + seq![
                        wrapped_token(code, m.start, hi),
                    ] + code.subrange(hi, code.len() as int);
                    let i2 = m.start + 1;
                    Ok(
                        StepOut {
                            m: LtmModel {
                                index: i2,
                                start: m.start,
                                pc: m.pc + 1,
                                going: going_after(m.pc + 1, i2, n, code2.len() as int),
                            },
                            code: code2,
                            labels,
                            fuel: f,
                        },
                    )
                }
            },
            Instruction::If(tag) => {
                let pc2 = if code[m.index].tags.contains(tag@) {
                    m.pc + 1
                } else if m.pc + 2 < n && instrs[m.pc + 2] is Else {
                    pc_plus(m.pc, 3, n)
                } else {
                    pc_plus(m.pc, 2, n)
                };
                Ok(
                    StepOut {
                        m: LtmModel {
                            index: m.index,
                            start: m.start,
                            pc: pc2,
                            going: going_after(pc2, m.index, n, code.len() as int),
                        },
                        code,
                        labels,
                        fuel: f,
                    },
                )
            },
            Instruction::Else => {
                let pc2 = pc_plus(m.pc, 2, n);
                Ok(
                    StepOut {
                        m: LtmModel {
                            index: m.index,
                            start: m.start,
                            pc: pc2,
                            going: going_after(pc2, m.index, n, code.len() as int),
                        },
                        code,
                        labels,
                        fuel: f,
                    },
                )
            },
            Instruction::Cancel => Ok(
                StepOut {
                    m: LtmModel { index: m.index, start: m.start, pc: m.pc, going: false },
                    code,
                    labels,
                    fuel: f,
                },
            ),
            Instruction::Label(name) => Ok(
                StepOut {
                    m: LtmModel {
                        index: m.index,
                        start: m.start,
                        pc: m.pc + 1,
                        going: going_after(m.pc + 1, m.index, n, code.len() as int),
                    },
                    code,
                    labels: labels.push((name@, m.pc)),
                    fuel: f,
                },
            ),
            Instruction::Goto(name) => {
                match lookup_label(labels, name@) {
                    None => Err(LexErrModel::UndefinedLabel(name@)),
                    Some(p) => {
                        let pc2 = p + 1;
                        Ok(
                            StepOut {
                                m: LtmModel {
                                    index: m.index,
                                    start: m.start,
                                    pc: pc2,
                                    going: going_after(pc2, m.index, n, code.len() as int),
                                },
                                code,
                                labels,
                                fuel: f,
                            },
                        )
                    },
                }
            },
            Instruction::Block(inside) => {
                let inner = LtmModel {
                    index: m.index,
                    start: m.start,
                    pc: 0,
                    going: going_after(0, m.index, inside@.len() as int, code.len() as int),
                };
                match run_steps(inner, code, Seq::empty(), inside@, f) {
                    Err(e) => Err(e),
                    Ok(ro) => Ok(
                        StepOut {
                            m: LtmModel {
                                index: m.index,
                                start: m.start,
                                pc: m.pc + 1,
                                going: going_after(m.pc + 1, m.index, n, ro.code.len() as int),
                            },
                            code: ro.code,
                            labels,
                            fuel: ro.fuel,
                        },
                    ),
                }
            },
        }
    }
}

/// Runs the machine step by step until the continuation flag falls, the
/// program errs, or the fuel runs out.
pub open spec fn run_steps(
    m: LtmModel,
    code: Seq<TokenModel>,
    labels: Seq<(Seq<char>, int)>,
    instrs: Seq<Instruction>,
    fuel: nat,
) -> Result<StepOut, LexErrModel>
    decreases fuel, 1int,
{
    if !m.going {
        Ok(StepOut { m, code, labels, fuel })
    } else if fuel == 0 {
        Err(LexErrModel::StepLimit)
    } else {
        match step_spec(m, code, labels, instrs, fuel) {
            Err(e) => Err(e),
            Ok(so) => {
                let f2 = if so.fuel < fuel {
                    so.fuel
                } else {
                    (fuel - 1) as nat
                };
                run_steps(so.m, so.code, so.labels, instrs, f2)
            },
        }
    }
}

/// A step never grows the token array: `Add` replaces a token in place,
/// `Delete` and `Wrap` shrink the array, and nothing inserts beyond what
/// `Wrap` merged away.
pub proof fn lemma_step_no_growth(
    m: LtmModel,
    code: Seq<TokenModel>,
    labels: Seq<(Seq<char>, int)>,
    instrs: Seq<Instruction>,
    fuel: nat,
)
    requires
        m.start >= 0,
    ensures
        step_spec(m, code, labels, instrs, fuel) matches Ok(so) ==> so.code.len() <= code.len()
            && so.m.start >= 0,
    decreases fuel, 0int,
{
    if fuel > 0 && 0 <= m.pc < instrs.len() && 0 <= m.index < code.len() {
        match instrs[m.pc] {
            Instruction::Block(inside) => {
                let inner = LtmModel {
                    index: m.index,
                    start: m.start,
                    pc: 0,
                    going: going_after(0, m.index, inside@.len() as int, code.len() as int),
                };
                lemma_run_no_growth(inner, code, Seq::empty(), inside@, (fuel - 1) as nat);
            },
            Instruction::Wrap => {
                if m.start < code.len() {
                    let hi = if m.index > m.start + 1 {
                        m.index
                    } else {
                        m.start + 1
                    };
                    let code2 = code.subrange(0, m.start) + seq![
                        wrapped_token(code, m.start, hi),
                    ] + code.subrange(hi, code.len() as int);
                    assert(code2.len() == m.start + 1 + code.len() - hi);
                    assert(code2.len() <= code.len());
                }
            },
            _ => {},
        }
    }
}

/// A run of steps never grows the token array.
pub proof fn lemma_run_no_growth(
    m: LtmModel,
    code: Seq<TokenModel>,
    labels: Seq<(Seq<char>, int)>,
    instrs: Seq<Instruction>,
    fuel: nat,
)
    requires
        m.start >= 0,
    ensures
        run_steps(m, code, labels, instrs, fuel) matches Ok(ro) ==> ro.code.len() <= code.len()
            && ro.m.start >= 0,
    decreases fuel, 1int,
{
    if m.going && fuel > 0 {
        lemma_step_no_growth(m, code, labels, instrs, fuel);
        match step_spec(m, code, labels, instrs, fuel) {
            Ok(so) => {
                let f2 = if so.fuel < fuel {
                    so.fuel
                } else {
                    (fuel - 1) as nat
                };
                lemma_run_no_growth(so.m, so.code, so.labels, instrs, f2);
            },
            Err(_) => {},
        }
    }
}

/// One attempt of the sweep: the machine runs until its continuation flag
/// falls, then the anchor advances by one and the next attempt begins at the
/// top of the program, at the new anchor, with the label table kept.
pub open spec fn cycle_spec(
    m: LtmModel,
    code: Seq<TokenModel>,
    labels: Seq<(Seq<char>, int)>,
    instrs: Seq<Instruction>,
    fuel: nat,
) -> Result<StepOut, LexErrModel> {
    match run_steps(m, code, labels, instrs, fuel) {
        Err(e) => Err(e),
        Ok(ro) => {
            let s2 = inc_wrap(ro.m.start);
            Ok(
                StepOut {
                    m: LtmModel {
                        index: s2,
                        start: s2,
                        pc: 0,
                        going: going_after(0, s2, instrs.len() as int, ro.code.len() as int),
                    },
                    code: ro.code,
                    labels: ro.labels,
                    fuel: ro.fuel,
                },
            )
        },
    }
}

/// The full sweep of a routine: attempts repeat, each from the next anchor,
/// until the machine stops for good.
pub open spec fn sweep_spec(
    m: LtmModel,
    code: Seq<TokenModel>,
    labels: Seq<(Seq<char>, int)>,
    instrs: Seq<Instruction>,
    fuel: nat,
) -> Result<StepOut, LexErrModel>
    decreases fuel,
{
    if !m.going {
        Ok(StepOut { m, code, labels, fuel })
    } else if fuel == 0 {
        Err(LexErrModel::StepLimit)
    } else {
        match cycle_spec(m, code, labels, instrs, fuel) {
            Err(e) => Err(e),
            Ok(co) => {
                let f2 = if co.fuel < fuel {
                    co.fuel
                } else {
                    (fuel - 1) as nat
                };
                sweep_spec(co.m, co.code, co.labels, instrs, f2)
            },
        }
    }
}

/// A whole sweep never grows the token array.
pub proof fn lemma_sweep_no_growth(
    m: LtmModel,
    code: Seq<TokenModel>,
    labels: Seq<(Seq<char>, int)>,
    instrs: Seq<Instruction>,
    fuel: nat,
)
    requires
        m.start >= 0,
    ensures
        sweep_spec(m, code, labels, instrs, fuel) matches Ok(so) ==> so.code.len() <= code.len(),
    decreases fuel,
{
    if m.going && fuel > 0 {
        lemma_run_no_growth(m, code, labels, instrs, fuel);
        match cycle_spec(m, code, labels, instrs, fuel) {
            Ok(co) => {
                let f2 = if co.fuel < fuel {
                    co.fuel
                } else {
                    (fuel - 1) as nat
                };
                lemma_sweep_no_growth(co.m, co.code, co.labels, instrs, f2);
            },
            Err(_) => {},
        }
    }
}

/// The token array may shrink during lexing; it never grows: whatever the
/// routines did, the lexer hands back at most as many tokens as it was given.
pub proof fn lemma_lex_run_no_growth(rts: Seq<Routine>, ns: Seq<TokenModel>)
    ensures
        lex_run(rts, ns) matches Ok(out) ==> out.len() <= ns.len(),
    decreases rts.len(),
{
    if rts.len() > 0 {
        match routine_run(rts[0], ns) {
            Ok(mid) => {
                lemma_sweep_no_growth(
                    start_state(ns, rts[0].instrs@),
                    ns,
                    Seq::empty(),
                    rts[0].instrs@,
                    STEP_LIMIT as nat,
                );
                lemma_lex_run_no_growth(rts.subrange(1, rts.len() as int), mid);
            },
            Err(_) => {},
        }
    }
}

/// The machine state a routine begins its sweep in.
pub open spec fn start_state(code: Seq<TokenModel>, instrs: Seq<Instruction>) -> LtmModel {
    LtmModel {
        index: 0,
        start: 0,
        pc: 0,
        going: going_after(0, 0, instrs.len() as int, code.len() as int),
    }
}

/// What one routine's sweep, with a fresh label table and the full step
/// budget, makes of the token sequence: a routine whose conditionals break
/// the fixed layout fails fast, before any token is touched.
pub open spec fn routine_run(rt: Routine, ns: Seq<TokenModel>) -> Result<
    Seq<TokenModel>,
    LexErrModel,
> {
    if !if_layout_wf(rt.instrs@) {
        Err(LexErrModel::Malformed)
    } else {
        match sweep_spec(
            start_state(ns, rt.instrs@),
            ns,
            Seq::empty(),
            rt.instrs@,
            STEP_LIMIT as nat,
        ) {
            Ok(so) => Ok(so.code),
            Err(e) => Err(e),
        }
    }
}

/// What the whole lexer makes of the token sequence: each routine's sweep in
/// order, each seeing the cumulative effect of all earlier ones.
pub open spec fn lex_run(rts: Seq<Routine>, ns: Seq<TokenModel>) -> Result<
    Seq<TokenModel>,
    LexErrModel,
>
    decreases rts.len(),
{
    if rts.len() == 0 {
        Ok(ns)
    } else {
        match routine_run(rts[0], ns) {
            Ok(mid) => lex_run(rts.subrange(1, rts.len() as int), mid),
            Err(e) => Err(e),
        }
    }
}

/// Every recorded label position lies inside the program.
pub open spec fn labels_wf(s: Seq<(String, usize)>, n: int) -> bool {
    forall|i: int| 0 <= i < s.len() ==> (#[trigger] s[i]).1 < n
}

/// The capped program-counter advance.
fn advance_pc(pc: usize, k: usize, n: usize) -> (r: usize)
    requires
        pc < n,
    ensures
        r as int == pc_plus(pc as int, k as int, n as int),
{
    if n - pc <= k {
        n
    } else {
        pc + k
    }
}

/// One position back, wrapping below zero.
fn back_one(x: usize) -> (r: usize)
    ensures
        r as int == dec_wrap(x as int),
{
    if x == 0 {
        usize::MAX
    } else {
        x - 1
    }
}

/// Finds the latest recorded position of `name`.
fn find_label(labels: &Vec<(String, usize)>, name: &String) -> (r: Option<usize>)
    ensures
        match r {
            Some(p) => lookup_label(labels_model(labels@), name@) == Some(p as int) && exists|
                i: int,
            |
                0 <= i < labels@.len() && (#[trigger] labels@[i]).1 == p,
            None => lookup_label(labels_model(labels@), name@) is None,
        },
{
    let ghost lm = labels_model(labels@);
    proof {
        assert(lm.subrange(0, lm.len() as int) =~= lm);
    }
    let mut j = labels.len();
    while j > 0
        invariant
            j <= labels@.len(),
            lm == labels_model(labels@),
            lookup_label(lm, name@) == lookup_label(lm.subrange(0, j as int), name@),
        decreases j,
    {
        proof {
            let pre = lm.subrange(0, j as int);
            assert(pre.last() == (labels@[j - 1].0@, labels@[j - 1].1 as int));
            assert(pre.drop_last() =~= lm.subrange(0, j - 1));
        }
        if labels[j - 1].0 == *name {
            let p = labels[j - 1].1;
            return Some(p);
        }
        j = j - 1;
    }
    proof {
        assert(lm.subrange(0, 0) =~= Seq::<(Seq<char>, int)>::empty());
    }
    None
}

impl Ltm {
    /// Executes the one instruction at the program counter, against the
    /// machine semantics `step_spec`: it consumes one unit of fuel, mutates
    /// the token array in place, and recomputes the continuation flag.
    #[verifier::loop_isolation(false)]
    #[verifier::rlimit(100)]
    fn step(
        &mut self,
        code: &mut Vec<Token>,
        instrs: &Vec<Instruction>,
        labels: &mut Vec<(String, usize)>,
        fuel: &mut usize,
    ) -> (r: Result<(), LexError>)
        requires
            old(self).keep_going,
            old(self).index < old(code)@.len(),
            old(self).rule_index < instrs@.len(),
            labels_wf(old(labels)@, instrs@.len() as int),
        ensures
            labels_wf(final(labels)@, instrs@.len() as int),
            final(code)@.len() <= old(code)@.len(),
            r is Ok && final(self).keep_going ==> final(self).index < final(code)@.len()
                && final(self).rule_index < instrs@.len(),
            *final(fuel) <= *old(fuel),
            r is Ok ==> *final(fuel) < *old(fuel),
            match step_spec(
                ltm_model(*old(self)),
                tokens_model(old(code)@),
                labels_model(old(labels)@),
                instrs@,
                *old(fuel) as nat,
            ) {
                Ok(so) => r is Ok && ltm_model(*final(self)) == so.m && tokens_model(final(code)@)
                    == so.code && labels_model(final(labels)@) == so.labels && *final(fuel) as nat
                    == so.fuel,
                Err(e) => r is Err && lex_err_model(r->Err_0) == e,
            },
        decreases *old(fuel),
    {
        let ghost m0 = ltm_model(*old(self));
        let ghost code0 = tokens_model(old(code)@);
        let ghost labels0 = labels_model(old(labels)@);
        let ghost fuel0 = *old(fuel) as nat;
        if *fuel == 0 {
            return Err(LexError::StepLimitExceeded);
        }
        *fuel = *fuel - 1;
        let n_instrs = instrs.len();
        let n_code = code.len();
        match &instrs[self.rule_index] {
            Instruction::Next => {
                self.rule_index = self.rule_index + 1;
                self.index = self.index + 1;
            },
            Instruction::Skip => {
                self.rule_index = self.rule_index + 1;
            },
            Instruction::Back => {
                self.index = if self.index == 0 {
                    0
                } else {
                    self.index - 1
                };
                self.rule_index = self.rule_index + 1;
            },
            Instruction::Add(tag) => {
                let ghost before = tokens_model(code@);
                let mut tok = code.remove(self.index);
                let ghost tok0 = tok;
                tok.tags.push(tag.clone());
                proof {
                    assert(token_model(tok).tags =~= token_model(tok0).tags.push(tag@));
                    assert(token_model(tok) =~= TokenModel {
                        tags: token_model(tok0).tags.push(tag@),
                        ..token_model(tok0)
                    });
                }
                code.insert(self.index, tok);
                proof {
                    assert(code@ =~= old(code)@.update(ltm_model(*old(self)).index, tok));
                    assert(tokens_model(code@) =~= before.update(
                        ltm_model(*old(self)).index,
                        token_model(tok),
                    ));
                }
                self.rule_index = self.rule_index + 1;
            },
            Instruction::Delete => {
                let _ = code.remove(self.index);
                proof {
                    assert(tokens_model(code@) =~= code0.remove(m0.index));
                }
                if self.index == self.start_index {
                    self.start_index = back_one(self.start_index);
                }
                self.index = back_one(self.index);
                self.rule_index = self.rule_index + 1;
            },
            Instruction::Wrap => {
                if self.start_index >= n_code {
                    self.keep_going = false;
                    return Ok(());
                }
                let hi = if self.index > self.start_index + 1 {
                    self.index
                } else {
                    self.start_index + 1
                };
                let k = hi - self.start_index;
                let line = code[self.start_index].line;
                let char_pos = code[self.start_index].char;
                let file = code[self.start_index].file.clone();
                let ghost window = code0.subrange(m0.start, hi as int);
                let mut merged_content = String::new();
                let mut j: usize = 0;
                while j < k
                    invariant
                        j <= k,
                        k == hi - self.start_index,
                        self.start_index + k <= old(code)@.len(),
                        window == code0.subrange(self.start_index as int, hi as int),
                        window.len() == k,
                        code0 == tokens_model(old(code)@),
                        merged_content@ == concat_token_contents(window.subrange(0, j as int)),
                        code@ == old(code)@.subrange(0, self.start_index as int) + old(
                            code,
                        )@.subrange(self.start_index + j, old(code)@.len() as int),
                    decreases k - j,
                {
                    proof {
                        assert(code@[self.start_index as int] == old(code)@[self.start_index + j]);
                    }
                    let t = code.remove(self.start_index);
                    merged_content.append(t.content.as_str());
                    proof {
                        assert(token_model(t) == window[j as int]);
                        lemma_concat_token_contents_snoc(window.subrange(0, j + 1));
                        assert(window.subrange(0, j + 1).drop_last() =~= window.subrange(
                            0,
                            j as int,
                        ));
                        assert(window.subrange(0, j + 1).last() == window[j as int]);
                        assert(code@ =~= old(code)@.subrange(0, self.start_index as int) + old(
                            code,
                        )@.subrange(self.start_index + j + 1, old(code)@.len() as int));
                    }
                    j = j + 1;
                }
                let merged = Token {
                    content: merged_content,
                    tags: Vec::new(),
                    line,
                    char: char_pos,
                    file,
                };
                proof {
                    assert(window.subrange(0, k as int) =~= window);
                    assert(token_model(merged) =~= wrapped_token(code0, m0.start, hi as int));
                }
                code.insert(self.start_index, merged);
                proof {
                    assert(tokens_model(code@) =~= code0.subrange(0, m0.start) + seq![
                        wrapped_token(code0, m0.start, hi as int),
                    ] + code0.subrange(hi as int, code0.len() as int));
                }
                self.index = self.start_index + 1;
                self.rule_index = self.rule_index + 1;
            },
            Instruction::If(cond) => {
                proof {
                    assert(code0[m0.index] == token_model(code@[m0.index]));
                }
                if tags_contain(&code[self.index].tags, cond) {
                    self.rule_index = self.rule_index + 1;
                } else {
                    let has_else = if n_instrs - self.rule_index > 2 {
                        match &instrs[self.rule_index + 2] {
                            Instruction::Else => true,
                            _ => false,
                        }
                    } else {
                        false
                    };
                    if has_else {
                        self.rule_index = advance_pc(self.rule_index, 3, n_instrs);
                    } else {
                        self.rule_index = advance_pc(self.rule_index, 2, n_instrs);
                    }
                }
            },
            Instruction::Else => {
                self.rule_index = advance_pc(self.rule_index, 2, n_instrs);
            },
            Instruction::Cancel => {
                self.keep_going = false;
                return Ok(());
            },
            Instruction::Label(name) => {
                labels.push((name.clone(), self.rule_index));
                proof {
                    assert(labels_model(labels@) =~= labels0.push((name@, m0.pc)));
                }
                self.rule_index = self.rule_index + 1;
            },
            Instruction::Goto(name) => {
                match find_label(labels, name) {
                    Some(p) => {
                        self.rule_index = p + 1;
                    },
                    None => {
                        return Err(LexError::UndefinedLabel(name.clone()));
                    },
                }
            },
            Instruction::Block(inside) => {
                let mut inner = Ltm {
                    index: self.index,
                    start_index: self.start_index,
                    rule_index: 0,
                    keep_going: inside.len() > 0,
                };
                let mut inner_labels: Vec<(String, usize)> = Vec::new();
                let ghost inner0 = ltm_model(inner);
                let ghost block_code0 = tokens_model(code@);
                let ghost block_fuel0 = *fuel as nat;
                proof {
                    assert(labels_model(inner_labels@) =~= Seq::<(Seq<char>, int)>::empty());
                    assert(inner0.going == going_after(
                        0,
                        m0.index,
                        inside@.len() as int,
                        code0.len() as int,
                    ));
                }
                while inner.keep_going
                    invariant
                        code@.len() <= old(code)@.len(),
                        inner.keep_going ==> inner.index < code@.len() && inner.rule_index
                            < inside@.len(),
                        labels_wf(inner_labels@, inside@.len() as int),
                        *fuel <= block_fuel0,
                        run_steps(inner0, block_code0, Seq::empty(), inside@, block_fuel0)
                            == run_steps(
                            ltm_model(inner),
                            tokens_model(code@),
                            labels_model(inner_labels@),
                            inside@,
                            *fuel as nat,
                        ),
                    decreases *fuel,
                {
                    let ghost pre_m = ltm_model(inner);
                    let ghost pre_code = tokens_model(code@);
                    let ghost pre_labels = labels_model(inner_labels@);
                    let ghost pre_fuel = *fuel as nat;
                    let res = inner.step(code, inside, &mut inner_labels, fuel);
                    match res {
                        Ok(()) => {
                            proof {
                                let so = step_spec(
                                    pre_m,
                                    pre_code,
                                    pre_labels,
                                    inside@,
                                    pre_fuel,
                                )->Ok_0;
                                assert(so.fuel < pre_fuel);
                                assert(run_steps(pre_m, pre_code, pre_labels, inside@, pre_fuel)
                                    == run_steps(so.m, so.code, so.labels, inside@, so.fuel));
                            }
                        },
                        Err(e) => {
                            proof {
                                assert(run_steps(
                                    inner0,
                                    block_code0,
                                    Seq::empty(),
                                    inside@,
                                    block_fuel0,
                                ) == Err::<StepOut, LexErrModel>(lex_err_model(e)));
                            }
                            return Err(e);
                        },
                    }
                }
                proof {
                    let cur = StepOut {
                        m: ltm_model(inner),
                        code: tokens_model(code@),
                        labels: labels_model(inner_labels@),
                        fuel: *fuel as nat,
                    };
                    assert(run_steps(inner0, block_code0, Seq::empty(), inside@, block_fuel0)
                        == Ok::<StepOut, LexErrModel>(cur));
                }
                self.rule_index = self.rule_index + 1;
            },
        }
        self.keep_going = self.rule_index < n_instrs && self.index < code.len();
        Ok(())
    }

    /// Runs one attempt to completion, then advances the anchor by one and
    /// resets the program counter for the next attempt.
    #[verifier::loop_isolation(false)]
    fn cycle(
        &mut self,
        code: &mut Vec<Token>,
        instrs: &Vec<Instruction>,
        labels: &mut Vec<(String, usize)>,
        fuel: &mut usize,
    ) -> (r: Result<(), LexError>)
        requires
            old(self).keep_going ==> old(self).index < old(code)@.len() && old(
                self,
            ).rule_index < instrs@.len(),
            labels_wf(old(labels)@, instrs@.len() as int),
        ensures
            labels_wf(final(labels)@, instrs@.len() as int),
            final(code)@.len() <= old(code)@.len(),
            r is Ok && final(self).keep_going ==> final(self).index < final(code)@.len()
                && final(self).rule_index < instrs@.len(),
            *final(fuel) <= *old(fuel),
            r is Ok && old(self).keep_going ==> *final(fuel) < *old(fuel),
            match cycle_spec(
                ltm_model(*old(self)),
                tokens_model(old(code)@),
                labels_model(old(labels)@),
                instrs@,
                *old(fuel) as nat,
            ) {
                Ok(so) => r is Ok && ltm_model(*final(self)) == so.m && tokens_model(final(code)@)
                    == so.code && labels_model(final(labels)@) == so.labels && *final(fuel) as nat
                    == so.fuel,
                Err(e) => r is Err && lex_err_model(r->Err_0) == e,
            },
    {
        let ghost m0 = ltm_model(*old(self));
        let ghost code0 = tokens_model(old(code)@);
        let ghost labels0 = labels_model(old(labels)@);
        let ghost fuel0 = *old(fuel) as nat;
        while self.keep_going
            invariant
                code@.len() <= old(code)@.len(),
                self.keep_going ==> self.index < code@.len() && self.rule_index < instrs@.len(),
                labels_wf(labels@, instrs@.len() as int),
                *fuel <= *old(fuel),
                *fuel < *old(fuel) || self.keep_going == old(self).keep_going,
                run_steps(m0, code0, labels0, instrs@, fuel0) == run_steps(
                    ltm_model(*self),
                    tokens_model(code@),
                    labels_model(labels@),
                    instrs@,
                    *fuel as nat,
                ),
            decreases *fuel,
        {
            let ghost pre_m = ltm_model(*self);
            let ghost pre_code = tokens_model(code@);
            let ghost pre_labels = labels_model(labels@);
            let ghost pre_fuel = *fuel as nat;
            match self.step(code, instrs, labels, fuel) {
                Ok(()) => {
                    proof {
                        let so = step_spec(pre_m, pre_code, pre_labels, instrs@, pre_fuel)->Ok_0;
                        assert(so.fuel < pre_fuel);
                        assert(run_steps(pre_m, pre_code, pre_labels, instrs@, pre_fuel)
                            == run_steps(so.m, so.code, so.labels, instrs@, so.fuel));
                    }
                },
                Err(e) => {
                    proof {
                        assert(run_steps(m0, code0, labels0, instrs@, fuel0)
                            == Err::<StepOut, LexErrModel>(lex_err_model(e)));
                    }
                    return Err(e);
                },
            }
        }
        proof {
            let cur = StepOut {
                m: ltm_model(*self),
                code: tokens_model(code@),
                labels: labels_model(labels@),
                fuel: *fuel as nat,
            };
            assert(run_steps(m0, code0, labels0, instrs@, fuel0) == Ok::<
                StepOut,
                LexErrModel,
            >(cur));
        }
        self.rule_index = 0;
        self.start_index = if self.start_index == usize::MAX {
            0
        } else {
            self.start_index + 1
        };
        self.index = self.start_index;
        self.keep_going = instrs.len() > 0 && self.index < code.len();
        Ok(())
    }
}

/// The step budget of one routine's sweep; exceeding it signals a routine
/// that cannot terminate.
pub const STEP_LIMIT: usize = 100_000_000;

impl Routine {
    /// Sweeps this routine's program across the token array: one attempt per
    /// anchor position, from the start of the array, each attempt running the
    /// program from its top with the cursor reset to the anchor. The verbose
    /// flag selects tracing, an optional side channel with no effect on
    /// results, which this library omits.
    #[verifier::loop_isolation(false)]
    pub fn start(&self, code: &mut Vec<Token>, verbose: bool) -> (r: Result<(), LexError>)
        ensures
            final(code)@.len() <= old(code)@.len(),
            match routine_run(*self, tokens_model(old(code)@)) {
                Ok(out) => r is Ok && tokens_model(final(code)@) == out,
                Err(e) => r is Err && lex_err_model(r->Err_0) == e,
            },
    {
        let _ = verbose;
        if !layout_valid(&self.instrs) {
            return Err(LexError::MalformedConditional);
        }
        let ghost code0 = tokens_model(old(code)@);
        let n_instrs = self.instrs.len();
        let n_code = code.len();
        let mut machine = Ltm {
            index: 0,
            start_index: 0,
            rule_index: 0,
            keep_going: n_instrs > 0 && n_code > 0,
        };
        let mut labels: Vec<(String, usize)> = Vec::new();
        let mut fuel: usize = STEP_LIMIT;
        proof {
            assert(ltm_model(machine) == start_state(code0, self.instrs@));
            assert(labels_model(labels@) =~= Seq::<(Seq<char>, int)>::empty());
        }
        while machine.keep_going
            invariant
                code@.len() <= old(code)@.len(),
                machine.keep_going ==> machine.index < code@.len() && machine.rule_index
                    < self.instrs@.len(),
                labels_wf(labels@, self.instrs@.len() as int),
                sweep_spec(
                    start_state(code0, self.instrs@),
                    code0,
                    Seq::empty(),
                    self.instrs@,
                    STEP_LIMIT as nat,
                ) == sweep_spec(
                    ltm_model(machine),
                    tokens_model(code@),
                    labels_model(labels@),
                    self.instrs@,
                    fuel as nat,
                ),
            decreases fuel,
        {
            let ghost pre_m = ltm_model(machine);
            let ghost pre_code = tokens_model(code@);
            let ghost pre_labels = labels_model(labels@);
            let ghost pre_fuel = fuel as nat;
            match machine.cycle(code, &self.instrs, &mut labels, &mut fuel) {
                Ok(()) => {
                    proof {
                        let co = cycle_spec(
                            pre_m,
                            pre_code,
                            pre_labels,
                            self.instrs@,
                            pre_fuel,
                        )->Ok_0;
                        assert(co.fuel < pre_fuel);
                        assert(sweep_spec(pre_m, pre_code, pre_labels, self.instrs@, pre_fuel)
                            == sweep_spec(co.m, co.code, co.labels, self.instrs@, co.fuel));
                    }
                },
                Err(e) => {
                    proof {
                        assert(sweep_spec(
                            start_state(code0, self.instrs@),
                            code0,
                            Seq::empty(),
                            self.instrs@,
                            STEP_LIMIT as nat,
                        ) == Err::<StepOut, LexErrModel>(lex_err_model(e)));
                    }
                    return Err(e);
                },
            }
        }
        proof {
            let cur = StepOut {
                m: ltm_model(machine),
                code: tokens_model(code@),
                labels: labels_model(labels@),
                fuel: fuel as nat,
            };
            assert(sweep_spec(
                start_state(code0, self.instrs@),
                code0,
                Seq::empty(),
                self.instrs@,
                STEP_LIMIT as nat,
            ) == Ok::<StepOut, LexErrModel>(cur));
        }
        Ok(())
    }
}

impl Lexer {
    /// Runs every routine over the token array, in order, each seeing the
    /// cumulative effect of all earlier ones. The verbose flag selects
    /// tracing, an optional side channel with no effect on results, which
    /// this library omits.
    #[verifier::loop_isolation(false)]
    pub fn lex(&self, code: &mut Vec<Token>, verbose: bool) -> (r: Result<(), LexError>)
        ensures
            final(code)@.len() <= old(code)@.len(),
            match lex_run(self.rules@, tokens_model(old(code)@)) {
                Ok(out) => r is Ok && tokens_model(final(code)@) == out,
                Err(e) => r is Err && lex_err_model(r->Err_0) == e,
            },
    {
        let ghost orig = tokens_model(old(code)@);
        let n = self.rules.len();
        proof {
            assert(self.rules@.subrange(0, n as int) =~= self.rules@);
        }
        let mut i: usize = 0;
        while i < n
            invariant
                i <= n,
                code@.len() <= old(code)@.len(),
                lex_run(self.rules@, orig) == lex_run(
                    self.rules@.subrange(i as int, n as int),
                    tokens_model(code@),
                ),
            decreases n - i,
        {
            let ghost pre_code = tokens_model(code@);
            let ghost suffix = self.rules@.subrange(i as int, n as int);
            match self.rules[i].start(code, verbose) {
                Ok(()) => {
                    proof {
                        assert(suffix[0] == self.rules@[i as int]);
                        assert(suffix.subrange(1, suffix.len() as int) =~= self.rules@.subrange(
                            i + 1,
                            n as int,
                        ));
                    }
                },
                Err(e) => {
                    proof {
                        assert(suffix[0] == self.rules@[i as int]);
                        assert(lex_run(self.rules@, orig) == Err::<
                            Seq<TokenModel>,
                            LexErrModel,
                        >(lex_err_model(e)));
                    }
                    return Err(e);
                },
            }
            i = i + 1;
        }
        proof {
            assert(self.rules@.subrange(n as int, n as int) =~= Seq::<Routine>::empty());
        }
        Ok(())
    }
}

} // verus!
