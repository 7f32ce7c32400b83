//! Front end: scans source text and builds the instruction tree.
//!
//! Eight characters are meaningful; every other character is a comment and is
//! skipped. Consecutive identical non-bracket operations are coalesced into a
//! single instruction carrying a repetition count. Brackets open and close
//! loop bodies; an unmatched bracket of either kind is the only parse error.

use vstd::prelude::*;

verus! {

/// The operations of the language. `Loop` owns a body of child instructions;
/// the six plain opcodes carry a repetition count instead.
#[derive(Clone, Copy, PartialEq, Eq, Structural, Debug)]
pub enum OpCode {
    Left,
    Right,
    Inc,
    Dec,
    Print,
    Query,
    Loop,
}

/// One node of the instruction tree. For the six plain opcodes `amount` is the
/// number of consecutive identical source characters collapsed into this node
/// (always at least 1) and `instructions` is empty; for `Loop` the `amount` is
/// 0 and `instructions` holds the loop body.
#[derive(Debug)]
pub struct Instruction {
    pub opcode: OpCode,
    pub amount: usize,
    pub instructions: Vec<Instruction>,
}

/// Which bracket kind was left unmatched.
#[derive(Clone, Copy, PartialEq, Eq, Structural, Debug)]
pub enum BracketKind {
    Open,
    Close,
}

/// The only parse failure: a bracket without a partner.
#[derive(Clone, Copy, PartialEq, Eq, Structural, Debug)]
pub enum ParseError {
    UnmatchedBracket(BracketKind),
}

/// Mathematical model of one instruction tree node.
pub struct Instr {
    pub opcode: OpCode,
    pub amount: nat,
    pub body: Seq<Instr>,
}

/// Model of an instruction: its opcode, its count, and its body's model.
pub open spec fn instr_view(i: Instruction) -> Instr
    decreases i,
{
    Instr { opcode: i.opcode, amount: i.amount as nat, body: prog_view(i.instructions@) }
}

/// Model of an instruction sequence, element by element.
pub open spec fn prog_view(s: Seq<Instruction>) -> Seq<Instr>
    decreases s,
{
    if s.len() == 0 {
        Seq::empty()
    } else {
        prog_view(s.drop_last()).push(instr_view(s.last()))
    }
}

pub proof fn lemma_prog_view_len(s: Seq<Instruction>)
    ensures
        prog_view(s).len() == s.len(),
    decreases s,
{
    if s.len() > 0 {
        lemma_prog_view_len(s.drop_last());
    }
}

pub proof fn lemma_prog_view_index(s: Seq<Instruction>, k: int)
    requires
        0 <= k < s.len(),
    ensures
        prog_view(s).len() == s.len(),
        prog_view(s)[k] == instr_view(s[k]),
    decreases s,
{
    lemma_prog_view_len(s);
    lemma_prog_view_len(s.drop_last());
    if k < s.len() - 1 {
        lemma_prog_view_index(s.drop_last(), k);
        assert(s.drop_last()[k] == s[k]);
    } else {
        assert(s.last() == s[k]);
    }
}

pub proof fn lemma_prog_view_push(s: Seq<Instruction>, x: Instruction)
    ensures
        prog_view(s.push(x)) == prog_view(s).push(instr_view(x)),
{
    assert(s.push(x).drop_last() =~= s);
    assert(s.push(x).last() == x);
}

/// The opcode denoted by a non-bracket character, if any.
pub open spec fn plain_op(c: char) -> Option<OpCode> {
    if c == '<' {
        Some(OpCode::Left)
    } else if c == '>' {
        Some(OpCode::Right)
    } else if c == '+' {
        Some(OpCode::Inc)
    } else if c == '-' {
        Some(OpCode::Dec)
    } else if c == '.' {
        Some(OpCode::Print)
    } else if c == ',' {
        Some(OpCode::Query)
    } else {
        None
    }
}

/// The state of the scan: the suspended bodies of the loops that are still
/// open (outermost first), and the body currently being accumulated.
pub struct ParseState {
    pub levels: Seq<Seq<Instr>>,
    pub cur: Seq<Instr>,
}

pub open spec fn init_state() -> ParseState {
    ParseState { levels: Seq::empty(), cur: Seq::empty() }
}

/// Append a plain operation to a body: if the body's last instruction has the
/// same opcode its count grows by one, otherwise a fresh node with count 1 is
/// appended.
pub open spec fn coalesce(cur: Seq<Instr>, op: OpCode) -> Seq<Instr> {
    if cur.len() > 0 && cur.last().opcode == op {
        cur.drop_last().push(
            Instr { opcode: op, amount: cur.last().amount + 1, body: cur.last().body },
        )
    } else {
        cur.push(Instr { opcode: op, amount: 1, body: Seq::empty() })
    }
}

/// One character of the scan.
pub open spec fn parse_step(st: ParseState, c: char) -> Result<ParseState, ParseError> {
    if c == '[' {
        Ok(ParseState { levels: st.levels.push(st.cur), cur: Seq::empty() })
    } else if c == ']' {
        if st.levels.len() == 0 {
            Err(ParseError::UnmatchedBracket(BracketKind::Close))
        } else {
            Ok(
                ParseState {
                    levels: st.levels.drop_last(),
                    cur: st.levels.last().push(
                        Instr { opcode: OpCode::Loop, amount: 0, body: st.cur },
                    ),
                },
            )
        }
    } else {
        match plain_op(c) {
            Some(op) => Ok(ParseState { levels: st.levels, cur: coalesce(st.cur, op) }),
            None => Ok(st),
        }
    }
}

/// The scan folded over a whole character sequence.
pub open spec fn parse_iter(s: Seq<char>, st: ParseState) -> Result<ParseState, ParseError>
    decreases s.len(),
{
    if s.len() == 0 {
        Ok(st)
    } else {
        match parse_iter(s.drop_last(), st) {
            Ok(st1) => parse_step(st1, s.last()),
            Err(e) => Err(e),
        }
    }
}

/// What parsing a source text yields: the instruction forest, or the first
/// unmatched bracket.
pub open spec fn parse_spec(s: Seq<char>) -> Result<Seq<Instr>, ParseError> {
    match parse_iter(s, init_state()) {
        Ok(st) => if st.levels.len() == 0 {
            Ok(st.cur)
        } else {
            Err(ParseError::UnmatchedBracket(BracketKind::Open))
        },
        Err(e) => Err(e),
    }
}

pub open spec fn depth_change(c: char) -> int {
    if c == '[' {
        1
    } else if c == ']' {
        -1
    } else {
        0
    }
}

/// Open brackets minus close brackets.
pub open spec fn depth(s: Seq<char>) -> int
    decreases s.len(),
{
    if s.len() == 0 {
        0
    } else {
        depth(s.drop_last()) + depth_change(s.last())
    }
}

/// Some prefix closes a bracket that was never opened.
pub open spec fn has_early_close(s: Seq<char>) -> bool {
    exists|i: int| 0 <= i <= s.len() && depth(#[trigger] s.take(i)) < 0
}

/// Every close bracket has an earlier partner and every open bracket a later
/// one.
pub open spec fn balanced(s: Seq<char>) -> bool {
    !has_early_close(s) && depth(s) == 0
}

/// How many recognized non-bracket characters a source text holds.
pub open spec fn plain_count(s: Seq<char>) -> nat
    decreases s.len(),
{
    if s.len() == 0 {
        0
    } else {
        plain_count(s.drop_last()) + (if plain_op(s.last()) is Some {
            1nat
        } else {
            0nat
        })
    }
}

/// Total of the repetition counts of the non-loop nodes of a tree.
pub open spec fn instr_amount_sum(i: Instr) -> nat
    decreases i,
{
    if i.opcode is Loop {
        seq_amount_sum(i.body)
    } else {
        i.amount
    }
}

pub open spec fn seq_amount_sum(s: Seq<Instr>) -> nat
    decreases s,
{
    if s.len() == 0 {
        0
    } else {
        seq_amount_sum(s.drop_last()) + instr_amount_sum(s.last())
    }
}

pub open spec fn levels_sum(levels: Seq<Seq<Instr>>) -> nat
    decreases levels.len(),
{
    if levels.len() == 0 {
        0
    } else {
        levels_sum(levels.drop_last()) + seq_amount_sum(levels.last())
    }
}

pub open spec fn state_sum(st: ParseState) -> nat {
    levels_sum(st.levels) + seq_amount_sum(st.cur)
}

proof fn lemma_seq_amount_sum_push(s: Seq<Instr>, x: Instr)
    ensures
        seq_amount_sum(s.push(x)) == seq_amount_sum(s) + instr_amount_sum(x),
{
    assert(s.push(x).drop_last() =~= s);
    assert(s.push(x).last() == x);
}

proof fn lemma_levels_sum_push(levels: Seq<Seq<Instr>>, x: Seq<Instr>)
    ensures
        levels_sum(levels.push(x)) == levels_sum(levels) + seq_amount_sum(x),
{
    assert(levels.push(x).drop_last() =~= levels);
    assert(levels.push(x).last() == x);
}

/// Invariant of the scan over any prefix: it fails exactly when some prefix
/// closes an unopened bracket, the number of open levels tracks the bracket
/// depth, and the accumulated repetition counts track the recognized
/// non-bracket characters.
proof fn lemma_parse_iter_props(s: Seq<char>)
    ensures
        match parse_iter(s, init_state()) {
            Ok(st) => !has_early_close(s) && st.levels.len() == depth(s) && state_sum(st)
                == plain_count(s),
            Err(e) => has_early_close(s) && e == ParseError::UnmatchedBracket(BracketKind::Close),
        },
    decreases s.len(),
{
    if s.len() == 0 {
        assert forall|i: int| 0 <= i <= s.len() implies depth(#[trigger] s.take(i)) >= 0 by {
            assert(s.take(i) =~= s);
        }
    } else {
        let sp = s.drop_last();
        let c = s.last();
        lemma_parse_iter_props(sp);
        assert forall|i: int| 0 <= i <= sp.len() implies s.take(i) == sp.take(i) by {
            assert(s.take(i) =~= sp.take(i));
        }
        assert(s.take(s.len() as int) =~= s);
        match parse_iter(sp, init_state()) {
            Err(e) => {
                let i = choose|i: int| 0 <= i <= sp.len() && depth(#[trigger] sp.take(i)) < 0;
                assert(depth(s.take(i)) < 0);
                assert(has_early_close(s));
            },
            Ok(st) => {
                if c == '[' {
                    proof_step_no_early(s, sp, st.levels.len() as int + 1);
                    lemma_levels_sum_push(st.levels, st.cur);
                } else if c == ']' {
                    if st.levels.len() == 0 {
                        assert(depth(s) < 0);
                        assert(has_early_close(s));
                    } else {
                        proof_step_no_early(s, sp, st.levels.len() as int - 1);
                        let node = Instr { opcode: OpCode::Loop, amount: 0, body: st.cur };
                        lemma_seq_amount_sum_push(st.levels.last(), node);
                        assert(levels_sum(st.levels) == levels_sum(st.levels.drop_last())
                            + seq_amount_sum(st.levels.last()));
                    }
                } else {
                    proof_step_no_early(s, sp, st.levels.len() as int);
                    match plain_op(c) {
                        Some(op) => {
                            if st.cur.len() > 0 && st.cur.last().opcode == op {
                                let up = Instr {
                                    opcode: op,
                                    amount: st.cur.last().amount + 1,
                                    body: st.cur.last().body,
                                };
                                lemma_seq_amount_sum_push(st.cur.drop_last(), up);
                                assert(seq_amount_sum(st.cur) == seq_amount_sum(st.cur.drop_last())
                                    + instr_amount_sum(st.cur.last()));
                                assert(instr_amount_sum(st.cur.last()) == st.cur.last().amount);
                            } else {
                                let nw = Instr { opcode: op, amount: 1, body: Seq::empty() };
                                lemma_seq_amount_sum_push(st.cur, nw);
                            }
                        },
                        None => {},
                    }
                }
            },
        }
    }
}

/// Helper: if no prefix of `sp` dips below zero and the full depth of `s` is
/// `d >= 0`, then no prefix of `s = sp + [c]` dips below zero.
proof fn proof_step_no_early(s: Seq<char>, sp: Seq<char>, d: int)
    requires
        s.len() == sp.len() + 1,
        sp == s.drop_last(),
        !has_early_close(sp),
        depth(s) == d,
        d >= 0,
    ensures
        !has_early_close(s),
{
    assert forall|i: int| 0 <= i <= s.len() implies depth(#[trigger] s.take(i)) >= 0 by {
        if i <= sp.len() {
            assert(s.take(i) =~= sp.take(i));
            if depth(sp.take(i)) < 0 {
                assert(has_early_close(sp));
            }
        } else {
            assert(s.take(i) =~= s);
        }
    }
}

/// An error, once hit, is the result of the whole scan.
proof fn lemma_parse_iter_err_persists(s: Seq<char>, j: int)
    requires
        0 <= j <= s.len(),
        parse_iter(s.take(j), init_state()) is Err,
    ensures
        parse_iter(s, init_state()) == parse_iter(s.take(j), init_state()),
    decreases s.len(),
{
    if j == s.len() {
        assert(s.take(j) =~= s);
    } else {
        assert(s.drop_last().take(j) =~= s.take(j));
        lemma_parse_iter_err_persists(s.drop_last(), j);
    }
}

/// Every source whose brackets are balanced parses, and the repetition counts
/// of the non-loop nodes of the resulting forest sum to the number of
/// recognized non-bracket characters of the source.
pub proof fn lemma_balanced_source_parses(s: Seq<char>)
    requires
        balanced(s),
    ensures
        match parse_spec(s) {
            Ok(p) => seq_amount_sum(p) == plain_count(s),
            Err(_) => false,
        },
{
    lemma_parse_iter_props(s);
}

/// Every source with an unmatched bracket fails to parse, naming the kind of
/// the offending bracket: a close bracket that was never opened wins over a
/// trailing open bracket.
pub proof fn lemma_unbalanced_source_fails(s: Seq<char>)
    requires
        !balanced(s),
    ensures
        parse_spec(s) == Err::<Seq<Instr>, ParseError>(
            ParseError::UnmatchedBracket(
                if has_early_close(s) {
                    BracketKind::Close
                } else {
                    BracketKind::Open
                },
            ),
        ),
{
    lemma_parse_iter_props(s);
    if !has_early_close(s) {
        assert(s.take(s.len() as int) =~= s);
        assert(depth(s) >= 0);
    }
}

/// Parsing succeeds exactly on balanced sources.
pub proof fn lemma_parse_ok_iff_balanced(s: Seq<char>)
    ensures
        parse_spec(s) is Ok <==> balanced(s),
{
    lemma_parse_iter_props(s);
    if parse_spec(s) is Ok {
        assert(!has_early_close(s));
    }
    if balanced(s) {
        lemma_balanced_source_parses(s);
    }
}

/// Model of the stack of open bodies held by the executable scan.
pub open spec fn levels_view(s: Seq<Vec<Instruction>>) -> Seq<Seq<Instr>> {
    Seq::new(s.len(), |k: int| prog_view(s[k]@))
}

/// Scan a source text into an instruction forest, or report the first
/// unmatched bracket.
#[verifier::loop_isolation(false)]
pub fn parse(input: &str) -> (r: Result<Vec<Instruction>, ParseError>)
    ensures
        ({
            match r {
                Ok(prog) => parse_spec(input@) == Ok::<Seq<Instr>, ParseError>(prog_view(prog@)),
                Err(e) => parse_spec(input@) == Err::<Seq<Instr>, ParseError>(e),
            }
        }),
{
    let n: usize = input.unicode_len();
    let mut levels: Vec<Vec<Instruction>> = Vec::new();
    let mut cur: Vec<Instruction> = Vec::new();
    let mut i: usize = 0;
    proof {
        assert(input@.take(0) =~= Seq::<char>::empty());
        assert(levels_view(levels@) =~= Seq::<Seq<Instr>>::empty());
        assert(prog_view(cur@) =~= Seq::<Instr>::empty());
    }
    while i < n
        invariant
            i <= n,
            parse_iter(input@.take(i as int), init_state()) == Ok::<ParseState, ParseError>(
                (ParseState { levels: levels_view(levels@), cur: prog_view(cur@) }),
            ),
            cur@.len() > 0 && !(cur@.last().opcode is Loop) ==> cur@.last().amount <= i,
        decreases n - i,
    {
        let c: char = input.get_char(i);
        let ghost lv0 = levels@;
        let ghost cv0 = cur@;
        proof {
            assert(input@.take(i as int + 1).drop_last() =~= input@.take(i as int));
            assert(input@.take(i as int + 1).last() == c);
            lemma_prog_view_len(cv0);
        }
        if c == '[' {
            levels.push(cur);
            cur = Vec::new();
            proof {
                assert(levels_view(levels@) =~= levels_view(lv0).push(prog_view(cv0)));
                assert(prog_view(cur@) =~= Seq::<Instr>::empty());
            }
        } else if c == ']' {
            match levels.pop() {
                None => {
                    proof {
                        assert(levels_view(lv0).len() == 0);
                        lemma_parse_iter_err_persists(input@, i as int + 1);
                    }
                    return Err(ParseError::UnmatchedBracket(BracketKind::Close));
                },
                Some(mut outer) => {
                    let ghost ov0 = outer@;
                    let node = Instruction { opcode: OpCode::Loop, amount: 0, instructions: cur };
                    outer.push(node);
                    cur = outer;
                    proof {
                        assert(levels_view(lv0).len() == lv0.len());
                        assert(levels_view(levels@) =~= levels_view(lv0).drop_last());
                        assert(levels_view(lv0).last() == prog_view(ov0));
                        lemma_prog_view_push(ov0, node);
                        assert(instr_view(node) == (Instr {
                            opcode: OpCode::Loop,
                            amount: 0nat,
                            body: prog_view(cv0),
                        }));
                    }
                },
            }
        } else {
            let op_found: Option<OpCode> = if c == '<' {
                Some(OpCode::Left)
            } else if c == '>' {
                Some(OpCode::Right)
            } else if c == '+' {
                Some(OpCode::Inc)
            } else if c == '-' {
                Some(OpCode::Dec)
            } else if c == '.' {
                Some(OpCode::Print)
            } else if c == ',' {
                Some(OpCode::Query)
            } else {
                None
            };
            proof {
                assert(op_found == plain_op(c));
            }
            match op_found {
                None => {},
                Some(op) => {
                    let l: usize = cur.len();
                    let mut coalesced = false;
                    if l > 0 {
                        let same: bool = cur[l - 1].opcode == op;
                        if same {
                            coalesced = true;
                        }
                    }
                    proof {
                        if l > 0 {
                            assert(prog_view(cv0).last() == instr_view(cv0.last()));
                        }
                        assert(coalesced <==> (prog_view(cv0).len() > 0 && prog_view(cv0).last().opcode
                            == op));
                    }
                    if coalesced {
                        match cur.pop() {
                            None => {
                                proof {
                                    assert(false);
                                }
                            },
                            Some(mut lastins) => {
                                proof {
                                    assert(lastins == cv0.last());
                                    assert(!(plain_op(c)->Some_0 is Loop));
                                    assert(lastins.amount <= i);
                                }
                                lastins.amount = lastins.amount + 1;
                                cur.push(lastins);
                                proof {
                                    lemma_prog_view_push(cv0.drop_last(), lastins);
                                    assert(cur@ == cv0.drop_last().push(lastins));
                                    assert(prog_view(cv0).drop_last() == prog_view(cv0.drop_last()));
                                    assert(instr_view(lastins) == (Instr {
                                        opcode: op,
                                        amount: (cv0.last().amount + 1) as nat,
                                        body: instr_view(cv0.last()).body,
                                    }));
                                }
                            },
                        }
                    } else {
                        let node = Instruction { opcode: op, amount: 1, instructions: Vec::new() };
                        cur.push(node);
                        proof {
                            lemma_prog_view_push(cv0, node);
                            assert(instr_view(node) == (Instr {
                                opcode: op,
                                amount: 1nat,
                                body: Seq::empty(),
                            }));
                        }
                    }
                },
            }
        }
        i = i + 1;
    }
    proof {
        assert(input@.take(i as int) =~= input@);
    }
    if levels.len() == 0 {
        proof {
            assert(levels_view(levels@).len() == 0);
        }
        Ok(cur)
    } else {
        proof {
            assert(levels_view(levels@).len() == levels@.len());
        }
        Err(ParseError::UnmatchedBracket(BracketKind::Open))
    }
}

/// Whether `next` may stand directly after `prev` in a coalesced body: two
/// adjacent plain instructions never share an opcode.
pub open spec fn can_follow(prev: Instr, next: Instr) -> bool {
    prev.opcode is Loop || next.opcode is Loop || prev.opcode != next.opcode
}

/// A well-formed node: a loop carries count 0 and a well-formed body; a plain
/// instruction carries a count of at least 1 and no body.
pub open spec fn wf_instr(i: Instr) -> bool
    decreases i,
{
    if i.opcode is Loop {
        i.amount == 0 && wf_seq(i.body)
    } else {
        1 <= i.amount && i.body.len() == 0
    }
}

/// A well-formed, fully coalesced body.
pub open spec fn wf_seq(s: Seq<Instr>) -> bool
    decreases s,
{
    s.len() == 0 || (wf_seq(s.drop_last()) && wf_instr(s.last()) && (s.len() < 2 || can_follow(
        s[s.len() - 2],
        s.last(),
    )))
}

pub open spec fn levels_wf(levels: Seq<Seq<Instr>>) -> bool
    decreases levels.len(),
{
    levels.len() == 0 || (levels_wf(levels.drop_last()) && wf_seq(levels.last()))
}

proof fn lemma_wf_seq_push(s: Seq<Instr>, x: Instr)
    requires
        wf_seq(s),
        wf_instr(x),
        s.len() == 0 || can_follow(s.last(), x),
    ensures
        wf_seq(s.push(x)),
{
    assert(s.push(x).drop_last() =~= s);
    assert(s.push(x).last() == x);
    if s.len() >= 1 {
        assert(s.push(x)[s.push(x).len() - 2] == s.last());
    }
}

proof fn lemma_parse_iter_wf(s: Seq<char>)
    ensures
        match parse_iter(s, init_state()) {
            Ok(st) => levels_wf(st.levels) && wf_seq(st.cur),
            Err(_) => true,
        },
    decreases s.len(),
{
    if s.len() > 0 {
        let sp = s.drop_last();
        let c = s.last();
        lemma_parse_iter_wf(sp);
        match parse_iter(sp, init_state()) {
            Err(_) => {},
            Ok(st) => {
                if c == '[' {
                    assert(st.levels.push(st.cur).drop_last() =~= st.levels);
                    assert(wf_seq(Seq::<Instr>::empty()));
                } else if c == ']' {
                    if st.levels.len() > 0 {
                        let node = Instr { opcode: OpCode::Loop, amount: 0, body: st.cur };
                        assert(wf_instr(node));
                        lemma_wf_seq_push(st.levels.last(), node);
                    }
                } else {
                    match plain_op(c) {
                        None => {},
                        Some(op) => {
                            if st.cur.len() > 0 && st.cur.last().opcode == op {
                                let up = Instr {
                                    opcode: op,
                                    amount: st.cur.last().amount + 1,
                                    body: st.cur.last().body,
                                };
                                assert(wf_instr(st.cur.last()));
                                assert(wf_instr(up));
                                lemma_wf_seq_push(st.cur.drop_last(), up);
                            } else {
                                let nw = Instr { opcode: op, amount: 1, body: Seq::empty() };
                                assert(wf_instr(nw));
                                lemma_wf_seq_push(st.cur, nw);
                            }
                        },
                    }
                }
            },
        }
    }
}

/// Run-length coalescing, as a law over every source: a parsed forest never
/// holds two adjacent plain instructions of the same opcode, every plain
/// count is at least 1, and every loop node carries count 0 and a forest of
/// the same shape.
pub proof fn lemma_parse_coalesced(s: Seq<char>)
    ensures
        match parse_spec(s) {
            Ok(p) => wf_seq(p),
            Err(_) => true,
        },
{
    lemma_parse_iter_wf(s);
}

} // verus!
