//! Lowering of the instruction tree to a block-structured intermediate
//! representation with structured control flow.
//!
//! Every loop becomes three blocks: a check block that loads the current cell
//! and branches on it, a body block holding the lowered loop contents that
//! falls back to the check block, and an exit block that emission continues
//! in. Plain opcodes become single arithmetic operations carrying their whole
//! repetition count (cell arithmetic truncated to 8 bits), except output and
//! input, which are emitted once per repetition so the observable order of
//! I/O calls matches the interpreter. The representation can be executed
//! directly (`run_blocks`), and a separate, unverified back end may
//! materialize it as native object code.

use vstd::prelude::*;

use crate::parser::{parse, parse_spec, prog_view, Instr, Instruction, OpCode, ParseError};
use crate::runner::{add_wrap, sub_wrap, Fault};

verus! {

/// Why a compilation attempt failed.
#[derive(Debug)]
pub enum CompilerError {
    /// The source did not parse.
    Parse(ParseError),
    /// No code-generation back end could be resolved for the host
    /// architecture.
    TargetUnavailable,
    /// The back end rejected the constructed module; carries its diagnostic.
    ObjectCreation { detail: String },
}

/// One straight-line operation of the intermediate representation.
#[derive(Clone, Copy, PartialEq, Eq, Structural, Debug)]
pub enum IrOp {
    /// Move the cursor right.
    PtrAdd(usize),
    /// Move the cursor left.
    PtrSub(usize),
    /// Add to the current cell, modulo 256.
    CellAdd(u8),
    /// Subtract from the current cell, modulo 256.
    CellSub(u8),
    /// Write the current cell to the output stream.
    OutByte,
    /// Read one input byte into the current cell.
    InByte,
}

/// How a block ends.
#[derive(Clone, Copy, PartialEq, Eq, Structural, Debug)]
pub enum Terminator {
    /// Continue at the named block.
    Jump(usize),
    /// If the current cell is nonzero continue at the first block, otherwise
    /// at the second.
    CondJump(usize, usize),
    /// Return from the program.
    Ret,
}

/// One basic block: straight-line operations and a terminator.
#[derive(Debug)]
pub struct IrBlock {
    pub ops: Vec<IrOp>,
    pub term: Terminator,
}

/// Mathematical model of a block.
pub struct BlockModel {
    pub ops: Seq<IrOp>,
    pub term: Terminator,
}

pub open spec fn block_view(b: IrBlock) -> BlockModel {
    BlockModel { ops: b.ops@, term: b.term }
}

pub open spec fn blocks_view(s: Seq<IrBlock>) -> Seq<BlockModel> {
    Seq::new(s.len(), |k: int| block_view(s[k]))
}

/// A block that is still being filled in.
pub open spec fn placeholder_block() -> BlockModel {
    BlockModel { ops: Seq::empty(), term: Terminator::Ret }
}

/// The straight-line operations a plain instruction lowers to.
pub open spec fn emit_plain(i: Instr) -> Seq<IrOp> {
    match i.opcode {
        OpCode::Left => seq![IrOp::PtrSub(i.amount as usize)],
        OpCode::Right => seq![IrOp::PtrAdd(i.amount as usize)],
        OpCode::Inc => seq![IrOp::CellAdd((i.amount % 256) as u8)],
        OpCode::Dec => seq![IrOp::CellSub((i.amount % 256) as u8)],
        OpCode::Print => Seq::new(i.amount, |_k: int| IrOp::OutByte),
        OpCode::Query => Seq::new(i.amount, |_k: int| IrOp::InByte),
        OpCode::Loop => Seq::empty(),
    }
}

/// The state of emission: the blocks so far, the index of the open block, and
/// the operations accumulated for the open block.
pub struct EmitState {
    pub blocks: Seq<BlockModel>,
    pub cur: int,
    pub ops: Seq<IrOp>,
}

/// Lower one instruction. A plain opcode extends the open block; a loop
/// closes it with a jump to a fresh check block, lowers its body into a fresh
/// body block that jumps back to the check, and reopens emission in a fresh
/// exit block.
pub open spec fn emit_one(i: Instr, st: EmitState) -> EmitState
    decreases i, 0int,
{
    if !(i.opcode is Loop) {
        EmitState { blocks: st.blocks, cur: st.cur, ops: st.ops + emit_plain(i) }
    } else {
        let check = st.blocks.len() as int;
        let contents = check + 1;
        let exit = check + 2;
        let blocks1 = st.blocks.update(
            st.cur,
            BlockModel { ops: st.ops, term: Terminator::Jump(check as usize) },
        ).push(
            BlockModel {
                ops: Seq::empty(),
                term: Terminator::CondJump(contents as usize, exit as usize),
            },
        ).push(placeholder_block()).push(placeholder_block());
        let st2 = emit_seq(i.body, EmitState { blocks: blocks1, cur: contents, ops: Seq::empty() });
        let blocks2 = st2.blocks.update(
            st2.cur,
            BlockModel { ops: st2.ops, term: Terminator::Jump(check as usize) },
        );
        EmitState { blocks: blocks2, cur: exit, ops: Seq::empty() }
    }
}

/// Lower a sequence of instructions, left to right.
pub open spec fn emit_seq(p: Seq<Instr>, st: EmitState) -> EmitState
    decreases p, 1int,
{
    if p.len() == 0 {
        st
    } else {
        emit_seq(p.subrange(1, p.len() as int), emit_one(p[0], st))
    }
}

/// The whole module a program lowers to: emission starts in block 0 and the
/// block left open at the end returns.
pub open spec fn lower_spec(p: Seq<Instr>) -> Seq<BlockModel> {
    let stf = emit_seq(
        p,
        EmitState { blocks: seq![placeholder_block()], cur: 0, ops: Seq::empty() },
    );
    stf.blocks.update(stf.cur, BlockModel { ops: stf.ops, term: Terminator::Ret })
}

/// Lower an instruction sequence into the open block `cur` of `blocks`,
/// with `ops` the operations accumulated for it so far; hands back the block
/// left open and its accumulated operations. Mirrors `emit_seq` exactly.
#[verifier::loop_isolation(false)]
fn emit(instrs: &Vec<Instruction>, blocks: &mut Vec<IrBlock>, cur: usize, ops: Vec<IrOp>) -> (r: (
    usize,
    Vec<IrOp>,
))
    requires
        cur < old(blocks)@.len(),
    ensures
        ({
            let stf = emit_seq(
                prog_view(instrs@),
                EmitState { blocks: blocks_view(old(blocks)@), cur: cur as int, ops: ops@ },
            );
            &&& blocks_view(final(blocks)@) == stf.blocks
            &&& r.0 as int == stf.cur
            &&& r.1@ == stf.ops
            &&& r.0 < final(blocks)@.len()
            &&& final(blocks)@.len() >= old(blocks)@.len()
        }),
    decreases instrs@,
{
    let ghost st_in = EmitState { blocks: blocks_view(blocks@), cur: cur as int, ops: ops@ };
    let ghost pv = prog_view(instrs@);
    let mut cur_id: usize = cur;
    let mut cur_ops: Vec<IrOp> = ops;
    proof {
        crate::parser::lemma_prog_view_len(instrs@);
        assert(pv.subrange(0, pv.len() as int) =~= pv);
    }
    let mut idx: usize = 0;
    while idx < instrs.len()
        invariant
            idx <= instrs@.len(),
            cur_id < blocks@.len(),
            blocks@.len() >= old(blocks)@.len(),
            emit_seq(pv, st_in) == emit_seq(
                pv.subrange(idx as int, pv.len() as int),
                (EmitState { blocks: blocks_view(blocks@), cur: cur_id as int, ops: cur_ops@ }),
            ),
        decreases instrs@.len() - idx,
    {
        let instr = &instrs[idx];
        let ghost prev = EmitState {
            blocks: blocks_view(blocks@),
            cur: cur_id as int,
            ops: cur_ops@,
        };
        let ghost tail = pv.subrange(idx as int, pv.len() as int);
        proof {
            crate::parser::lemma_prog_view_index(instrs@, idx as int);
            assert(tail[0] == pv[idx as int]);
            assert(tail.subrange(1, tail.len() as int) =~= pv.subrange(
                idx as int + 1,
                pv.len() as int,
            ));
        }
        match instr.opcode {
            OpCode::Left => {
                cur_ops.push(IrOp::PtrSub(instr.amount));
                proof {
                    assert(cur_ops@ =~= prev.ops + emit_plain(tail[0]));
                }
            },
            OpCode::Right => {
                cur_ops.push(IrOp::PtrAdd(instr.amount));
                proof {
                    assert(cur_ops@ =~= prev.ops + emit_plain(tail[0]));
                }
            },
            OpCode::Inc => {
                cur_ops.push(IrOp::CellAdd((instr.amount % 256) as u8));
                proof {
                    assert(cur_ops@ =~= prev.ops + emit_plain(tail[0]));
                }
            },
            OpCode::Dec => {
                cur_ops.push(IrOp::CellSub((instr.amount % 256) as u8));
                proof {
                    assert(cur_ops@ =~= prev.ops + emit_plain(tail[0]));
                }
            },
            OpCode::Print => {
                let a: usize = instr.amount;
                let ghost ops0 = cur_ops@;
                let mut k: usize = 0;
                while k < a
                    invariant
                        k <= a,
                        cur_ops@ == ops0 + Seq::new(k as nat, |_j: int| IrOp::OutByte),
                    decreases a - k,
                {
                    cur_ops.push(IrOp::OutByte);
                    proof {
                        assert(ops0 + Seq::new((k + 1) as nat, |_j: int| IrOp::OutByte) =~= (ops0
                            + Seq::new(k as nat, |_j: int| IrOp::OutByte)).push(IrOp::OutByte));
                    }
                    k = k + 1;
                }
                proof {
                    assert(cur_ops@ =~= prev.ops + emit_plain(tail[0]));
                }
            },
            OpCode::Query => {
                let a: usize = instr.amount;
                let ghost ops0 = cur_ops@;
                let mut k: usize = 0;
                while k < a
                    invariant
                        k <= a,
                        cur_ops@ == ops0 + Seq::new(k as nat, |_j: int| IrOp::InByte),
                    decreases a - k,
                {
                    cur_ops.push(IrOp::InByte);
                    proof {
                        assert(ops0 + Seq::new((k + 1) as nat, |_j: int| IrOp::InByte) =~= (ops0
                            + Seq::new(k as nat, |_j: int| IrOp::InByte)).push(IrOp::InByte));
                    }
                    k = k + 1;
                }
                proof {
                    assert(cur_ops@ =~= prev.ops + emit_plain(tail[0]));
                }
            },
            OpCode::Loop => {
                let check: usize = blocks.len();
                blocks.push(IrBlock { ops: Vec::new(), term: Terminator::Ret });
                blocks.push(IrBlock { ops: Vec::new(), term: Terminator::Ret });
                blocks.push(IrBlock { ops: Vec::new(), term: Terminator::Ret });
                let contents: usize = blocks.len() - 2;
                let exit: usize = blocks.len() - 1;
                proof {
                    assert(contents == check + 1 && exit == check + 2);
                }
                blocks[check] = IrBlock { ops: Vec::new(), term: Terminator::CondJump(contents, exit) };
                let closed_ops = cur_ops;
                blocks[cur_id] = IrBlock { ops: closed_ops, term: Terminator::Jump(check) };
                proof {
                    assert(blocks_view(blocks@) =~= prev.blocks.update(
                        prev.cur,
                        (BlockModel { ops: prev.ops, term: Terminator::Jump(check) }),
                    ).push(
                        (BlockModel {
                            ops: Seq::empty(),
                            term: Terminator::CondJump(contents, exit),
                        }),
                    ).push(placeholder_block()).push(placeholder_block()));
                    assert(decreases_to!(instrs@ => instrs@[idx as int].instructions@));
                }
                let r2 = emit(&instr.instructions, blocks, contents, Vec::new());
                let last_id: usize = r2.0;
                let last_ops: Vec<IrOp> = r2.1;
                blocks[last_id] = IrBlock { ops: last_ops, term: Terminator::Jump(check) };
                cur_id = exit;
                cur_ops = Vec::new();
                proof {
                    let st2 = emit_seq(
                        tail[0].body,
                        EmitState {
                            blocks: prev.blocks.update(
                                prev.cur,
                                BlockModel { ops: prev.ops, term: Terminator::Jump(check) },
                            ).push(
                                BlockModel {
                                    ops: Seq::empty(),
                                    term: Terminator::CondJump(contents, exit),
                                },
                            ).push(placeholder_block()).push(placeholder_block()),
                            cur: contents as int,
                            ops: Seq::empty(),
                        },
                    );
                    assert(tail[0].body == prog_view(instrs@[idx as int].instructions@));
                    assert(blocks_view(blocks@) =~= st2.blocks.update(
                        st2.cur,
                        (BlockModel { ops: st2.ops, term: Terminator::Jump(check) }),
                    ));
                    assert(prev.blocks.len() == check as int);
                    assert(cur_ops@ =~= Seq::<IrOp>::empty());
                }
            },
        }
        proof {
            assert(emit_one(tail[0], prev) == (EmitState {
                blocks: blocks_view(blocks@),
                cur: cur_id as int,
                ops: cur_ops@,
            }));
        }
        idx = idx + 1;
    }
    proof {
        assert(pv.subrange(idx as int, pv.len() as int).len() == 0);
    }
    (cur_id, cur_ops)
}

/// Lower a parsed program to its intermediate representation.
pub fn lower(prog: &Vec<Instruction>) -> (blocks: Vec<IrBlock>)
    ensures
        blocks_view(blocks@) == lower_spec(prog_view(prog@)),
        blocks@.len() >= 1,
{
    let mut blocks: Vec<IrBlock> = Vec::new();
    blocks.push(IrBlock { ops: Vec::new(), term: Terminator::Ret });
    proof {
        assert(blocks_view(blocks@) =~= seq![placeholder_block()]);
    }
    let r = emit(prog, &mut blocks, 0, Vec::new());
    let last_id: usize = r.0;
    let last_ops: Vec<IrOp> = r.1;
    blocks[last_id] = IrBlock { ops: last_ops, term: Terminator::Ret };
    proof {
        assert(blocks_view(blocks@) =~= lower_spec(prog_view(prog@)));
    }
    blocks
}

/// Parse a source text and lower it, or report the unmatched bracket.
pub fn compile(source: &str) -> (r: Result<Vec<IrBlock>, CompilerError>)
    ensures
        ({
            match parse_spec(source@) {
                Ok(p) => match r {
                    Ok(blocks) => blocks_view(blocks@) == lower_spec(p),
                    Err(_) => false,
                },
                Err(pe) => match r {
                    Err(CompilerError::Parse(e)) => e == pe,
                    _ => false,
                },
            }
        }),
{
    match parse(source) {
        Err(e) => Err(CompilerError::Parse(e)),
        Ok(prog) => Ok(lower(&prog)),
    }
}

/// Model of a running module: the current block, the operation index within
/// it, and the same tape, cursor and streams the interpreter has.
pub struct MState {
    pub blk: int,
    pub k: int,
    pub tape: Seq<u8>,
    pub ptr: int,
    pub inp: Seq<u8>,
    pub out: Seq<u8>,
}

/// The effect of one straight-line operation; the block and index are left to
/// the caller.
pub open spec fn ir_op_apply(op: IrOp, st: MState) -> Result<MState, Fault> {
    match op {
        IrOp::PtrAdd(n) => {
            if 0 <= st.ptr && st.ptr + n < st.tape.len() {
                Ok(MState { ptr: st.ptr + n, ..st })
            } else {
                Err(Fault::TapeOutOfBounds)
            }
        },
        IrOp::PtrSub(n) => {
            if 0 <= st.ptr - n && st.ptr - n < st.tape.len() {
                Ok(MState { ptr: st.ptr - n, ..st })
            } else {
                Err(Fault::TapeOutOfBounds)
            }
        },
        IrOp::CellAdd(d) => {
            if 0 <= st.ptr < st.tape.len() {
                Ok(MState { tape: st.tape.update(st.ptr, add_wrap(st.tape[st.ptr], d as nat)), ..st })
            } else {
                Err(Fault::TapeOutOfBounds)
            }
        },
        IrOp::CellSub(d) => {
            if 0 <= st.ptr < st.tape.len() {
                Ok(MState { tape: st.tape.update(st.ptr, sub_wrap(st.tape[st.ptr], d as nat)), ..st })
            } else {
                Err(Fault::TapeOutOfBounds)
            }
        },
        IrOp::OutByte => {
            if 0 <= st.ptr < st.tape.len() {
                Ok(MState { out: st.out.push(st.tape[st.ptr]), ..st })
            } else {
                Err(Fault::TapeOutOfBounds)
            }
        },
        IrOp::InByte => {
            if !(0 <= st.ptr < st.tape.len()) {
                Err(Fault::TapeOutOfBounds)
            } else if st.inp.len() < 1 {
                Err(Fault::InputExhausted)
            } else {
                Ok(MState { tape: st.tape.update(st.ptr, st.inp[0]), inp: st.inp.skip(1), ..st })
            }
        },
    }
}

/// Execute a module one step at a time; every step costs one unit of fuel.
pub open spec fn ir_run(blocks: Seq<BlockModel>, st: MState, fuel: nat) -> Result<MState, Fault>
    decreases fuel,
{
    if fuel == 0 {
        Err(Fault::OutOfFuel)
    } else if !(0 <= st.blk < blocks.len()) {
        Err(Fault::BadTarget)
    } else {
        let b = blocks[st.blk];
        if 0 <= st.k < b.ops.len() {
            match ir_op_apply(b.ops[st.k], st) {
                Ok(st1) => ir_run(blocks, MState { k: st.k + 1, ..st1 }, (fuel - 1) as nat),
                Err(e) => Err(e),
            }
        } else if st.k == b.ops.len() {
            match b.term {
                Terminator::Jump(t) => ir_run(
                    blocks,
                    MState { blk: t as int, k: 0, ..st },
                    (fuel - 1) as nat,
                ),
                Terminator::CondJump(nz, z) => {
                    if !(0 <= st.ptr < st.tape.len()) {
                        Err(Fault::TapeOutOfBounds)
                    } else {
                        ir_run(
                            blocks,
                            MState {
                                blk: (if st.tape[st.ptr] != 0 {
                                    nz as int
                                } else {
                                    z as int
                                }),
                                k: 0,
                                ..st
                            },
                            (fuel - 1) as nat,
                        )
                    }
                },
                Terminator::Ret => Ok(st),
            }
        } else {
            Err(Fault::BadTarget)
        }
    }
}

/// Execute a lowered module on a fresh zeroed tape of `tape_size` cells,
/// reading from `input` and returning the bytes written. Mirrors `ir_run`
/// exactly; `fuel` bounds the number of machine steps.
#[verifier::loop_isolation(false)]
pub fn run_blocks(blocks: &Vec<IrBlock>, tape_size: usize, input: &Vec<u8>, fuel: u64) -> (r:
    Result<Vec<u8>, Fault>)
    ensures
        ({
            let st0 = MState {
                blk: 0,
                k: 0,
                tape: Seq::new(tape_size as nat, |_k: int| 0u8),
                ptr: 0,
                inp: input@,
                out: Seq::empty(),
            };
            let res = ir_run(blocks_view(blocks@), st0, fuel as nat);
            match r {
                Ok(out) => match res {
                    Ok(stf) => out@ == stf.out,
                    Err(_) => false,
                },
                Err(f) => res == Err::<MState, Fault>(f),
            }
        }),
{
    let mut tape: Vec<u8> = Vec::new();
    let mut j: usize = 0;
    while j < tape_size
        invariant
            j <= tape_size,
            tape@.len() == j,
            forall|q: int| 0 <= q < j ==> tape@[q] == 0u8,
        decreases tape_size - j,
    {
        tape.push(0u8);
        j = j + 1;
    }
    let ghost st0 = MState {
        blk: 0,
        k: 0,
        tape: Seq::new(tape_size as nat, |_k: int| 0u8),
        ptr: 0,
        inp: input@,
        out: Seq::empty(),
    };
    let ghost bv = blocks_view(blocks@);
    proof {
        assert(tape@ =~= Seq::new(tape_size as nat, |_k: int| 0u8));
        assert(input@.skip(0) =~= input@);
    }
    let mut ptr: usize = 0;
    let mut pos: usize = 0;
    let mut out: Vec<u8> = Vec::new();
    let mut blk: usize = 0;
    let mut k: usize = 0;
    let mut g: u64 = fuel;
    loop
        invariant
            pos <= input@.len(),
            ir_run(bv, st0, fuel as nat) == ir_run(
                bv,
                (MState {
                    blk: blk as int,
                    k: k as int,
                    tape: tape@,
                    ptr: ptr as int,
                    inp: input@.skip(pos as int),
                    out: out@,
                }),
                g as nat,
            ),
        decreases g,
    {
        let ghost prev = MState {
            blk: blk as int,
            k: k as int,
            tape: tape@,
            ptr: ptr as int,
            inp: input@.skip(pos as int),
            out: out@,
        };
        if g == 0 {
            return Err(Fault::OutOfFuel);
        }
        if blk >= blocks.len() {
            return Err(Fault::BadTarget);
        }
        let b = &blocks[blk];
        if k < b.ops.len() {
            let op: IrOp = b.ops[k];
            proof {
                assert(bv[blk as int].ops[k as int] == op);
            }
            match op {
                IrOp::PtrAdd(n) => {
                    if n < tape.len() && ptr < tape.len() - n {
                        ptr = ptr + n;
                    } else {
                        return Err(Fault::TapeOutOfBounds);
                    }
                },
                IrOp::PtrSub(n) => {
                    if n <= ptr && ptr - n < tape.len() {
                        ptr = ptr - n;
                    } else {
                        return Err(Fault::TapeOutOfBounds);
                    }
                },
                IrOp::CellAdd(d) => {
                    if ptr < tape.len() {
                        let c: u8 = tape[ptr];
                        let nv: usize = (c as usize + d as usize) % 256;
                        tape[ptr] = nv as u8;
                        proof {
                            assert(nv as u8 == add_wrap(c, d as nat));
                        }
                    } else {
                        return Err(Fault::TapeOutOfBounds);
                    }
                },
                IrOp::CellSub(d) => {
                    if ptr < tape.len() {
                        let c: u8 = tape[ptr];
                        let nv: usize = (c as usize + 256 - d as usize) % 256;
                        tape[ptr] = nv as u8;
                        proof {
                            assert(nv as u8 == sub_wrap(c, d as nat));
                        }
                    } else {
                        return Err(Fault::TapeOutOfBounds);
                    }
                },
                IrOp::OutByte => {
                    if ptr < tape.len() {
                        let c: u8 = tape[ptr];
                        out.push(c);
                    } else {
                        return Err(Fault::TapeOutOfBounds);
                    }
                },
                IrOp::InByte => {
                    if ptr >= tape.len() {
                        return Err(Fault::TapeOutOfBounds);
                    }
                    if pos >= input.len() {
                        proof {
                            assert(prev.inp.len() < 1);
                        }
                        return Err(Fault::InputExhausted);
                    }
                    let byt: u8 = input[pos];
                    tape[ptr] = byt;
                    pos = pos + 1;
                    proof {
                        assert(byt == prev.inp[0]);
                        assert(input@.skip(pos as int) =~= prev.inp.skip(1));
                    }
                },
            }
            k = k + 1;
            g = g - 1;
        } else if k == b.ops.len() {
            match b.term {
                Terminator::Jump(t) => {
                    blk = t;
                    k = 0;
                    g = g - 1;
                },
                Terminator::CondJump(nz, z) => {
                    if ptr >= tape.len() {
                        return Err(Fault::TapeOutOfBounds);
                    }
                    let c: u8 = tape[ptr];
                    if c != 0 {
                        blk = nz;
                    } else {
                        blk = z;
                    }
                    k = 0;
                    g = g - 1;
                },
                Terminator::Ret => {
                    return Ok(out);
                },
            }
        } else {
            return Err(Fault::BadTarget);
        }
    }
}

/// No loop node anywhere in the sequence.
pub open spec fn loop_free(p: Seq<Instr>) -> bool
    decreases p,
{
    if p.len() == 0 {
        true
    } else {
        !(p[0].opcode is Loop) && loop_free(p.subrange(1, p.len() as int))
    }
}

/// Every plain node carries a machine-representable count of at least 1, as
/// every parsed tree does.
pub open spec fn plain_sized(p: Seq<Instr>) -> bool
    decreases p,
{
    if p.len() == 0 {
        true
    } else {
        (p[0].opcode is Loop || (1 <= p[0].amount && p[0].amount <= usize::MAX)) && plain_sized(
            p.subrange(1, p.len() as int),
        )
    }
}

/// The straight-line operations of a loop-free program.
pub open spec fn flat_ops(p: Seq<Instr>) -> Seq<IrOp>
    decreases p,
{
    if p.len() == 0 {
        Seq::empty()
    } else {
        emit_plain(p[0]) + flat_ops(p.subrange(1, p.len() as int))
    }
}

proof fn lemma_emit_seq_loop_free(p: Seq<Instr>, st: EmitState)
    requires
        loop_free(p),
    ensures
        emit_seq(p, st) == (EmitState { blocks: st.blocks, cur: st.cur, ops: st.ops + flat_ops(p) }),
    decreases p,
{
    if p.len() == 0 {
        assert(st.ops + flat_ops(p) =~= st.ops);
    } else {
        let rest = p.subrange(1, p.len() as int);
        lemma_emit_seq_loop_free(rest, emit_one(p[0], st));
        assert((st.ops + emit_plain(p[0])) + flat_ops(rest) =~= st.ops + flat_ops(p));
    }
}

/// Lowering a loop-free program yields a single returning block holding its
/// straight-line operations.
pub proof fn lemma_lower_loop_free(p: Seq<Instr>)
    requires
        loop_free(p),
    ensures
        lower_spec(p) == seq![BlockModel { ops: flat_ops(p), term: Terminator::Ret }],
{
    lemma_emit_seq_loop_free(
        p,
        EmitState { blocks: seq![placeholder_block()], cur: 0, ops: Seq::empty() },
    );
    assert(Seq::<IrOp>::empty() + flat_ops(p) =~= flat_ops(p));
    assert(seq![placeholder_block()].update(
        0,
        BlockModel { ops: flat_ops(p), term: Terminator::Ret },
    ) =~= seq![BlockModel { ops: flat_ops(p), term: Terminator::Ret }]);
}

/// Straight-line operations applied in order.
pub open spec fn ir_ops_fold(ops: Seq<IrOp>, st: MState) -> Result<MState, Fault>
    decreases ops,
{
    if ops.len() == 0 {
        Ok(st)
    } else {
        match ir_op_apply(ops[0], st) {
            Ok(st1) => ir_ops_fold(ops.subrange(1, ops.len() as int), st1),
            Err(e) => Err(e),
        }
    }
}

proof fn lemma_fold_app(a: Seq<IrOp>, b: Seq<IrOp>, st: MState)
    ensures
        ir_ops_fold(a + b, st) == (match ir_ops_fold(a, st) {
            Ok(s1) => ir_ops_fold(b, s1),
            Err(e) => Err(e),
        }),
    decreases a,
{
    if a.len() == 0 {
        assert(a + b =~= b);
    } else {
        assert((a + b)[0] == a[0]);
        assert((a + b).subrange(1, (a + b).len() as int) =~= a.subrange(1, a.len() as int) + b);
        match ir_op_apply(a[0], st) {
            Ok(s1) => {
                lemma_fold_app(a.subrange(1, a.len() as int), b, s1);
            },
            Err(_) => {},
        }
    }
}

proof fn lemma_fold_out(n: nat, st: MState)
    requires
        0 <= st.ptr < st.tape.len(),
    ensures
        ir_ops_fold(Seq::new(n, |_j: int| IrOp::OutByte), st) == Ok::<MState, Fault>(
            (MState { out: st.out + Seq::new(n, |_j: int| st.tape[st.ptr]), ..st }),
        ),
    decreases n,
{
    let ops = Seq::new(n, |_j: int| IrOp::OutByte);
    if n == 0 {
        assert(st.out + Seq::new(n, |_j: int| st.tape[st.ptr]) =~= st.out);
        assert((MState { out: st.out + Seq::new(n, |_j: int| st.tape[st.ptr]), ..st }) == st);
    } else {
        let st1 = MState { out: st.out.push(st.tape[st.ptr]), ..st };
        assert(ir_op_apply(IrOp::OutByte, st) == Ok::<MState, Fault>(st1));
        assert(ops.subrange(1, ops.len() as int) =~= Seq::new((n - 1) as nat, |_j: int| IrOp::OutByte));
        lemma_fold_out((n - 1) as nat, st1);
        assert(st1.out + Seq::new((n - 1) as nat, |_j: int| st1.tape[st1.ptr]) =~= st.out + Seq::new(
            n,
            |_j: int| st.tape[st.ptr],
        ));
    }
}

proof fn lemma_fold_in(n: nat, st: MState)
    requires
        0 <= st.ptr < st.tape.len(),
        n >= 1,
    ensures
        st.inp.len() >= n ==> ir_ops_fold(Seq::new(n, |_j: int| IrOp::InByte), st) == Ok::<
            MState,
            Fault,
        >(
            (MState {
                tape: st.tape.update(st.ptr, st.inp[n - 1]),
                inp: st.inp.skip(n as int),
                ..st
            }),
        ),
        st.inp.len() < n ==> ir_ops_fold(Seq::new(n, |_j: int| IrOp::InByte), st) == Err::<
            MState,
            Fault,
        >(Fault::InputExhausted),
    decreases n,
{
    let ops = Seq::new(n, |_j: int| IrOp::InByte);
    assert(ops.subrange(1, ops.len() as int) =~= Seq::new((n - 1) as nat, |_j: int| IrOp::InByte));
    if st.inp.len() == 0 {
        assert(ir_op_apply(IrOp::InByte, st) == Err::<MState, Fault>(Fault::InputExhausted));
    } else {
        let st1 = MState { tape: st.tape.update(st.ptr, st.inp[0]), inp: st.inp.skip(1), ..st };
        assert(ir_op_apply(IrOp::InByte, st) == Ok::<MState, Fault>(st1));
        if n == 1 {
            assert(st.inp.len() >= n);
        } else {
            lemma_fold_in((n - 1) as nat, st1);
            if st.inp.len() >= n {
                assert(st1.inp.len() >= n - 1);
                assert(st1.inp[n - 2] == st.inp[n - 1]);
                assert(st1.tape.update(st1.ptr, st1.inp[n - 2]) =~= st.tape.update(
                    st.ptr,
                    st.inp[n - 1],
                ));
                assert(st1.inp.skip(n - 1) =~= st.inp.skip(n as int));
            } else {
                assert(st1.inp.len() < n - 1);
            }
        }
    }
}

/// The data a machine state shares with an interpreter state.
pub open spec fn data_st(m: MState) -> crate::runner::State {
    crate::runner::State { tape: m.tape, ptr: m.ptr, inp: m.inp, out: m.out }
}

proof fn lemma_fold_single(op: IrOp, m: MState)
    ensures
        ({
            match ir_op_apply(op, m) {
                Ok(s1) => ir_ops_fold(seq![op], m) == Ok::<MState, Fault>(s1),
                Err(f) => ir_ops_fold(seq![op], m) == Err::<MState, Fault>(f),
            }
        }),
{
    let ops = seq![op];
    assert(ops[0] == op);
    assert(ops.subrange(1, 1) =~= Seq::<IrOp>::empty());
    match ir_op_apply(op, m) {
        Ok(s1) => {
            assert(ir_ops_fold(ops.subrange(1, 1), s1) == Ok::<MState, Fault>(s1));
        },
        Err(_) => {},
    }
}

/// Folding straight-line operations neither reads nor moves the block and
/// operation indices, and its outcome depends on the data fields alone.
proof fn lemma_fold_data(ops: Seq<IrOp>, a: MState, b: MState)
    requires
        a.tape == b.tape,
        a.ptr == b.ptr,
        a.inp == b.inp,
        a.out == b.out,
    ensures
        ({
            match ir_ops_fold(ops, a) {
                Ok(ra) => match ir_ops_fold(ops, b) {
                    Ok(rb) => ra == (MState {
                        blk: a.blk,
                        k: a.k,
                        tape: rb.tape,
                        ptr: rb.ptr,
                        inp: rb.inp,
                        out: rb.out,
                    }) && rb.blk == b.blk && rb.k == b.k,
                    Err(_) => false,
                },
                Err(f) => ir_ops_fold(ops, b) == Err::<MState, Fault>(f),
            }
        }),
    decreases ops,
{
    if ops.len() > 0 {
        let rest = ops.subrange(1, ops.len() as int);
        match ir_op_apply(ops[0], a) {
            Ok(a1) => {
                match ir_op_apply(ops[0], b) {
                    Ok(b1) => {
                        lemma_fold_data(rest, a1, b1);
                    },
                    Err(_) => {
                        assert(false);
                    },
                }
            },
            Err(_) => {},
        }
    }
}

proof fn lemma_fold_instr(i: Instr, m: MState, fuel: nat)
    requires
        !(i.opcode is Loop),
        1 <= i.amount <= usize::MAX,
    ensures
        ({
            match crate::runner::run_instr(i, data_st(m), fuel) {
                Ok(stf) => ir_ops_fold(emit_plain(i), m) == Ok::<MState, Fault>(
                    (MState {
                        blk: m.blk,
                        k: m.k,
                        tape: stf.tape,
                        ptr: stf.ptr,
                        inp: stf.inp,
                        out: stf.out,
                    }),
                ),
                Err(f) => ir_ops_fold(emit_plain(i), m) == Err::<MState, Fault>(f),
            }
        }),
{
    let st = data_st(m);
    match i.opcode {
        OpCode::Left => {
            let n: usize = i.amount as usize;
            assert(n as int == i.amount as int);
            lemma_fold_single(IrOp::PtrSub(n), m);
        },
        OpCode::Right => {
            let n: usize = i.amount as usize;
            assert(n as int == i.amount as int);
            lemma_fold_single(IrOp::PtrAdd(n), m);
        },
        OpCode::Inc => {
            let d: u8 = (i.amount % 256) as u8;
            assert(d as nat == i.amount % 256);
            assert((i.amount % 256) % 256 == i.amount % 256);
            assert(crate::runner::add_wrap(m.tape[m.ptr], d as nat) == crate::runner::add_wrap(
                m.tape[m.ptr],
                i.amount,
            ));
            lemma_fold_single(IrOp::CellAdd(d), m);
        },
        OpCode::Dec => {
            let d: u8 = (i.amount % 256) as u8;
            assert(d as nat == i.amount % 256);
            assert((i.amount % 256) % 256 == i.amount % 256);
            assert(crate::runner::sub_wrap(m.tape[m.ptr], d as nat) == crate::runner::sub_wrap(
                m.tape[m.ptr],
                i.amount,
            ));
            lemma_fold_single(IrOp::CellSub(d), m);
        },
        OpCode::Print => {
            if crate::runner::valid_ptr(st) {
                lemma_fold_out(i.amount, m);
                assert(m.out + Seq::new(i.amount, |_j: int| m.tape[m.ptr]) =~= st.out + Seq::new(
                    i.amount,
                    |_k: int| st.tape[st.ptr],
                ));
            } else {
                assert(emit_plain(i)[0] == IrOp::OutByte);
                assert(ir_op_apply(emit_plain(i)[0], m) == Err::<MState, Fault>(
                    Fault::TapeOutOfBounds,
                ));
            }
        },
        OpCode::Query => {
            if crate::runner::valid_ptr(st) {
                lemma_fold_in(i.amount, m);
            } else {
                assert(emit_plain(i)[0] == IrOp::InByte);
                assert(ir_op_apply(emit_plain(i)[0], m) == Err::<MState, Fault>(
                    Fault::TapeOutOfBounds,
                ));
            }
        },
        OpCode::Loop => {},
    }
}

proof fn lemma_fold_prog(p: Seq<Instr>, m: MState, fuel: nat)
    requires
        loop_free(p),
        plain_sized(p),
    ensures
        ({
            match crate::runner::run_prog(p, data_st(m), fuel) {
                Ok(stf) => ir_ops_fold(flat_ops(p), m) == Ok::<MState, Fault>(
                    (MState {
                        blk: m.blk,
                        k: m.k,
                        tape: stf.tape,
                        ptr: stf.ptr,
                        inp: stf.inp,
                        out: stf.out,
                    }),
                ),
                Err(f) => ir_ops_fold(flat_ops(p), m) == Err::<MState, Fault>(f),
            }
        }),
    decreases p,
{
    if p.len() == 0 {
        assert(flat_ops(p) =~= Seq::<IrOp>::empty());
        assert((MState {
            blk: m.blk,
            k: m.k,
            tape: m.tape,
            ptr: m.ptr,
            inp: m.inp,
            out: m.out,
        }) == m);
    } else {
        let rest = p.subrange(1, p.len() as int);
        lemma_fold_instr(p[0], m, fuel);
        lemma_fold_app(emit_plain(p[0]), flat_ops(rest), m);
        match crate::runner::run_instr(p[0], data_st(m), fuel) {
            Ok(st1) => {
                let m1 = MState {
                    blk: m.blk,
                    k: m.k,
                    tape: st1.tape,
                    ptr: st1.ptr,
                    inp: st1.inp,
                    out: st1.out,
                };
                assert(data_st(m1) == st1);
                lemma_fold_prog(rest, m1, fuel);
            },
            Err(_) => {},
        }
    }
}

proof fn lemma_ir_run_single(ops: Seq<IrOp>, st: MState, fuel: nat)
    requires
        st.blk == 0,
        0 <= st.k <= ops.len(),
        fuel >= ops.len() - st.k + 1,
    ensures
        ({
            let blocks = seq![BlockModel { ops, term: Terminator::Ret }];
            match ir_ops_fold(ops.subrange(st.k, ops.len() as int), st) {
                Ok(st1) => ir_run(blocks, st, fuel) == Ok::<MState, Fault>(
                    (MState { blk: 0, k: ops.len() as int, ..st1 }),
                ),
                Err(f) => ir_run(blocks, st, fuel) == Err::<MState, Fault>(f),
            }
        }),
    decreases ops.len() - st.k,
{
    let blocks = seq![BlockModel { ops, term: Terminator::Ret }];
    assert(blocks[0] == (BlockModel { ops, term: Terminator::Ret }));
    let rest = ops.subrange(st.k, ops.len() as int);
    if st.k == ops.len() {
        assert(rest.len() == 0);
        assert((MState { blk: 0, k: ops.len() as int, ..st }) == st);
    } else {
        assert(rest[0] == ops[st.k]);
        assert(rest.subrange(1, rest.len() as int) =~= ops.subrange(st.k + 1, ops.len() as int));
        match ir_op_apply(ops[st.k], st) {
            Ok(st1) => {
                let stn = MState { k: st.k + 1, ..st1 };
                assert(st1.blk == st.blk && st1.k == st.k);
                lemma_ir_run_single(ops, stn, (fuel - 1) as nat);
                lemma_fold_data(ops.subrange(st.k + 1, ops.len() as int), st1, stn);
            },
            Err(_) => {},
        }
    }
}

/// Lowered code agrees with the interpreter on every loop-free program: run
/// from the same tape, cursor and input, the module writes exactly the bytes
/// the tree-walking run writes and leaves the same tape and cursor, and it
/// faults exactly when and how the tree-walking run faults. (`fuel` does not
/// matter on the interpreter side: a loop-free run consumes none.)
pub proof fn lemma_loop_free_equivalence(
    p: Seq<Instr>,
    tape: Seq<u8>,
    ptr: int,
    inp: Seq<u8>,
    fuel: nat,
)
    requires
        loop_free(p),
        plain_sized(p),
    ensures
        ({
            let st0 = crate::runner::State { tape, ptr, inp, out: Seq::empty() };
            let m0 = MState { blk: 0, k: 0, tape, ptr, inp, out: Seq::empty() };
            let ir_fuel = flat_ops(p).len() + 1;
            match crate::runner::run_prog(p, st0, fuel) {
                Ok(stf) => match ir_run(lower_spec(p), m0, ir_fuel) {
                    Ok(mf) => mf.out == stf.out && mf.tape == stf.tape && mf.ptr == stf.ptr,
                    Err(_) => false,
                },
                Err(f) => ir_run(lower_spec(p), m0, ir_fuel) == Err::<MState, Fault>(f),
            }
        }),
{
    let st0 = crate::runner::State { tape, ptr, inp, out: Seq::empty() };
    let m0 = MState { blk: 0, k: 0, tape, ptr, inp, out: Seq::empty() };
    let ops = flat_ops(p);
    lemma_lower_loop_free(p);
    assert(data_st(m0) == st0);
    lemma_fold_prog(p, m0, fuel);
    assert(ops.subrange(0, ops.len() as int) =~= ops);
    lemma_ir_run_single(ops, m0, ops.len() + 1);
}

} // verus!
