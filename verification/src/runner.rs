//! Tree-walking interpreter over a fixed-size byte tape.
//!
//! The runtime state is a tape of single-byte cells, all zero at first, and a
//! cursor starting at cell 0. Cell arithmetic wraps modulo 256. The input and
//! output streams are explicit byte sequences: the caller supplies the bytes
//! the program may read and receives the bytes it printed. Moving the cursor
//! out of the tape, reading past the supplied input, and exhausting the
//! loop-iteration budget are reported as faults; a run that faults promises
//! nothing of the state it leaves behind except the tape's length.

use vstd::prelude::*;

use crate::parser::{parse, instr_view, parse_spec, prog_view, Instr, Instruction, OpCode, ParseError};

verus! {

/// Why a run stopped without completing.
#[derive(Clone, Copy, PartialEq, Eq, Structural, Debug)]
pub enum Fault {
    /// The cursor left the tape.
    TapeOutOfBounds,
    /// A read instruction found no more input.
    InputExhausted,
    /// The loop-iteration budget ran out.
    OutOfFuel,
    /// A branch named a block the module does not have (never produced by the
    /// verified lowering).
    BadTarget,
}

/// Why an evaluation returned no output.
#[derive(Clone, Copy, PartialEq, Eq, Structural, Debug)]
pub enum EvalError {
    Parse(ParseError),
    Runtime(Fault),
}

/// Mathematical model of a running program: the tape, the cursor, the input
/// not yet read, and the output written so far.
pub struct State {
    pub tape: Seq<u8>,
    pub ptr: int,
    pub inp: Seq<u8>,
    pub out: Seq<u8>,
}

pub open spec fn valid_ptr(st: State) -> bool {
    0 <= st.ptr < st.tape.len()
}

/// A cell after adding `n`, modulo 256.
pub open spec fn add_wrap(c: u8, n: nat) -> u8 {
    (((c as nat) + n % 256) % 256) as u8
}

/// A cell after subtracting `n`, modulo 256.
pub open spec fn sub_wrap(c: u8, n: nat) -> u8 {
    (((c as nat) + 256 - n % 256) % 256) as u8
}

/// The effect of one instruction. `fuel` bounds loop iterations; every other
/// instruction ignores it.
pub open spec fn run_instr(i: Instr, st: State, fuel: nat) -> Result<State, Fault>
    decreases fuel, i, 1int,
{
    match i.opcode {
        OpCode::Left => {
            if 0 <= st.ptr - i.amount && st.ptr - i.amount < st.tape.len() {
                Ok(State { tape: st.tape, ptr: st.ptr - i.amount, inp: st.inp, out: st.out })
            } else {
                Err(Fault::TapeOutOfBounds)
            }
        },
        OpCode::Right => {
            if 0 <= st.ptr && st.ptr + i.amount < st.tape.len() {
                Ok(State { tape: st.tape, ptr: st.ptr + i.amount, inp: st.inp, out: st.out })
            } else {
                Err(Fault::TapeOutOfBounds)
            }
        },
        OpCode::Inc => {
            if valid_ptr(st) {
                Ok(
                    State {
                        tape: st.tape.update(st.ptr, add_wrap(st.tape[st.ptr], i.amount)),
                        ptr: st.ptr,
                        inp: st.inp,
                        out: st.out,
                    },
                )
            } else {
                Err(Fault::TapeOutOfBounds)
            }
        },
        OpCode::Dec => {
            if valid_ptr(st) {
                Ok(
                    State {
                        tape: st.tape.update(st.ptr, sub_wrap(st.tape[st.ptr], i.amount)),
                        ptr: st.ptr,
                        inp: st.inp,
                        out: st.out,
                    },
                )
            } else {
                Err(Fault::TapeOutOfBounds)
            }
        },
        OpCode::Print => {
            if valid_ptr(st) {
                Ok(
                    State {
                        tape: st.tape,
                        ptr: st.ptr,
                        inp: st.inp,
                        out: st.out + Seq::new(i.amount, |_k: int| st.tape[st.ptr]),
                    },
                )
            } else {
                Err(Fault::TapeOutOfBounds)
            }
        },
        OpCode::Query => {
            if !valid_ptr(st) {
                Err(Fault::TapeOutOfBounds)
            } else if st.inp.len() < i.amount {
                Err(Fault::InputExhausted)
            } else if i.amount == 0 {
                Ok(st)
            } else {
                Ok(
                    State {
                        tape: st.tape.update(st.ptr, st.inp[i.amount - 1]),
                        ptr: st.ptr,
                        inp: st.inp.skip(i.amount as int),
                        out: st.out,
                    },
                )
            }
        },
        OpCode::Loop => run_loop(i, st, fuel),
    }
}

/// A loop: while the current cell is nonzero, run the body. Each iteration
/// costs one unit of fuel; the body runs on the remaining budget.
pub open spec fn run_loop(i: Instr, st: State, fuel: nat) -> Result<State, Fault>
    decreases fuel, i, 0int,
{
    if !valid_ptr(st) {
        Err(Fault::TapeOutOfBounds)
    } else if st.tape[st.ptr] == 0 {
        Ok(st)
    } else if fuel == 0 {
        Err(Fault::OutOfFuel)
    } else {
        match run_prog(i.body, st, (fuel - 1) as nat) {
            Ok(st1) => run_loop(i, st1, (fuel - 1) as nat),
            Err(e) => Err(e),
        }
    }
}

/// A sequence of instructions, left to right.
pub open spec fn run_prog(p: Seq<Instr>, st: State, fuel: nat) -> Result<State, Fault>
    decreases fuel, p, 2int,
{
    if p.len() == 0 {
        Ok(st)
    } else {
        match run_instr(p[0], st, fuel) {
            Ok(st1) => run_prog(p.subrange(1, p.len() as int), st1, fuel),
            Err(e) => Err(e),
        }
    }
}

/// Running a program is a function of the program, the starting state and the
/// budget alone: equal inputs give equal results, in particular equal output
/// streams.
pub proof fn lemma_run_deterministic(
    p1: Seq<Instr>,
    p2: Seq<Instr>,
    st1: State,
    st2: State,
    fuel1: nat,
    fuel2: nat,
)
    requires
        p1 == p2,
        st1 == st2,
        fuel1 == fuel2,
    ensures
        run_prog(p1, st1, fuel1) == run_prog(p2, st2, fuel2),
{
}

/// Incrementing a cell a multiple of 256 times returns it to its original
/// value: the whole state is unchanged.
pub proof fn lemma_increment_wraps(i: Instr, st: State, fuel: nat)
    requires
        i.opcode is Inc,
        i.amount % 256 == 0,
        valid_ptr(st),
    ensures
        run_instr(i, st, fuel) == Ok::<State, Fault>(st),
{
    assert(add_wrap(st.tape[st.ptr], i.amount) == st.tape[st.ptr]);
    assert(st.tape.update(st.ptr, st.tape[st.ptr]) =~= st.tape);
}

/// A loop whose body is a single step-one decrement clears the current cell
/// and terminates, given a budget of at least the cell's starting value: the
/// tape keeps every other cell, and the cursor and the streams are untouched.
pub proof fn lemma_clearing_loop(i: Instr, st: State, fuel: nat)
    requires
        i.opcode is Loop,
        i.body.len() == 1,
        i.body[0].opcode is Dec,
        i.body[0].amount == 1,
        valid_ptr(st),
        fuel >= st.tape[st.ptr],
    ensures
        run_instr(i, st, fuel) == Ok::<State, Fault>(
            (State { tape: st.tape.update(st.ptr, 0u8), ptr: st.ptr, inp: st.inp, out: st.out }),
        ),
    decreases st.tape[st.ptr],
{
    let c = st.tape[st.ptr];
    if c == 0 {
        assert(st.tape.update(st.ptr, 0u8) =~= st.tape);
    } else {
        let st1 = State {
            tape: st.tape.update(st.ptr, sub_wrap(c, 1)),
            ptr: st.ptr,
            inp: st.inp,
            out: st.out,
        };
        assert(sub_wrap(c, 1) == c - 1);
        assert(run_instr(i.body[0], st, (fuel - 1) as nat) == Ok::<State, Fault>(st1));
        assert(i.body.subrange(1, 1).len() == 0);
        assert(run_prog(i.body.subrange(1, 1), st1, (fuel - 1) as nat) == Ok::<State, Fault>(st1));
        assert(run_prog(i.body, st, (fuel - 1) as nat) == Ok::<State, Fault>(st1));
        lemma_clearing_loop(i, st1, (fuel - 1) as nat);
        assert(st1.tape.update(st.ptr, 0u8) =~= st.tape.update(st.ptr, 0u8));
    }
}

/// The interpreter: an owned tape and cursor, reused across evaluations.
pub struct Environment {
    pub tape: Vec<u8>,
    pub ptr: usize,
}

impl Environment {
    /// A fresh tape of `tape_size` zeroed cells with the cursor on cell 0.
    pub fn new(tape_size: usize) -> (r: Environment)
        ensures
            r.tape@.len() == tape_size,
            forall|k: int| 0 <= k < tape_size ==> r.tape@[k] == 0u8,
            r.ptr == 0,
    {
        let mut tape: Vec<u8> = Vec::new();
        let mut j: usize = 0;
        while j < tape_size
            invariant
                j <= tape_size,
                tape@.len() == j,
                forall|k: int| 0 <= k < j ==> tape@[k] == 0u8,
            decreases tape_size - j,
        {
            tape.push(0u8);
            j = j + 1;
        }
        Environment { tape, ptr: 0 }
    }

    /// Where the cursor stands.
    pub fn cursor(&self) -> (p: usize)
        ensures
            p == self.ptr,
    {
        self.ptr
    }

    /// The cell at index `k`, if the tape has one.
    pub fn cell_at(&self, k: usize) -> (r: Option<u8>)
        ensures
            match r {
                Some(b) => k < self.tape@.len() && b == self.tape@[k as int],
                None => k >= self.tape@.len(),
            },
    {
        if k < self.tape.len() {
            Some(self.tape[k])
        } else {
            None
        }
    }

    /// Execute an instruction sequence against the tape, reading from
    /// `inp[*pos..]` and appending printed bytes to `out`. Mirrors `run_prog`
    /// exactly.
    #[verifier::loop_isolation(false)]
    fn execute(
        &mut self,
        instrs: &Vec<Instruction>,
        inp: &Vec<u8>,
        pos: &mut usize,
        out: &mut Vec<u8>,
        fuel: u64,
    ) -> (r: Result<(), Fault>)
        requires
            *old(pos) <= inp@.len(),
        ensures
            final(self).tape@.len() == old(self).tape@.len(),
            *final(pos) <= inp@.len(),
            ({
                let st0 = State {
                    tape: old(self).tape@,
                    ptr: old(self).ptr as int,
                    inp: inp@.skip(*old(pos) as int),
                    out: old(out)@,
                };
                let res = run_prog(prog_view(instrs@), st0, fuel as nat);
                match r {
                    Ok(_) => res == Ok::<State, Fault>(
                        (State {
                            tape: final(self).tape@,
                            ptr: final(self).ptr as int,
                            inp: inp@.skip(*final(pos) as int),
                            out: final(out)@,
                        }),
                    ),
                    Err(f) => res == Err::<State, Fault>(f),
                }
            }),
        decreases fuel,
    {
        let ghost st0 = State {
            tape: self.tape@,
            ptr: self.ptr as int,
            inp: inp@.skip(*pos as int),
            out: out@,
        };
        let ghost pv = prog_view(instrs@);
        proof {
            crate::parser::lemma_prog_view_len(instrs@);
            assert(pv.subrange(0, pv.len() as int) =~= pv);
        }
        let mut idx: usize = 0;
        while idx < instrs.len()
            invariant
                idx <= instrs@.len(),
                *pos <= inp@.len(),
                self.tape@.len() == old(self).tape@.len(),
                run_prog(pv, st0, fuel as nat) == run_prog(
                    pv.subrange(idx as int, pv.len() as int),
                    (State {
                        tape: self.tape@,
                        ptr: self.ptr as int,
                        inp: inp@.skip(*pos as int),
                        out: out@,
                    }),
                    fuel as nat,
                ),
            decreases instrs@.len() - idx,
        {
            let instr = &instrs[idx];
            let ghost prev = State {
                tape: self.tape@,
                ptr: self.ptr as int,
                inp: inp@.skip(*pos as int),
                out: out@,
            };
            let ghost tail = pv.subrange(idx as int, pv.len() as int);
            proof {
                crate::parser::lemma_prog_view_index(instrs@, idx as int);
                assert(tail[0] == pv[idx as int]);
                assert(tail.subrange(1, tail.len() as int) =~= pv.subrange(
                    idx as int + 1,
                    pv.len() as int,
                ));
            }
            match instr.opcode {
                OpCode::Left => {
                    let a: usize = instr.amount;
                    if a <= self.ptr && self.ptr - a < self.tape.len() {
                        self.ptr = self.ptr - a;
                    } else {
                        return Err(Fault::TapeOutOfBounds);
                    }
                },
                OpCode::Right => {
                    let a: usize = instr.amount;
                    if a < self.tape.len() && self.ptr < self.tape.len() - a {
                        self.ptr = self.ptr + a;
                    } else {
                        return Err(Fault::TapeOutOfBounds);
                    }
                },
                OpCode::Inc => {
                    if self.ptr < self.tape.len() {
                        let c: u8 = self.tape[self.ptr];
                        let a: usize = instr.amount % 256;
                        let nv: usize = (c as usize + a) % 256;
                        self.tape[self.ptr] = nv as u8;
                        proof {
                            assert(nv as u8 == add_wrap(c, instr.amount as nat));
                        }
                    } else {
                        return Err(Fault::TapeOutOfBounds);
                    }
                },
                OpCode::Dec => {
                    if self.ptr < self.tape.len() {
                        let c: u8 = self.tape[self.ptr];
                        let a: usize = instr.amount % 256;
                        let nv: usize = (c as usize + 256 - a) % 256;
                        self.tape[self.ptr] = nv as u8;
                        proof {
                            assert(nv as u8 == sub_wrap(c, instr.amount as nat));
                        }
                    } else {
                        return Err(Fault::TapeOutOfBounds);
                    }
                },
                OpCode::Print => {
                    if self.ptr < self.tape.len() {
                        let cb: u8 = self.tape[self.ptr];
                        let a: usize = instr.amount;
                        let ghost out0 = out@;
                        let mut k: usize = 0;
                        while k < a
                            invariant
                                k <= a,
                                out@ == out0 + Seq::new(k as nat, |_j: int| cb),
                            decreases a - k,
                        {
                            out.push(cb);
                            proof {
                                assert(out0 + Seq::new((k + 1) as nat, |_j: int| cb) =~= (out0
                                    + Seq::new(k as nat, |_j: int| cb)).push(cb));
                            }
                            k = k + 1;
                        }
                        proof {
                            assert(Seq::new(a as nat, |_j: int| cb) =~= Seq::new(
                                instr_view(instrs@[idx as int]).amount,
                                |_k: int| prev.tape[prev.ptr],
                            ));
                        }
                    } else {
                        return Err(Fault::TapeOutOfBounds);
                    }
                },
                OpCode::Query => {
                    if self.ptr >= self.tape.len() {
                        return Err(Fault::TapeOutOfBounds);
                    }
                    let a: usize = instr.amount;
                    if inp.len() - *pos < a {
                        proof {
                            assert(prev.inp.len() < a);
                        }
                        return Err(Fault::InputExhausted);
                    }
                    if a > 0 {
                        let b: u8 = inp[*pos + (a - 1)];
                        self.tape[self.ptr] = b;
                        *pos = *pos + a;
                        proof {
                            assert(b == prev.inp[a - 1]);
                            assert(inp@.skip(*pos as int) =~= prev.inp.skip(a as int));
                        }
                    }
                },
                OpCode::Loop => {
                    let mut g: u64 = fuel;
                    let mut done = false;
                    while !done
                        invariant
                            *pos <= inp@.len(),
                            self.tape@.len() == old(self).tape@.len(),
                            g <= fuel,
                            !done ==> run_loop(tail[0], prev, fuel as nat) == run_loop(
                                tail[0],
                                (State {
                                    tape: self.tape@,
                                    ptr: self.ptr as int,
                                    inp: inp@.skip(*pos as int),
                                    out: out@,
                                }),
                                g as nat,
                            ),
                            done ==> run_loop(tail[0], prev, fuel as nat) == Ok::<State, Fault>(
                                (State {
                                    tape: self.tape@,
                                    ptr: self.ptr as int,
                                    inp: inp@.skip(*pos as int),
                                    out: out@,
                                }),
                            ),
                        decreases (if done {
                            0int
                        } else {
                            g as int + 1
                        }),
                    {
                        if self.ptr >= self.tape.len() {
                            return Err(Fault::TapeOutOfBounds);
                        }
                        let c: u8 = self.tape[self.ptr];
                        if c == 0 {
                            done = true;
                        } else if g == 0 {
                            return Err(Fault::OutOfFuel);
                        } else {
                            let ghost before = State {
                                tape: self.tape@,
                                ptr: self.ptr as int,
                                inp: inp@.skip(*pos as int),
                                out: out@,
                            };
                            proof {
                                assert(tail[0].body == prog_view(instrs@[idx as int].instructions@));
                            }
                            match self.execute(&instr.instructions, inp, pos, out, g - 1) {
                                Err(f) => {
                                    return Err(f);
                                },
                                Ok(_) => {},
                            }
                            g = g - 1;
                        }
                    }
                },
            }
            proof {
                assert(run_instr(tail[0], prev, fuel as nat) == Ok::<State, Fault>(
                    (State {
                        tape: self.tape@,
                        ptr: self.ptr as int,
                        inp: inp@.skip(*pos as int),
                        out: out@,
                    }),
                ));
            }
            idx = idx + 1;
        }
        proof {
            assert(pv.subrange(idx as int, pv.len() as int).len() == 0);
        }
        Ok(())
    }

    /// Parse `source` and execute it against this tape, reading from `input`
    /// and returning the bytes the program printed. `fuel` bounds the number
    /// of loop iterations taken in total along any one nesting path; a run
    /// that needs more reports `OutOfFuel`.
    pub fn evaluate(&mut self, source: &str, input: &Vec<u8>, fuel: u64) -> (r: Result<
        Vec<u8>,
        EvalError,
    >)
        ensures
            final(self).tape@.len() == old(self).tape@.len(),
            ({
                match parse_spec(source@) {
                    Err(pe) => r == Err::<Vec<u8>, EvalError>(EvalError::Parse(pe)) && *final(self)
                        == *old(self),
                    Ok(p) => {
                        let st0 = State {
                            tape: old(self).tape@,
                            ptr: old(self).ptr as int,
                            inp: input@,
                            out: Seq::empty(),
                        };
                        match run_prog(p, st0, fuel as nat) {
                            Ok(stf) => match r {
                                Ok(out) => out@ == stf.out && final(self).tape@ == stf.tape
                                    && final(self).ptr as int == stf.ptr,
                                Err(_) => false,
                            },
                            Err(f) => r == Err::<Vec<u8>, EvalError>(EvalError::Runtime(f)),
                        }
                    },
                }
            }),
    {
        match parse(source) {
            Err(e) => Err(EvalError::Parse(e)),
            Ok(prog) => {
                let mut pos: usize = 0;
                let mut out: Vec<u8> = Vec::new();
                proof {
                    assert(input@.skip(0) =~= input@);
                    assert(out@ =~= Seq::<u8>::empty());
                }
                match self.execute(&prog, input, &mut pos, &mut out, fuel) {
                    Ok(_) => Ok(out),
                    Err(f) => Err(EvalError::Runtime(f)),
                }
            },
        }
    }
}

} // verus!

