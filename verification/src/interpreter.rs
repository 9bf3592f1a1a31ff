//! The execution engine. `new` parses and optimizes the source text; `run`
//! interprets the resulting instruction sequence against a 30,000-cell
//! byte tape, reading input from a byte slice and appending output to a
//! byte vector. `run` is proved to realize the small-step machine of
//! `crate::machine` exactly, and to return success whenever the program's
//! brackets are correctly nested.

use vstd::prelude::*;

use vstd::arithmetic::div_mod::{
    lemma_add_mod_noop_right, lemma_mod_add_multiples_vanish, lemma_sub_mod_noop_right,
};
use vstd::slice::slice_subrange;
use vstd::string::StringSliceAdditionalSpecFns;

use crate::instruction::{balanced, count_sum, depth_at, lemma_depth_at_step, Instruction};
use crate::machine::{find_close, step, steps, wf_state, Error, MState, TAPE_SIZE};
use crate::optimizer::{opt_spec, optimize};
use crate::parser::{lemma_parse_spec_count_sum, parse, parse_spec};

verus! {

/// The engine: the optimized instruction sequence, the instruction and
/// data pointers, the tape, and the loop-return stack. Each instance owns
/// its state exclusively; it is created by `new` and mutated only by `run`.
pub struct Brainfuck {
    instructions: Vec<Instruction>,
    ip: usize,
    tape: Vec<u8>,
    dp: usize,
    stack: Vec<usize>,
}

impl Brainfuck {
    pub closed spec fn prog_view(self) -> Seq<Instruction> {
        self.instructions@
    }

    pub closed spec fn ip_view(self) -> int {
        self.ip as int
    }

    pub closed spec fn tape_view(self) -> Seq<u8> {
        self.tape@
    }

    pub closed spec fn dp_view(self) -> int {
        self.dp as int
    }

    pub closed spec fn stack_view(self) -> Seq<int> {
        self.stack@.map_values(|v: usize| v as int)
    }

    /// The machine state this engine is in, for a given remaining input
    /// stream and already-emitted output.
    pub open spec fn abs(self, input: Seq<u8>, output: Seq<u8>) -> MState {
        MState {
            prog: self.prog_view(),
            ip: self.ip_view(),
            tape: self.tape_view(),
            dp: self.dp_view(),
            stack: self.stack_view(),
            input: input,
            output: output,
            halt: None,
        }
    }

    /// Well-formedness: the tape has its fixed length, the data pointer is
    /// on it, the instruction pointer has not left the sequence, every
    /// loop-stack entry marks an `Open`, and — on correctly nested
    /// programs — each entry's nesting depth is its stack position, with
    /// the current depth equal to the stack height.
    pub closed spec fn wf(self) -> bool {
        &&& self.tape@.len() == TAPE_SIZE
        &&& (self.dp as int) < TAPE_SIZE
        &&& self.ip <= self.instructions@.len()
        &&& wf_state(self.prog_view(), self.ip_view(), self.stack_view())
    }

    /// Build an engine around an already prepared instruction sequence,
    /// without optimizing it; this is how a raw parse can be executed and
    /// compared against its optimized form.
    pub fn from_instructions(instructions: Vec<Instruction>) -> (r: Brainfuck)
        ensures
            r.wf(),
            r.prog_view() == instructions@,
            r.ip_view() == 0,
            r.dp_view() == 0,
            r.stack_view() == Seq::<int>::empty(),
            r.tape_view() == Seq::new(TAPE_SIZE as nat, |i: int| 0u8),
    {
        let mut tape: Vec<u8> = Vec::new();
        let mut i: usize = 0;
        while i < TAPE_SIZE
            invariant
                i <= TAPE_SIZE,
                tape@.len() == i,
                forall|j: int| 0 <= j < i ==> tape@[j] == 0u8,
            decreases TAPE_SIZE - i,
        {
            tape.push(0);
            i = i + 1;
        }
        let r = Brainfuck { instructions, ip: 0, tape, dp: 0, stack: Vec::new() };
        proof {
            assert(r.tape@ =~= Seq::new(TAPE_SIZE as nat, |i: int| 0u8));
            assert(r.stack@.map_values(|v: usize| v as int) =~= Seq::<int>::empty());
            assert(r.instructions@.take(0) =~= Seq::<Instruction>::empty());
        }
        r
    }

    /// Parse the source text and optimize the result. Construction always
    /// succeeds: unrecognized bytes are skipped and brackets are not
    /// checked until the program runs.
    pub fn new(program: &str) -> (r: Brainfuck)
        ensures
            r.wf(),
            r.prog_view() == opt_spec(parse_spec(program.spec_bytes())),
            r.ip_view() == 0,
            r.dp_view() == 0,
            r.stack_view() == Seq::<int>::empty(),
            r.tape_view() == Seq::new(TAPE_SIZE as nat, |i: int| 0u8),
    {
        let bytes = program.as_bytes();
        let n = bytes.len();
        let instructions = parse(bytes);
        proof {
            lemma_parse_spec_count_sum(bytes@);
            assert(count_sum(parse_spec(bytes@)) <= n);
        }
        let optimized_instructions = optimize(instructions);
        Brainfuck::from_instructions(optimized_instructions)
    }

    /// Current position of the data pointer.
    pub fn tape_pointer(&self) -> (r: usize)
        ensures
            r as int == self.dp_view(),
    {
        self.dp
    }

    /// Read-only access to the tape cells in `start..end`.
    pub fn tape(&self, start: usize, end: usize) -> (r: &[u8])
        requires
            self.wf(),
            start <= end,
            end <= TAPE_SIZE,
        ensures
            r@ == self.tape_view().subrange(start as int, end as int),
    {
        slice_subrange(self.tape.as_slice(), start, end)
    }

    /// A well-formed engine keeps its data pointer on the fixed-length
    /// tape: it is never negative and never past the last valid index.
    pub proof fn lemma_wf_bounds(self)
        requires
            self.wf(),
        ensures
            self.tape_view().len() == TAPE_SIZE,
            0 <= self.dp_view() < TAPE_SIZE,
            0 <= self.ip_view() <= self.prog_view().len(),
    {
    }

    fn set_byte(&mut self, byte: u8)
        requires
            (old(self).dp as int) < old(self).tape@.len(),
        ensures
            final(self).tape@ == old(self).tape@.update(old(self).dp as int, byte),
            final(self).instructions == old(self).instructions,
            final(self).ip == old(self).ip,
            final(self).dp == old(self).dp,
            final(self).stack == old(self).stack,
    {
        self.tape[self.dp] = byte;
    }

    fn get_byte(&self) -> (r: u8)
        requires
            (self.dp as int) < self.tape@.len(),
        ensures
            r == self.tape@[self.dp as int],
    {
        self.tape[self.dp]
    }

    fn advance(&mut self)
        requires
            old(self).ip < old(self).instructions@.len(),
        ensures
            final(self).ip == old(self).ip + 1,
            final(self).instructions == old(self).instructions,
            final(self).tape == old(self).tape,
            final(self).dp == old(self).dp,
            final(self).stack == old(self).stack,
    {
        // The length call bounds `ip` within `usize`: the increment cannot
        // overflow while `ip` is below it.
        let n = self.instructions.len();
        self.ip = self.ip + 1;
    }

    fn current(&self) -> (r: Option<Instruction>)
        ensures
            self.ip < self.instructions@.len() ==> r == Some(self.instructions@[self.ip as int]),
            self.ip >= self.instructions@.len() ==> r is None,
    {
        if self.ip < self.instructions.len() {
            Some(self.instructions[self.ip])
        } else {
            None
        }
    }

    fn pop(&mut self)
        ensures
            old(self).stack@.len() > 0 ==> final(self).stack@ == old(self).stack@.drop_last(),
            old(self).stack@.len() == 0 ==> final(self).stack@ == old(self).stack@,
            final(self).instructions == old(self).instructions,
            final(self).ip == old(self).ip,
            final(self).tape == old(self).tape,
            final(self).dp == old(self).dp,
    {
        let _ = self.stack.pop();
        proof {
            if old(self).stack@.len() > 0 {
                assert(self.stack@ =~= old(self).stack@.drop_last());
            }
        }
    }

    fn push(&mut self)
        ensures
            final(self).stack@ == old(self).stack@.push(old(self).ip),
            final(self).instructions == old(self).instructions,
            final(self).ip == old(self).ip,
            final(self).tape == old(self).tape,
            final(self).dp == old(self).dp,
    {
        self.stack.push(self.ip);
    }

    /// Skip the body of an untaken loop: move the instruction pointer just
    /// past the matching `Close`, or to the end of the sequence when the
    /// scan finds none (in which case the run simply ends).
    fn advance_to_matching_paren(&mut self)
        requires
            old(self).ip < old(self).instructions@.len(),
            old(self).instructions@[old(self).ip as int] is Open,
        ensures
            final(self).instructions == old(self).instructions,
            final(self).tape == old(self).tape,
            final(self).dp == old(self).dp,
            final(self).stack == old(self).stack,
            final(self).ip <= final(self).instructions@.len(),
            find_close(old(self).instructions@, old(self).ip + 1, 0) is Some ==> final(self).ip
                as int == find_close(old(self).instructions@, old(self).ip + 1, 0)->0 + 1,
            find_close(old(self).instructions@, old(self).ip + 1, 0) is None ==> final(self).ip
                as int == old(self).instructions@.len(),
    {
        let ghost prog = self.instructions@;
        let ghost start: int = self.ip as int + 1;
        let n = self.instructions.len();
        let mut c: usize = 0;
        self.ip = self.ip + 1;
        loop
            invariant
                self.instructions@ == prog,
                self.tape == old(self).tape,
                self.dp == old(self).dp,
                self.stack == old(self).stack,
                self.instructions == old(self).instructions,
                prog == old(self).instructions@,
                start == old(self).ip + 1,
                n as int == prog.len(),
                start <= self.ip as int <= prog.len(),
                c as int <= self.ip as int - start,
                find_close(prog, start, 0) == find_close(prog, self.ip as int, c as nat),
            decreases prog.len() - self.ip,
        {
            if self.ip >= self.instructions.len() {
                proof {
                    assert(find_close(prog, self.ip as int, c as nat) is None);
                }
                return ;
            }
            let inst = self.instructions[self.ip];
            match inst {
                Instruction::Close => {
                    if c == 0 {
                        proof {
                            assert(find_close(prog, self.ip as int, 0) == Some(self.ip as int));
                        }
                        self.ip = self.ip + 1;
                        return ;
                    } else {
                        c = c - 1;
                        self.ip = self.ip + 1;
                    }
                },
                Instruction::Open => {
                    c = c + 1;
                    self.ip = self.ip + 1;
                },
                _ => {
                    self.ip = self.ip + 1;
                },
            }
        }
    }

    /// Re-enter the current loop: point the instruction pointer at the
    /// loop's `Open` (the top of the stack, left in place), or fail with
    /// `UnbalancedParens` when no loop is open.
    fn return_to_matching_paren(&mut self) -> (r: Result<(), Error>)
        ensures
            final(self).instructions == old(self).instructions,
            final(self).tape == old(self).tape,
            final(self).dp == old(self).dp,
            final(self).stack == old(self).stack,
            old(self).stack@.len() > 0 ==> r == Ok::<(), Error>(()) && final(self).ip == old(
                self,
            ).stack@.last(),
            old(self).stack@.len() == 0 ==> r == Err::<(), Error>(Error::UnbalancedParens)
                && final(self).ip == old(self).ip,
    {
        if self.stack.len() > 0 {
            self.ip = self.stack[self.stack.len() - 1];
            Ok(())
        } else {
            Err(Error::UnbalancedParens)
        }
    }

    /// Execute the program against the given streams: `input` yields one
    /// byte per `In` (cells read past its end become 0) and each `Out`
    /// appends one byte to `output`. The run realizes the machine of
    /// `crate::machine` exactly: it ends with the machine's halt result,
    /// in the machine's state — or, only for a program still running after
    /// `STEP_LIMIT` steps, stops there and reports success. On a program
    /// with correctly nested brackets the result is always `Ok`.
    pub fn run(&mut self, input: &[u8], output: &mut Vec<u8>) -> (r: Result<(), Error>)
        requires
            old(self).wf(),
        ensures
            final(self).wf(),
            final(self).prog_view() == old(self).prog_view(),
            run_post(
                old(self).abs(input@, Seq::empty()),
                *final(self),
                old(output)@,
                final(output)@,
                r,
            ) || (r == Ok::<(), Error>(()) && run_exhausted(
                old(self).abs(input@, Seq::empty()),
                *final(self),
                old(output)@,
                final(output)@,
            )),
            balanced(old(self).prog_view()) ==> r == Ok::<(), Error>(()),
    {
        let ghost s0 = self.abs(input@, Seq::empty());
        let ghost out_base = output@;
        let mut pos: usize = 0;
        let mut fuel: u64 = STEP_LIMIT;
        let ghost mut k: nat = 0;
        loop
            invariant
                self.wf(),
                self.instructions@ == s0.prog,
                s0 == old(self).abs(input@, Seq::empty()),
                out_base == old(output)@,
                pos <= input@.len(),
                out_base.len() <= output@.len(),
                output@.take(out_base.len() as int) == out_base,
                k + fuel == STEP_LIMIT,
                steps(s0, k) == self.abs(
                    input@.skip(pos as int),
                    output@.skip(out_base.len() as int),
                ),
            decreases fuel,
        {
            if fuel == 0 {
                proof {
                    assert(output@ =~= out_base + output@.skip(out_base.len() as int));
                }
                return Ok(());
            }
            let ghost pre = steps(s0, k);
            let ghost pos0 = pos as int;
            proof {
                assert(steps(s0, k + 1) == step(pre));
            }
            match self.current() {
                None => {
                    proof {
                        assert(step(pre) =~= (MState { halt: Some(Ok::<(), Error>(())), ..pre }));
                        k = k + 1;
                        assert(run_result_at(s0, k, *self, Ok::<(), Error>(())));
                        assert(output@ =~= out_base + steps(s0, k).output);
                    }
                    return Ok(());
                },
                Some(Instruction::Right(n)) => {
                    if n <= TAPE_SIZE - 1 - self.dp {
                        self.dp = self.dp + n;
                    } else {
                        self.dp = TAPE_SIZE - 1;
                    }
                    self.advance();
                    proof {
                        lemma_wf_plain_advance(pre, *self);
                        assert(step(pre) =~= self.abs(
                            input@.skip(pos as int),
                            output@.skip(out_base.len() as int),
                        ));
                        k = k + 1;
                    }
                },
                Some(Instruction::Left(n)) => {
                    if n <= self.dp {
                        self.dp = self.dp - n;
                    } else {
                        self.dp = 0;
                    }
                    self.advance();
                    proof {
                        lemma_wf_plain_advance(pre, *self);
                        assert(step(pre) =~= self.abs(
                            input@.skip(pos as int),
                            output@.skip(out_base.len() as int),
                        ));
                        k = k + 1;
                    }
                },
                Some(Instruction::Add(n)) => {
                    let cell = self.get_byte();
                    let byte = wrap_add(cell, n);
                    self.set_byte(byte);
                    self.advance();
                    proof {
                        lemma_wf_plain_advance(pre, *self);
                        assert(step(pre) =~= self.abs(
                            input@.skip(pos as int),
                            output@.skip(out_base.len() as int),
                        ));
                        k = k + 1;
                    }
                },
                Some(Instruction::Sub(n)) => {
                    let cell = self.get_byte();
                    let byte = wrap_sub(cell, n);
                    self.set_byte(byte);
                    self.advance();
                    proof {
                        lemma_wf_plain_advance(pre, *self);
                        assert(step(pre) =~= self.abs(
                            input@.skip(pos as int),
                            output@.skip(out_base.len() as int),
                        ));
                        k = k + 1;
                    }
                },
                Some(Instruction::Out) => {
                    let cell = self.get_byte();
                    output.push(cell);
                    self.advance();
                    proof {
                        lemma_wf_plain_advance(pre, *self);
                        assert(output@.take(out_base.len() as int) =~= out_base);
                        assert(output@.skip(out_base.len() as int) =~= pre.output.push(cell));
                        assert(step(pre) =~= self.abs(
                            input@.skip(pos as int),
                            output@.skip(out_base.len() as int),
                        ));
                        k = k + 1;
                    }
                },
                Some(Instruction::In) => {
                    let byte: u8;
                    if pos < input.len() {
                        byte = input[pos];
                        pos = pos + 1;
                    } else {
                        byte = 0;
                    }
                    self.set_byte(byte);
                    self.advance();
                    proof {
                        lemma_wf_plain_advance(pre, *self);
                        if pre.input.len() > 0 {
                            assert(input@.skip(pos0)[0] == input@[pos0]);
                            assert(input@.skip(pos0).drop_first() =~= input@.skip(pos0 + 1));
                        }
                        assert(step(pre) =~= self.abs(
                            input@.skip(pos as int),
                            output@.skip(out_base.len() as int),
                        ));
                        k = k + 1;
                    }
                },
                Some(Instruction::Open) => {
                    if self.get_byte() == 0 {
                        let ghost prog = self.instructions@;
                        let ghost ip0 = self.ip as int;
                        self.advance_to_matching_paren();
                        proof {
                            if balanced(prog) {
                                if find_close(prog, ip0 + 1, 0) is Some {
                                    let j = find_close(prog, ip0 + 1, 0)->0;
                                    crate::machine::lemma_find_close_props(prog, ip0 + 1, 0);
                                    lemma_depth_at_step(prog, ip0);
                                    lemma_depth_at_step(prog, j);
                                }
                            }
                            assert(step(pre) =~= self.abs(
                                input@.skip(pos as int),
                                output@.skip(out_base.len() as int),
                            ));
                            k = k + 1;
                        }
                    } else {
                        let ghost stack0 = self.stack@;
                        let ghost ip0 = self.ip as int;
                        self.push();
                        self.advance();
                        proof {
                            let prog = self.instructions@;
                            let sv = self.stack_view();
                            assert(self.stack@ == stack0.push(ip0 as usize));
                            assert(sv =~= pre.stack.push(ip0));
                            assert forall|j: int| 0 <= j < sv.len() implies 0 <= #[trigger] sv[j]
                                < prog.len() && prog[sv[j]] is Open by {
                                if j < pre.stack.len() {
                                    assert(sv[j] == pre.stack[j]);
                                } else {
                                    assert(sv[j] == ip0);
                                }
                            }
                            if balanced(prog) {
                                lemma_depth_at_step(prog, ip0);
                                assert forall|j: int| 0 <= j < sv.len() implies depth_at(
                                    prog,
                                    #[trigger] sv[j] + 1,
                                ) == j + 1 by {
                                    if j < pre.stack.len() {
                                        assert(sv[j] == pre.stack[j]);
                                    } else {
                                        assert(sv[j] == ip0);
                                    }
                                }
                            }
                            assert(step(pre) =~= self.abs(
                                input@.skip(pos as int),
                                output@.skip(out_base.len() as int),
                            ));
                            k = k + 1;
                        }
                    }
                },
                Some(Instruction::Close) => {
                    if self.get_byte() != 0 {
                        let ghost stack0 = self.stack@;
                        let ghost ip0 = self.ip as int;
                        let res = self.return_to_matching_paren();
                        match res {
                            Ok(()) => {
                                proof {
                                    let m = pre.stack.len() as int;
                                    assert(pre.stack[m - 1] == stack0[m - 1] as int);
                                    assert(0 <= pre.stack[m - 1] < self.instructions@.len());
                                }
                                self.advance();
                                proof {
                                    let m = pre.stack.len() as int;
                                    assert(self.ip as int == pre.stack[m - 1] + 1);
                                    assert(pre.stack.last() == pre.stack[m - 1]);
                                    if balanced(self.instructions@) {
                                        assert(depth_at(
                                            self.instructions@,
                                            pre.stack[m - 1] + 1,
                                        ) == m);
                                    }
                                    assert(step(pre) =~= self.abs(
                                        input@.skip(pos as int),
                                        output@.skip(out_base.len() as int),
                                    ));
                                    k = k + 1;
                                }
                            },
                            Err(e) => {
                                proof {
                                    assert(step(pre) =~= (MState {
                                        halt: Some(Err::<(), Error>(Error::UnbalancedParens)),
                                        ..pre
                                    }));
                                    k = k + 1;
                                    assert(run_result_at(
                                        s0,
                                        k,
                                        *self,
                                        Err::<(), Error>(Error::UnbalancedParens),
                                    ));
                                    assert(output@ =~= out_base + steps(s0, k).output);
                                    if balanced(self.instructions@) {
                                        lemma_depth_at_step(self.instructions@, self.ip as int);
                                        assert(depth_at(self.instructions@, self.ip + 1) >= 0);
                                        assert(false);
                                    }
                                }
                                return Err(e);
                            },
                        }
                    } else {
                        let ghost stack0 = self.stack@;
                        let ghost ip0 = self.ip as int;
                        self.pop();
                        self.advance();
                        proof {
                            let prog = self.instructions@;
                            let sv = self.stack_view();
                            if stack0.len() > 0 {
                                assert(sv =~= pre.stack.drop_last());
                            } else {
                                assert(sv =~= pre.stack);
                            }
                            assert forall|j: int| 0 <= j < sv.len() implies 0 <= #[trigger] sv[j]
                                < prog.len() && prog[sv[j]] is Open by {
                                assert(sv[j] == pre.stack[j]);
                            }
                            if balanced(prog) {
                                lemma_depth_at_step(prog, ip0);
                                if stack0.len() == 0 {
                                    assert(depth_at(prog, ip0 + 1) >= 0);
                                    assert(false);
                                }
                                assert forall|j: int| 0 <= j < sv.len() implies depth_at(
                                    prog,
                                    #[trigger] sv[j] + 1,
                                ) == j + 1 by {
                                    assert(sv[j] == pre.stack[j]);
                                }
                            }
                            assert(step(pre) =~= self.abs(
                                input@.skip(pos as int),
                                output@.skip(out_base.len() as int),
                            ));
                            k = k + 1;
                        }
                    }
                },
            }
            fuel = fuel - 1;
        }
    }

    /// Run the program with an empty input stream, discarding its output.
    pub fn run_pure(&mut self) -> (r: Result<(), Error>)
        requires
            old(self).wf(),
        ensures
            final(self).wf(),
            final(self).prog_view() == old(self).prog_view(),
            run_reaches(old(self).abs(Seq::empty(), Seq::empty()), *final(self), r) || (r == Ok::<
                (),
                Error,
            >(()) && still_running_at_limit(
                old(self).abs(Seq::empty(), Seq::empty()),
                *final(self),
            )),
            balanced(old(self).prog_view()) ==> r == Ok::<(), Error>(()),
    {
        let input: Vec<u8> = Vec::new();
        let mut output: Vec<u8> = Vec::new();
        let r = self.run(input.as_slice(), &mut output);
        proof {
            assert(input@ =~= Seq::<u8>::empty());
        }
        r
    }
}

/// One non-bracket instruction was executed: the instruction pointer moved
/// on by one and the loop stack is untouched, so well-formedness carries
/// over.
proof fn lemma_wf_plain_advance(pre: MState, bf: Brainfuck)
    requires
        0 <= pre.ip < pre.prog.len(),
        !crate::instruction::is_bracket(pre.prog[pre.ip]),
        wf_state(pre.prog, pre.ip, pre.stack),
        pre.prog == bf.prog_view(),
        bf.ip_view() == pre.ip + 1,
        bf.stack_view() == pre.stack,
        bf.tape_view().len() == TAPE_SIZE,
        bf.dp_view() < TAPE_SIZE,
    ensures
        bf.wf(),
{
    if balanced(pre.prog) {
        lemma_depth_at_step(pre.prog, pre.ip);
    }
}

/// After `k` machine steps from `s0` the machine has halted with result
/// `r` in exactly the state the engine `bf` is in.
pub open spec fn run_result_at(s0: MState, k: nat, bf: Brainfuck, r: Result<(), Error>) -> bool {
    let sf = steps(s0, k);
    &&& sf.halt == Some(r)
    &&& sf.prog == bf.prog_view()
    &&& sf.ip == bf.ip_view()
    &&& sf.tape == bf.tape_view()
    &&& sf.dp == bf.dp_view()
    &&& sf.stack == bf.stack_view()
}

/// Some number of machine steps from `s0` halts with result `r` in the
/// engine's final state, having grown the output from `out0` to `out1`.
pub open spec fn run_post(
    s0: MState,
    bf: Brainfuck,
    out0: Seq<u8>,
    out1: Seq<u8>,
    r: Result<(), Error>,
) -> bool {
    exists|k: nat| #[trigger] run_result_at(s0, k, bf, r) && out1 == out0 + steps(s0, k).output
}

/// Some number of machine steps from `s0` halts with result `r` in the
/// engine's final state.
pub open spec fn run_reaches(s0: MState, bf: Brainfuck, r: Result<(), Error>) -> bool {
    exists|k: nat| #[trigger] run_result_at(s0, k, bf, r)
}

/// A source text whose parsed instruction sequence has correctly nested
/// brackets builds, through `new`, an engine whose optimized sequence is
/// correctly nested too — so by `run`'s contract such a program always
/// runs to success.
pub proof fn lemma_balanced_source_runs_ok(bytes: Seq<u8>)
    requires
        balanced(parse_spec(bytes)),
    ensures
        balanced(opt_spec(parse_spec(bytes))),
{
    crate::optimizer::lemma_optimize_preserves_balance(parse_spec(bytes));
}

/// Upper bound on the machine steps one call of `run` performs. Stepping
/// this often would take centuries, so the bound is no practical limit; it
/// is what makes the interpreter loop provably well-founded.
pub const STEP_LIMIT: u64 = u64::MAX;

/// After `STEP_LIMIT` machine steps from `s0` the machine has still not
/// halted and is in exactly the engine's state.
pub open spec fn still_running_at_limit(s0: MState, bf: Brainfuck) -> bool {
    let sf = steps(s0, STEP_LIMIT as nat);
    &&& sf.halt is None
    &&& sf.prog == bf.prog_view()
    &&& sf.ip == bf.ip_view()
    &&& sf.tape == bf.tape_view()
    &&& sf.dp == bf.dp_view()
    &&& sf.stack == bf.stack_view()
}

/// The step-bound case of `run`'s contract: the machine was still running
/// after `STEP_LIMIT` steps, the engine holds that state, and the output
/// grew by exactly what those steps emitted.
pub open spec fn run_exhausted(s0: MState, bf: Brainfuck, out0: Seq<u8>, out1: Seq<u8>) -> bool {
    &&& still_running_at_limit(s0, bf)
    &&& out1 == out0 + steps(s0, STEP_LIMIT as nat).output
}

/// `Add(n)` on the current cell: wraparound addition modulo 256.
fn wrap_add(cell: u8, n: usize) -> (r: u8)
    ensures
        r as int == (cell + n) % 256,
{
    let r = ((cell as u64 + (n as u64) % 256) % 256) as u8;
    proof {
        lemma_add_mod_noop_right(cell as int, n as int, 256);
    }
    r
}

/// `Sub(n)` on the current cell: wraparound subtraction modulo 256, so a
/// decrement below 0 wraps back through 255.
fn wrap_sub(cell: u8, n: usize) -> (r: u8)
    ensures
        r as int == (cell - n) % 256,
{
    let m = (n as u64) % 256;
    let r = ((256 + cell as u64 - m) % 256) as u8;
    proof {
        lemma_sub_mod_noop_right(cell as int, n as int, 256);
        lemma_mod_add_multiples_vanish(cell as int - m as int, 256);
    }
    r
}

} // verus!
