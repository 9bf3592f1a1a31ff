//! Mathematical model of the execution engine: a deterministic small-step
//! machine over the instruction sequence, tape, data pointer, loop-return
//! stack and the two byte streams. The executable engine is proved to
//! follow this machine step by step.

use vstd::prelude::*;

use crate::instruction::{balanced, depth_at, lemma_depth_at_step, Instruction};

verus! {

/// Number of byte cells on the tape.
pub const TAPE_SIZE: usize = 30000;

/// The ways a run can fail. Reading and writing in-memory streams cannot
/// fail, so the engine itself only ever produces `UnbalancedParens`: a
/// `Close` executed on a nonzero cell with no open loop to return to.
/// `ReadError` and `WriteError` are kept for callers that wire the engine
/// to fallible streams and need to report their failures.
#[derive(Clone, Copy, Debug, PartialEq, Eq, Structural)]
pub enum Error {
    ReadError,
    WriteError,
    UnbalancedParens,
}

/// One state of the machine. `input` is the not-yet-consumed input stream,
/// `output` what has been emitted so far; `halt` is `None` while the
/// machine is running.
#[verifier::ext_equal]
pub ghost struct MState {
    pub prog: Seq<Instruction>,
    pub ip: int,
    pub tape: Seq<u8>,
    pub dp: int,
    pub stack: Seq<int>,
    pub input: Seq<u8>,
    pub output: Seq<u8>,
    pub halt: Option<Result<(), Error>>,
}

/// Index of the matching `Close` for a forward scan that starts at `i`
/// with `depth` additional opens still to be closed; `None` when the scan
/// exhausts the sequence.
pub open spec fn find_close(prog: Seq<Instruction>, i: int, depth: nat) -> Option<int>
    decreases prog.len() - i,
{
    if i < 0 || i >= prog.len() {
        None
    } else if prog[i] is Close {
        if depth == 0 {
            Some(i)
        } else {
            find_close(prog, i + 1, (depth - 1) as nat)
        }
    } else if prog[i] is Open {
        find_close(prog, i + 1, depth + 1)
    } else {
        find_close(prog, i + 1, depth)
    }
}

/// The pointer move of `Right(n)`: clamped to the last valid index.
pub open spec fn right_move(dp: int, n: int, tape_len: int) -> int {
    if dp + n <= tape_len - 1 {
        dp + n
    } else {
        tape_len - 1
    }
}

/// The pointer move of `Left(n)`: saturating at 0.
pub open spec fn left_move(dp: int, n: int) -> int {
    if dp - n >= 0 {
        dp - n
    } else {
        0
    }
}

/// One machine step. A halted state is absorbing; a state whose
/// instruction pointer has left the sequence halts successfully.
pub open spec fn step(s: MState) -> MState {
    if s.halt is Some {
        s
    } else if !(0 <= s.ip < s.prog.len()) {
        MState { halt: Some(Ok(())), ..s }
    } else {
        let cell = s.tape[s.dp];
        match s.prog[s.ip] {
            Instruction::Right(n) => MState {
                dp: right_move(s.dp, n as int, s.tape.len() as int),
                ip: s.ip + 1,
                ..s
            },
            Instruction::Left(n) => MState { dp: left_move(s.dp, n as int), ip: s.ip + 1, ..s },
            Instruction::Add(n) => MState {
                tape: s.tape.update(s.dp, (((cell + n) % 256) as u8)),
                ip: s.ip + 1,
                ..s
            },
            Instruction::Sub(n) => MState {
                tape: s.tape.update(s.dp, (((cell - n) % 256) as u8)),
                ip: s.ip + 1,
                ..s
            },
            Instruction::Out => MState { output: s.output.push(cell), ip: s.ip + 1, ..s },
            Instruction::In => if s.input.len() > 0 {
                MState {
                    tape: s.tape.update(s.dp, s.input[0]),
                    input: s.input.drop_first(),
                    ip: s.ip + 1,
                    ..s
                }
            } else {
                MState { tape: s.tape.update(s.dp, 0u8), ip: s.ip + 1, ..s }
            },
            Instruction::Open => if cell == 0 {
                match find_close(s.prog, s.ip + 1, 0) {
                    Some(j) => MState { ip: j + 1, ..s },
                    None => MState { ip: s.prog.len() as int, ..s },
                }
            } else {
                MState { stack: s.stack.push(s.ip), ip: s.ip + 1, ..s }
            },
            Instruction::Close => if cell != 0 {
                if s.stack.len() == 0 {
                    MState { halt: Some(Err(Error::UnbalancedParens)), ..s }
                } else {
                    MState { ip: s.stack.last() + 1, ..s }
                }
            } else {
                MState {
                    stack: if s.stack.len() > 0 {
                        s.stack.drop_last()
                    } else {
                        s.stack
                    },
                    ip: s.ip + 1,
                    ..s
                }
            },
        }
    }
}

/// The state after `k` machine steps.
pub open spec fn steps(s: MState, k: nat) -> MState
    decreases k,
{
    if k == 0 {
        s
    } else {
        step(steps(s, (k - 1) as nat))
    }
}

/// The loop-stack discipline a running machine obeys: every stack entry
/// marks an `Open`, and — on correctly nested programs — the entry pushed
/// as `j`-th sits at nesting depth `j + 1`, with the current position's
/// depth equal to the stack height.
pub open spec fn wf_state(prog: Seq<Instruction>, ip: int, stack: Seq<int>) -> bool {
    &&& (forall|j: int|
        0 <= j < stack.len() ==> 0 <= #[trigger] stack[j] < prog.len() && prog[stack[j]] is Open)
    &&& (balanced(prog) ==> {
        &&& (forall|j: int|
            0 <= j < stack.len() ==> depth_at(prog, #[trigger] stack[j] + 1) == j + 1)
        &&& (ip < prog.len() ==> depth_at(prog, ip) == stack.len())
    })
}

/// A successful forward scan lands on a `Close` whose nesting depth is the
/// scan's starting depth minus its pending count.
pub proof fn lemma_find_close_props(prog: Seq<Instruction>, i: int, depth: nat)
    requires
        0 <= i,
        find_close(prog, i, depth) is Some,
    ensures
        i <= find_close(prog, i, depth)->0 < prog.len(),
        prog[find_close(prog, i, depth)->0] is Close,
        depth_at(prog, find_close(prog, i, depth)->0) == depth_at(prog, i) - depth,
    decreases prog.len() - i,
{
    let j = find_close(prog, i, depth)->0;
    if prog[i] is Close {
        if depth == 0 {
        } else {
            lemma_find_close_props(prog, i + 1, (depth - 1) as nat);
            lemma_depth_at_step(prog, i);
        }
    } else if prog[i] is Open {
        lemma_find_close_props(prog, i + 1, depth + 1);
        lemma_depth_at_step(prog, i);
    } else {
        lemma_find_close_props(prog, i + 1, depth);
        lemma_depth_at_step(prog, i);
    }
}

/// The data pointer stays on the tape: whatever instruction runs, a step
/// taken from a state whose pointer is in bounds leaves it in bounds.
pub proof fn lemma_step_dp_in_bounds(s: MState)
    requires
        0 <= s.dp < s.tape.len(),
    ensures
        0 <= step(s).dp < step(s).tape.len(),
{
}

/// Fusing two pointer moves of one direction is exact everywhere: the
/// clamped sum of two right moves equals one right move by the summed
/// count, and likewise for saturating left moves.
pub proof fn lemma_move_fusion(dp: int, x: int, y: int, len: int)
    requires
        0 <= dp < len,
        0 <= x,
        0 <= y,
    ensures
        right_move(right_move(dp, x, len), y, len) == right_move(dp, x + y, len),
        left_move(left_move(dp, x), y) == left_move(dp, x + y),
{
}

/// Cancelling a right move against an equal left move (or the mirror) is
/// exact only while the first move stays on the tape: a move clamped at
/// the last cell, or saturated at cell 0, does not return to where it
/// started. This boundary is where optimizer cancellation may change
/// where the data pointer lands.
pub proof fn lemma_move_cancellation(dp: int, x: int, len: int)
    requires
        0 <= dp < len,
        0 <= x,
    ensures
        dp + x <= len - 1 ==> left_move(right_move(dp, x, len), x) == dp,
        dp - x >= 0 ==> right_move(left_move(dp, x), x, len) == dp,
{
}

/// The optimizer's arithmetic rules are exact on every cell value: fused
/// increments (or decrements) change the cell as their plain sum does,
/// and an increment cancels against an equal decrement in either order.
pub proof fn lemma_cell_fusion(c: int, x: int, y: int)
    requires
        0 <= c < 256,
        0 <= x,
        0 <= y,
    ensures
        ((c + x) % 256 + y) % 256 == (c + (x + y)) % 256,
        ((c + x) % 256 - x) % 256 == c,
        ((c - x) % 256 + x) % 256 == c,
        ((c - x) % 256 - y) % 256 == (c - (x + y)) % 256,
{
    vstd::arithmetic::div_mod::lemma_add_mod_noop(c + x, y, 256);
    vstd::arithmetic::div_mod::lemma_add_mod_noop_right((c + x) % 256, y, 256);
    vstd::arithmetic::div_mod::lemma_sub_mod_noop(c + x, x, 256);
    vstd::arithmetic::div_mod::lemma_sub_mod_noop_right((c + x) % 256, x, 256);
    vstd::arithmetic::div_mod::lemma_add_mod_noop(c - x, x, 256);
    vstd::arithmetic::div_mod::lemma_add_mod_noop_right((c - x) % 256, x, 256);
    vstd::arithmetic::div_mod::lemma_sub_mod_noop(c - x, y, 256);
    vstd::arithmetic::div_mod::lemma_sub_mod_noop_right((c - x) % 256, y, 256);
    vstd::arithmetic::div_mod::lemma_small_mod(c as nat, 256);
}

/// However many steps the machine takes, its data pointer never leaves
/// the tape: `Left` saturates at 0 and `Right` clamps at the last index.
pub proof fn lemma_steps_dp_in_bounds(s: MState, k: nat)
    requires
        0 <= s.dp < s.tape.len(),
    ensures
        0 <= steps(s, k).dp < steps(s, k).tape.len(),
    decreases k,
{
    if k > 0 {
        lemma_steps_dp_in_bounds(s, (k - 1) as nat);
        lemma_step_dp_in_bounds(steps(s, (k - 1) as nat));
    }
}

/// A `Close` reached on a nonzero cell with no open loop entered halts the
/// run with the unbalanced-parens error.
pub proof fn lemma_close_on_empty_stack_fails(s: MState)
    requires
        s.halt is None,
        0 <= s.ip < s.prog.len(),
        s.prog[s.ip] is Close,
        0 <= s.dp < s.tape.len(),
        s.tape[s.dp] != 0,
        s.stack.len() == 0,
    ensures
        step(s).halt == Some(Err::<(), Error>(Error::UnbalancedParens)),
{
}

} // verus!
