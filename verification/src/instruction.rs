//! The closed set of operations the pipeline works on, together with the
//! spec-level measures over instruction sequences (run-length sums and
//! bracket nesting depth) that the optimizer and the engine reason with.

use vstd::prelude::*;

verus! {

/// One operation. `Add`/`Sub` change the current cell, `Right`/`Left` move
/// the data pointer, `Out`/`In` exchange one byte with the streams, and
/// `Open`/`Close` delimit loops. The parser produces every counted variant
/// with count 1; the optimizer may grow counts by fusing adjacent runs.
#[derive(Clone, Copy, Debug, PartialEq, Eq, Structural)]
pub enum Instruction {
    Add(usize),
    Sub(usize),
    Right(usize),
    Left(usize),
    Out,
    In,
    Open,
    Close,
}

/// Run-length payload of an instruction; instructions without one count as 0.
pub open spec fn count_of(i: Instruction) -> nat {
    match i {
        Instruction::Add(n) => n as nat,
        Instruction::Sub(n) => n as nat,
        Instruction::Right(n) => n as nat,
        Instruction::Left(n) => n as nat,
        _ => 0,
    }
}

/// Sum of the run-length payloads of a whole sequence.
pub open spec fn count_sum(s: Seq<Instruction>) -> nat
    decreases s.len(),
{
    if s.len() == 0 {
        0
    } else {
        count_sum(s.drop_last()) + count_of(s.last())
    }
}

pub open spec fn is_bracket(i: Instruction) -> bool {
    i is Open || i is Close
}

/// Contribution of one instruction to the bracket nesting depth.
pub open spec fn bracket_weight(i: Instruction) -> int {
    match i {
        Instruction::Open => 1,
        Instruction::Close => -1,
        _ => 0,
    }
}

/// Number of `Open`s minus number of `Close`s over a whole sequence.
pub open spec fn net_depth(s: Seq<Instruction>) -> int
    decreases s.len(),
{
    if s.len() == 0 {
        0
    } else {
        net_depth(s.drop_last()) + bracket_weight(s.last())
    }
}

/// Bracket nesting depth just before the instruction at index `i`.
pub open spec fn depth_at(s: Seq<Instruction>, i: int) -> int {
    net_depth(s.take(i))
}

/// No prefix closes more brackets than it has opened.
pub open spec fn prefixes_nonneg(s: Seq<Instruction>) -> bool {
    forall|i: int| 0 <= i <= s.len() ==> depth_at(s, i) >= 0
}

/// Correctly nested brackets: no prefix goes negative and the whole
/// sequence opens exactly as many brackets as it closes.
pub open spec fn balanced(s: Seq<Instruction>) -> bool {
    prefixes_nonneg(s) && net_depth(s) == 0
}

pub proof fn lemma_count_sum_snoc(s: Seq<Instruction>, x: Instruction)
    ensures
        count_sum(s.push(x)) == count_sum(s) + count_of(x),
{
    assert(s.push(x).drop_last() =~= s);
    assert(s.push(x).last() == x);
}

pub proof fn lemma_net_depth_snoc(s: Seq<Instruction>, x: Instruction)
    ensures
        net_depth(s.push(x)) == net_depth(s) + bracket_weight(x),
{
    assert(s.push(x).drop_last() =~= s);
    assert(s.push(x).last() == x);
}

/// Extending a prefix by one instruction adds that instruction's weight.
pub proof fn lemma_depth_at_step(s: Seq<Instruction>, i: int)
    requires
        0 <= i < s.len(),
    ensures
        depth_at(s, i + 1) == depth_at(s, i) + bracket_weight(s[i]),
{
    assert(s.take(i + 1) =~= s.take(i).push(s[i]));
    lemma_net_depth_snoc(s.take(i), s[i]);
}

pub proof fn lemma_depth_at_len(s: Seq<Instruction>)
    ensures
        depth_at(s, s.len() as int) == net_depth(s),
{
    assert(s.take(s.len() as int) =~= s);
}

} // verus!
