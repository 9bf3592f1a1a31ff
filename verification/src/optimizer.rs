//! Peephole pass over an instruction sequence: adjacent same-direction runs
//! are fused into one counted instruction, and adjacent equal-count opposite
//! pairs cancel. Nothing is merged across `Out`, `In`, `Open` or `Close`,
//! and rules are applied until none fires at any adjacent position, so the
//! pass is idempotent. Fused counts are plain sums, never reduced modulo
//! 256; wraparound belongs to execution.

use vstd::prelude::*;

use crate::instruction::{
    balanced, bracket_weight, count_of, count_sum, depth_at, is_bracket, lemma_count_sum_snoc,
    lemma_net_depth_snoc, net_depth, prefixes_nonneg, Instruction,
};
use crate::machine::{
    lemma_cell_fusion, lemma_move_cancellation, lemma_move_fusion, steps, MState,
};

verus! {

/// Two adjacent instructions that merge into one run.
pub open spec fn fusible(a: Instruction, b: Instruction) -> bool {
    match (a, b) {
        (Instruction::Add(_), Instruction::Add(_)) => true,
        (Instruction::Sub(_), Instruction::Sub(_)) => true,
        (Instruction::Right(_), Instruction::Right(_)) => true,
        (Instruction::Left(_), Instruction::Left(_)) => true,
        _ => false,
    }
}

/// The merged run of a fusible pair.
pub open spec fn fused(a: Instruction, b: Instruction) -> Instruction {
    match (a, b) {
        (Instruction::Add(x), Instruction::Add(y)) => Instruction::Add((x + y) as usize),
        (Instruction::Sub(x), Instruction::Sub(y)) => Instruction::Sub((x + y) as usize),
        (Instruction::Right(x), Instruction::Right(y)) => Instruction::Right((x + y) as usize),
        (Instruction::Left(x), Instruction::Left(y)) => Instruction::Left((x + y) as usize),
        _ => a,
    }
}

/// Two adjacent instructions that are a net no-op and vanish together.
pub open spec fn cancels(a: Instruction, b: Instruction) -> bool {
    match (a, b) {
        (Instruction::Add(x), Instruction::Sub(y)) => x == y,
        (Instruction::Sub(x), Instruction::Add(y)) => x == y,
        (Instruction::Right(x), Instruction::Left(y)) => x == y,
        (Instruction::Left(x), Instruction::Right(y)) => x == y,
        _ => false,
    }
}

/// Append one instruction to an already fully reduced output, re-applying
/// the two rules against the output's tail until neither fires.
pub open spec fn push_merge(out: Seq<Instruction>, x: Instruction) -> Seq<Instruction>
    decreases out.len(),
{
    if out.len() == 0 {
        seq![x]
    } else if fusible(out.last(), x) {
        push_merge(out.drop_last(), fused(out.last(), x))
    } else if cancels(out.last(), x) {
        out.drop_last()
    } else {
        out.push(x)
    }
}

/// The optimized form of a sequence: each instruction in turn is merged
/// into the reduced output built so far.
pub open spec fn opt_spec(s: Seq<Instruction>) -> Seq<Instruction>
    decreases s.len(),
{
    if s.len() == 0 {
        Seq::empty()
    } else {
        push_merge(opt_spec(s.drop_last()), s.last())
    }
}

/// No rule fires at any adjacent position.
pub open spec fn irreducible(s: Seq<Instruction>) -> bool {
    forall|i: int|
        0 <= i && i + 1 < s.len() ==> !fusible(#[trigger] s[i], s[i + 1]) && !cancels(s[i], s[i + 1])
}

fn is_fusible(a: &Instruction, b: &Instruction) -> (r: bool)
    ensures
        r == fusible(*a, *b),
{
    match (a, b) {
        (Instruction::Add(_), Instruction::Add(_)) => true,
        (Instruction::Sub(_), Instruction::Sub(_)) => true,
        (Instruction::Right(_), Instruction::Right(_)) => true,
        (Instruction::Left(_), Instruction::Left(_)) => true,
        _ => false,
    }
}

fn is_cancelling(a: &Instruction, b: &Instruction) -> (r: bool)
    ensures
        r == cancels(*a, *b),
{
    match (a, b) {
        (Instruction::Add(x), Instruction::Sub(y)) => x == y,
        (Instruction::Sub(x), Instruction::Add(y)) => x == y,
        (Instruction::Right(x), Instruction::Left(y)) => x == y,
        (Instruction::Left(x), Instruction::Right(y)) => x == y,
        _ => false,
    }
}

fn fuse(a: Instruction, b: Instruction) -> (r: Instruction)
    requires
        fusible(a, b),
        count_of(a) + count_of(b) <= usize::MAX,
    ensures
        r == fused(a, b),
{
    match (a, b) {
        (Instruction::Add(x), Instruction::Add(y)) => Instruction::Add(x + y),
        (Instruction::Sub(x), Instruction::Sub(y)) => Instruction::Sub(x + y),
        (Instruction::Right(x), Instruction::Right(y)) => Instruction::Right(x + y),
        (Instruction::Left(x), Instruction::Left(y)) => Instruction::Left(x + y),
        _ => a,
    }
}

/// The run-length sum of a prefix never exceeds that of the whole sequence.
proof fn lemma_count_sum_take_le(s: Seq<Instruction>, j: int)
    requires
        0 <= j <= s.len(),
    ensures
        count_sum(s.take(j)) <= count_sum(s),
    decreases s.len(),
{
    if j == s.len() {
        assert(s.take(j) =~= s);
    } else {
        assert(s.take(j) =~= s.drop_last().take(j));
        lemma_count_sum_take_le(s.drop_last(), j);
    }
}

fn is_mergeable(a: &Instruction, b: &Instruction) -> (r: bool)
    ensures
        r == (fusible(*a, *b) || cancels(*a, *b)),
{
    is_fusible(a, b) || is_cancelling(a, b)
}

/// Rewrite an instruction sequence into an equivalent, typically shorter
/// one by exhaustively applying run fusion and pair cancellation. The bound
/// on the total run-length sum is what keeps every fused count within
/// `usize`.
pub fn optimize(instructions: Vec<Instruction>) -> (r: Vec<Instruction>)
    requires
        count_sum(instructions@) <= usize::MAX,
    ensures
        r@ == opt_spec(instructions@),
{
    let mut out: Vec<Instruction> = Vec::new();
    let mut i: usize = 0;
    while i < instructions.len()
        invariant
            i <= instructions@.len(),
            count_sum(instructions@) <= usize::MAX,
            out@ == opt_spec(instructions@.take(i as int)),
            count_sum(out@) <= count_sum(instructions@.take(i as int)),
        decreases instructions@.len() - i,
    {
        let ghost pref = instructions@.take(i + 1);
        proof {
            assert(pref.drop_last() =~= instructions@.take(i as int));
            assert(pref.last() == instructions@[i as int]);
            lemma_count_sum_snoc(instructions@.take(i as int), instructions@[i as int]);
            lemma_count_sum_take_le(instructions@, i + 1);
        }
        let mut cur: Instruction = instructions[i];
        let mut keep: bool = true;
        while keep && out.len() > 0 && is_mergeable(&out[out.len() - 1], &cur)
            invariant
                keep ==> push_merge(out@, cur) == opt_spec(pref),
                keep ==> count_sum(out@) + count_of(cur) <= count_sum(pref),
                !keep ==> out@ == opt_spec(pref),
                !keep ==> count_sum(out@) <= count_sum(pref),
                count_sum(pref) <= usize::MAX,
            decreases out@.len(),
        {
            let ghost out0 = out@;
            let top: Instruction = out[out.len() - 1];
            let _ = out.pop();
            proof {
                assert(out@ =~= out0.drop_last());
                assert(out0 =~= out@.push(top));
                lemma_count_sum_snoc(out@, top);
            }
            if is_fusible(&top, &cur) {
                cur = fuse(top, cur);
            } else {
                keep = false;
            }
        }
        if keep {
            let ghost out0 = out@;
            out.push(cur);
            proof {
                lemma_count_sum_snoc(out0, cur);
                if out0.len() == 0 {
                    assert(out@ =~= seq![cur]);
                }
            }
        }
        i = i + 1;
    }
    proof {
        assert(instructions@.take(instructions@.len() as int) =~= instructions@);
    }
    out
}

/// Merging one instruction into a fully reduced output leaves it fully
/// reduced: the merge loop stops only when no rule fires at the seam.
proof fn lemma_push_merge_irreducible(out: Seq<Instruction>, x: Instruction)
    requires
        irreducible(out),
    ensures
        irreducible(push_merge(out, x)),
    decreases out.len(),
{
    if out.len() == 0 {
    } else if fusible(out.last(), x) {
        assert(irreducible(out.drop_last()));
        lemma_push_merge_irreducible(out.drop_last(), fused(out.last(), x));
    } else if cancels(out.last(), x) {
        assert(irreducible(out.drop_last()));
    } else {
        let r = out.push(x);
        assert forall|i: int| 0 <= i && i + 1 < r.len() implies !fusible(#[trigger] r[i], r[i + 1])
            && !cancels(r[i], r[i + 1]) by {
            if i + 1 < out.len() {
                assert(!fusible(out[i], out[i + 1]) && !cancels(out[i], out[i + 1]));
            } else {
                assert(r[i] == out.last() && r[i + 1] == x);
            }
        }
    }
}

/// The optimizer's output has no adjacent position where a rule still
/// fires: the pass reaches a true fixed point.
pub proof fn lemma_opt_spec_irreducible(s: Seq<Instruction>)
    ensures
        irreducible(opt_spec(s)),
    decreases s.len(),
{
    if s.len() == 0 {
    } else {
        lemma_opt_spec_irreducible(s.drop_last());
        lemma_push_merge_irreducible(opt_spec(s.drop_last()), s.last());
    }
}

/// A sequence on which no rule fires is left exactly as it is.
pub proof fn lemma_opt_spec_fixed(s: Seq<Instruction>)
    requires
        irreducible(s),
    ensures
        opt_spec(s) == s,
    decreases s.len(),
{
    if s.len() == 0 {
        assert(opt_spec(s) =~= s);
    } else {
        assert(irreducible(s.drop_last()));
        lemma_opt_spec_fixed(s.drop_last());
        if s.len() == 1 {
            assert(opt_spec(s) =~= s);
        } else {
            assert(!fusible(s[s.len() - 2], s[s.len() - 1]) && !cancels(
                s[s.len() - 2],
                s[s.len() - 1],
            ));
            assert(s.drop_last().last() == s[s.len() - 2]);
            assert(opt_spec(s) == s.drop_last().push(s.last()));
            assert(s.drop_last().push(s.last()) =~= s);
        }
    }
}

/// Optimizer idempotence: re-optimizing an already optimized sequence
/// yields the same sequence.
pub proof fn lemma_optimize_idempotent(s: Seq<Instruction>)
    ensures
        opt_spec(opt_spec(s)) == opt_spec(s),
{
    lemma_opt_spec_irreducible(s);
    lemma_opt_spec_fixed(opt_spec(s));
}

/// Appending one instruction on the right commutes with optimizing.
proof fn lemma_opt_spec_snoc(s: Seq<Instruction>, x: Instruction)
    ensures
        opt_spec(s.push(x)) == push_merge(opt_spec(s), x),
{
    assert(s.push(x).drop_last() =~= s);
    assert(s.push(x).last() == x);
}

/// Sequences that optimize alike still optimize alike after any common
/// suffix is appended to both.
pub proof fn lemma_opt_spec_append_congruent(
    p: Seq<Instruction>,
    q: Seq<Instruction>,
    rest: Seq<Instruction>,
)
    requires
        opt_spec(p) == opt_spec(q),
    ensures
        opt_spec(p + rest) == opt_spec(q + rest),
    decreases rest.len(),
{
    if rest.len() == 0 {
        assert(p + rest =~= p);
        assert(q + rest =~= q);
    } else {
        lemma_opt_spec_append_congruent(p, q, rest.drop_last());
        assert(p + rest =~= (p + rest.drop_last()).push(rest.last()));
        assert(q + rest =~= (q + rest.drop_last()).push(rest.last()));
        lemma_opt_spec_snoc(p + rest.drop_last(), rest.last());
        lemma_opt_spec_snoc(q + rest.drop_last(), rest.last());
    }
}

proof fn lemma_opt_spec_singleton(a: Instruction)
    ensures
        opt_spec(seq![a]) == seq![a],
{
    assert(seq![a].drop_last() =~= Seq::<Instruction>::empty());
    assert(seq![a].last() == a);
    assert(opt_spec(Seq::<Instruction>::empty()) == Seq::<Instruction>::empty());
    assert(opt_spec(seq![a]) == push_merge(Seq::<Instruction>::empty(), a));
    assert(push_merge(Seq::<Instruction>::empty(), a) == seq![a]);
}

/// Fusion law: a fusible adjacent pair at the head optimizes exactly as
/// its single fused instruction does, whatever follows them.
pub proof fn lemma_optimize_fuses(a: Instruction, b: Instruction, rest: Seq<Instruction>)
    requires
        fusible(a, b),
    ensures
        opt_spec(seq![a, b] + rest) == opt_spec(seq![fused(a, b)] + rest),
{
    assert(opt_spec(seq![a, b]) == opt_spec(seq![fused(a, b)])) by {
        assert(seq![a, b].drop_last() =~= seq![a]);
        assert(seq![a, b].last() == b);
        lemma_opt_spec_singleton(a);
        lemma_opt_spec_singleton(fused(a, b));
        assert(opt_spec(seq![a, b]) == push_merge(seq![a], b));
        assert(seq![a].last() == a);
        assert(seq![a].drop_last() =~= Seq::<Instruction>::empty());
        assert(push_merge(seq![a], b) == push_merge(
            Seq::<Instruction>::empty(),
            fused(a, b),
        ));
        assert(push_merge(Seq::<Instruction>::empty(), fused(a, b)) == seq![fused(a, b)]);
    }
    lemma_opt_spec_append_congruent(seq![a, b], seq![fused(a, b)], rest);
}

/// Cancellation law: an adjacent equal-count opposite pair at the head
/// optimizes away to nothing, whatever follows it.
pub proof fn lemma_optimize_cancels(a: Instruction, b: Instruction, rest: Seq<Instruction>)
    requires
        cancels(a, b),
    ensures
        opt_spec(seq![a, b] + rest) == opt_spec(rest),
{
    assert(opt_spec(seq![a, b]) == opt_spec(Seq::<Instruction>::empty())) by {
        assert(seq![a, b].drop_last() =~= seq![a]);
        assert(seq![a, b].last() == b);
        lemma_opt_spec_singleton(a);
        assert(opt_spec(seq![a, b]) == push_merge(seq![a], b));
        assert(seq![a].last() == a);
        assert(seq![a].drop_last() =~= Seq::<Instruction>::empty());
        assert(!fusible(a, b));
        assert(push_merge(seq![a], b) == Seq::<Instruction>::empty());
    }
    lemma_opt_spec_append_congruent(seq![a, b], Seq::<Instruction>::empty(), rest);
    assert(Seq::<Instruction>::empty() + rest =~= rest);
}

/// Merging a non-bracket instruction neither adds nor removes brackets,
/// and merging a bracket simply appends it.
proof fn lemma_push_merge_depth(out: Seq<Instruction>, x: Instruction)
    ensures
        net_depth(push_merge(out, x)) == net_depth(out) + bracket_weight(x),
        prefixes_nonneg(out) && !is_bracket(x) ==> prefixes_nonneg(push_merge(out, x)),
    decreases out.len(),
{
    if out.len() == 0 {
        let r = Seq::<Instruction>::empty().push(x);
        assert(seq![x] =~= r);
        lemma_net_depth_snoc(Seq::<Instruction>::empty(), x);
        assert(net_depth(r) == bracket_weight(x));
        if !is_bracket(x) {
            assert forall|i: int| 0 <= i <= r.len() implies depth_at(r, i) >= 0 by {
                if i == 0 {
                    assert(r.take(0) =~= Seq::<Instruction>::empty());
                } else {
                    assert(r.take(1) =~= r);
                }
            }
        }
    } else if fusible(out.last(), x) {
        lemma_push_merge_depth(out.drop_last(), fused(out.last(), x));
        assert(!is_bracket(out.last()) && !is_bracket(x) && !is_bracket(fused(out.last(), x)));
        if prefixes_nonneg(out) {
            lemma_prefixes_nonneg_drop_last(out);
        }
    } else if cancels(out.last(), x) {
        assert(!is_bracket(out.last()) && !is_bracket(x));
        if prefixes_nonneg(out) {
            lemma_prefixes_nonneg_drop_last(out);
        }
    } else {
        lemma_net_depth_snoc(out, x);
        if prefixes_nonneg(out) && !is_bracket(x) {
            let r = out.push(x);
            assert forall|i: int| 0 <= i <= r.len() implies depth_at(r, i) >= 0 by {
                if i <= out.len() {
                    assert(r.take(i) =~= out.take(i));
                    assert(depth_at(out, i) >= 0);
                } else {
                    assert(r.take(i) =~= r);
                    assert(depth_at(out, out.len() as int) >= 0);
                    assert(out.take(out.len() as int) =~= out);
                    assert(net_depth(r) == net_depth(out) + bracket_weight(x));
                    assert(bracket_weight(x) == 0);
                }
            }
        }
    }
}

proof fn lemma_prefixes_nonneg_drop_last(s: Seq<Instruction>)
    requires
        s.len() > 0,
        prefixes_nonneg(s),
    ensures
        prefixes_nonneg(s.drop_last()),
        net_depth(s.drop_last()) == net_depth(s) - bracket_weight(s.last()),
{
    let d = s.drop_last();
    assert forall|i: int| 0 <= i <= d.len() implies depth_at(d, i) >= 0 by {
        assert(d.take(i) =~= s.take(i));
        assert(depth_at(s, i) >= 0);
    }
}

/// The optimizer never touches brackets: the net depth is conserved, and a
/// correctly nested program stays correctly nested.
pub proof fn lemma_optimize_preserves_balance(s: Seq<Instruction>)
    ensures
        net_depth(opt_spec(s)) == net_depth(s),
        prefixes_nonneg(s) ==> prefixes_nonneg(opt_spec(s)),
        balanced(s) ==> balanced(opt_spec(s)),
    decreases s.len(),
{
    if s.len() == 0 {
    } else {
        lemma_optimize_preserves_balance(s.drop_last());
        lemma_push_merge_depth(opt_spec(s.drop_last()), s.last());
        if prefixes_nonneg(s) {
            lemma_prefixes_nonneg_drop_last(s);
            if is_bracket(s.last()) {
                let o = opt_spec(s.drop_last());
                let r = o.push(s.last());
                assert(push_merge(o, s.last()) == r) by {
                    if o.len() > 0 {
                        assert(!fusible(o.last(), s.last()) && !cancels(o.last(), s.last()));
                    } else {
                        assert(seq![s.last()] =~= o.push(s.last()));
                    }
                }
                lemma_net_depth_snoc(o, s.last());
                assert forall|i: int| 0 <= i <= r.len() implies depth_at(r, i) >= 0 by {
                    if i <= o.len() {
                        assert(r.take(i) =~= o.take(i));
                        assert(depth_at(o, i) >= 0);
                    } else {
                        assert(r.take(i) =~= r);
                        crate::instruction::lemma_depth_at_len(s);
                        assert(depth_at(s, s.len() as int) >= 0);
                        assert(net_depth(r) == net_depth(o) + bracket_weight(s.last()));
                        assert(net_depth(o) == net_depth(s.drop_last()));
                        assert(net_depth(s) == net_depth(s.drop_last()) + bracket_weight(s.last()));
                    }
                }
            }
        }
    }
}

/// The machine state in which a small program `prog` is about to run
/// against the given tape, pointer and input.
pub open spec fn fresh_state(
    prog: Seq<Instruction>,
    tape: Seq<u8>,
    dp: int,
    input: Seq<u8>,
) -> MState {
    MState {
        prog: prog,
        ip: 0,
        tape: tape,
        dp: dp,
        stack: Seq::empty(),
        input: input,
        output: Seq::empty(),
        halt: None,
    }
}

/// Run fusion is semantically exact: executing a fusible pair as a
/// program halts in the same tape, pointer and streams as executing the
/// single fused instruction, from every starting tape, pointer and input.
pub proof fn lemma_fused_pair_equivalent(
    a: Instruction,
    b: Instruction,
    tape: Seq<u8>,
    dp: int,
    input: Seq<u8>,
)
    requires
        fusible(a, b),
        count_of(a) + count_of(b) <= usize::MAX,
        0 <= dp < tape.len(),
    ensures
        ({
            let s = steps(fresh_state(seq![a, b], tape, dp, input), 3);
            let t = steps(fresh_state(seq![fused(a, b)], tape, dp, input), 2);
            &&& s.halt == Some(Ok::<(), crate::machine::Error>(()))
            &&& t.halt == Some(Ok::<(), crate::machine::Error>(()))
            &&& s.tape == t.tape
            &&& s.dp == t.dp
            &&& s.input == t.input
            &&& s.output == t.output
        }),
{
    reveal_with_fuel(steps, 4);
    let s0 = fresh_state(seq![a, b], tape, dp, input);
    let t0 = fresh_state(seq![fused(a, b)], tape, dp, input);
    let c = tape[dp] as int;
    match (a, b) {
        (Instruction::Add(x), Instruction::Add(y)) => {
            lemma_cell_fusion(c, x as int, y as int);
            let v1 = (((c + x) % 256) as u8);
            let v2 = (((c + x) % 256 + y) % 256) as u8;
            assert(tape.update(dp, v1)[dp] == v1);
            assert(tape.update(dp, v1).update(dp, v2) =~= tape.update(dp, v2));
        },
        (Instruction::Sub(x), Instruction::Sub(y)) => {
            lemma_cell_fusion(c, x as int, y as int);
            let v1 = (((c - x) % 256) as u8);
            let v2 = (((c - x) % 256 - y) % 256) as u8;
            assert(tape.update(dp, v1)[dp] == v1);
            assert(tape.update(dp, v1).update(dp, v2) =~= tape.update(dp, v2));
        },
        (Instruction::Right(x), Instruction::Right(y)) => {
            lemma_move_fusion(dp, x as int, y as int, tape.len() as int);
        },
        (Instruction::Left(x), Instruction::Left(y)) => {
            lemma_move_fusion(dp, x as int, y as int, tape.len() as int);
        },
        _ => {},
    }
}

/// The pointer stays strictly on the tape while a cancelling pair runs:
/// an `Add`/`Sub` pair always does; a move pair must not get clamped at
/// the last cell nor saturated at cell 0, or cancelling it would move
/// where the pointer ends up.
pub open spec fn cancel_in_bounds(a: Instruction, b: Instruction, dp: int, len: int) -> bool {
    match (a, b) {
        (Instruction::Right(x), Instruction::Left(_)) => dp + x <= len - 1,
        (Instruction::Left(x), Instruction::Right(_)) => dp - x >= 0,
        _ => true,
    }
}

/// Run cancellation is semantically exact away from the tape edges:
/// executing an equal-count opposite pair whose first move stays on the
/// tape halts with the tape, pointer and streams it started with, exactly
/// as the empty program does.
pub proof fn lemma_cancelling_pair_is_noop(
    a: Instruction,
    b: Instruction,
    tape: Seq<u8>,
    dp: int,
    input: Seq<u8>,
)
    requires
        cancels(a, b),
        cancel_in_bounds(a, b, dp, tape.len() as int),
        0 <= dp < tape.len(),
    ensures
        ({
            let s = steps(fresh_state(seq![a, b], tape, dp, input), 3);
            &&& s.halt == Some(Ok::<(), crate::machine::Error>(()))
            &&& s.tape == tape
            &&& s.dp == dp
            &&& s.input == input
            &&& s.output == Seq::<u8>::empty()
        }),
{
    reveal_with_fuel(steps, 4);
    let s0 = fresh_state(seq![a, b], tape, dp, input);
    let c = tape[dp] as int;
    match (a, b) {
        (Instruction::Add(x), Instruction::Sub(y)) => {
            lemma_cell_fusion(c, x as int, 0);
            let v1 = (((c + x) % 256) as u8);
            let v2 = (((c + x) % 256 - x) % 256) as u8;
            assert(tape.update(dp, v1)[dp] == v1);
            assert(v2 == tape[dp]);
            assert(tape.update(dp, v1).update(dp, v2) =~= tape);
        },
        (Instruction::Sub(x), Instruction::Add(y)) => {
            lemma_cell_fusion(c, x as int, 0);
            let v1 = (((c - x) % 256) as u8);
            let v2 = (((c - x) % 256 + x) % 256) as u8;
            assert(tape.update(dp, v1)[dp] == v1);
            assert(v2 == tape[dp]);
            assert(tape.update(dp, v1).update(dp, v2) =~= tape);
        },
        (Instruction::Right(x), Instruction::Left(y)) => {
            lemma_move_cancellation(dp, x as int, tape.len() as int);
        },
        (Instruction::Left(x), Instruction::Right(y)) => {
            lemma_move_cancellation(dp, x as int, tape.len() as int);
        },
        _ => {},
    }
}

} // verus!
