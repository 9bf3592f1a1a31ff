//! Semantic equivalence of a straight-line program and its optimized
//! form. A bracket-free instruction sequence denotes a fold of per-
//! instruction effects over the tape, pointer and streams; the machine is
//! proved to realize that fold, and the optimizer is proved to preserve
//! it wherever no pointer move is clamped at the last cell or saturated
//! at cell 0. At those edges cancellation genuinely changes where the
//! pointer lands, so the boundary condition is part of the law.

use vstd::prelude::*;

use crate::instruction::{count_of, count_sum, is_bracket, lemma_count_sum_snoc, Instruction};
use crate::machine::{
    left_move, lemma_cell_fusion, lemma_move_cancellation, lemma_move_fusion, right_move, step,
    steps,
};
use crate::optimizer::{cancels, fresh_state, fused, fusible, opt_spec, push_merge};

verus! {

/// A program without loop brackets: it runs straight through.
pub open spec fn bracket_free(s: Seq<Instruction>) -> bool {
    forall|i: int| 0 <= i < s.len() ==> !is_bracket(#[trigger] s[i])
}

/// The data a straight-line program acts on: the tape, the data pointer
/// and the two byte streams.
#[verifier::ext_equal]
pub ghost struct Store {
    pub tape: Seq<u8>,
    pub dp: int,
    pub input: Seq<u8>,
    pub output: Seq<u8>,
}

/// The effect of one non-bracket instruction on the store; a bracket
/// leaves it unchanged.
pub open spec fn apply1(x: Instruction, st: Store) -> Store {
    match x {
        Instruction::Right(n) => Store {
            dp: right_move(st.dp, n as int, st.tape.len() as int),
            ..st
        },
        Instruction::Left(n) => Store { dp: left_move(st.dp, n as int), ..st },
        Instruction::Add(n) => Store {
            tape: st.tape.update(st.dp, (((st.tape[st.dp] + n) % 256) as u8)),
            ..st
        },
        Instruction::Sub(n) => Store {
            tape: st.tape.update(st.dp, (((st.tape[st.dp] - n) % 256) as u8)),
            ..st
        },
        Instruction::Out => Store { output: st.output.push(st.tape[st.dp]), ..st },
        Instruction::In => if st.input.len() > 0 {
            Store { tape: st.tape.update(st.dp, st.input[0]), input: st.input.drop_first(), ..st }
        } else {
            Store { tape: st.tape.update(st.dp, 0u8), ..st }
        },
        _ => st,
    }
}

/// The effect of a whole sequence, applied left to right.
pub open spec fn apply_all(s: Seq<Instruction>, st: Store) -> Store
    decreases s.len(),
{
    if s.len() == 0 {
        st
    } else {
        apply1(s.last(), apply_all(s.drop_last(), st))
    }
}

/// The given instruction, run on the given store, is not clamped at the
/// last cell nor saturated at cell 0.
pub open spec fn clip_free_step(x: Instruction, st: Store) -> bool {
    match x {
        Instruction::Right(n) => st.dp + n <= st.tape.len() - 1,
        Instruction::Left(n) => st.dp - n >= 0,
        _ => true,
    }
}

/// No pointer move in the run of `s` from `st` touches a tape edge.
pub open spec fn clip_free(s: Seq<Instruction>, st: Store) -> bool
    decreases s.len(),
{
    if s.len() == 0 {
        true
    } else {
        clip_free(s.drop_last(), st) && clip_free_step(s.last(), apply_all(s.drop_last(), st))
    }
}

/// A store keeps its tape length and its pointer on the tape under every
/// instruction.
proof fn lemma_apply_all_dp(s: Seq<Instruction>, st: Store)
    requires
        0 <= st.dp < st.tape.len(),
    ensures
        apply_all(s, st).tape.len() == st.tape.len(),
        0 <= apply_all(s, st).dp < st.tape.len(),
    decreases s.len(),
{
    if s.len() > 0 {
        lemma_apply_all_dp(s.drop_last(), st);
    }
}

/// The machine realizes the fold: running a bracket-free program for as
/// many steps as it has instructions, plus one to halt, ends successfully
/// in exactly the fold of its effects.
pub proof fn lemma_machine_runs_straightline(
    prog: Seq<Instruction>,
    tape: Seq<u8>,
    dp: int,
    input: Seq<u8>,
    i: int,
)
    requires
        bracket_free(prog),
        0 <= dp < tape.len(),
        0 <= i <= prog.len(),
    ensures
        ({
            let m = steps(fresh_state(prog, tape, dp, input), i as nat);
            let st = apply_all(
                prog.take(i),
                Store { tape: tape, dp: dp, input: input, output: Seq::empty() },
            );
            &&& m.halt is None
            &&& m.ip == i
            &&& m.prog == prog
            &&& m.stack == Seq::<int>::empty()
            &&& m.tape == st.tape
            &&& m.dp == st.dp
            &&& m.input == st.input
            &&& m.output == st.output
        }),
    decreases i,
{
    let st0 = Store { tape: tape, dp: dp, input: input, output: Seq::empty() };
    if i == 0 {
        assert(prog.take(0) =~= Seq::<Instruction>::empty());
    } else {
        lemma_machine_runs_straightline(prog, tape, dp, input, i - 1);
        lemma_apply_all_dp(prog.take(i - 1), st0);
        let m = steps(fresh_state(prog, tape, dp, input), (i - 1) as nat);
        assert(steps(fresh_state(prog, tape, dp, input), i as nat) == step(m));
        assert(prog.take(i).drop_last() =~= prog.take(i - 1));
        assert(prog.take(i).last() == prog[i - 1]);
        assert(!is_bracket(prog[i - 1]));
    }
}

/// Applying one fusible or cancelling pair equals applying the fused
/// instruction, or nothing: the pointwise soundness of the two rules.
proof fn lemma_apply1_pair(t: Instruction, x: Instruction, st: Store)
    requires
        0 <= st.dp < st.tape.len(),
        count_of(t) + count_of(x) <= usize::MAX,
    ensures
        fusible(t, x) ==> apply1(x, apply1(t, st)) == apply1(fused(t, x), st),
        cancels(t, x) && clip_free_step(t, st) ==> apply1(x, apply1(t, st)) == st,
{
    let c = st.tape[st.dp] as int;
    let mid = apply1(t, st);
    if fusible(t, x) || cancels(t, x) {
        match (t, x) {
            (Instruction::Add(a), Instruction::Add(b)) => {
                lemma_cell_fusion(c, a as int, b as int);
                assert(mid.tape[st.dp] as int == (c + a) % 256);
                assert(st.tape.update(st.dp, (((c + a) % 256) as u8)).update(
                    st.dp,
                    ((((c + a) % 256 + b) % 256) as u8),
                ) =~= st.tape.update(st.dp, (((c + (a + b)) % 256) as u8)));
                assert(apply1(x, mid) =~= apply1(fused(t, x), st));
            },
            (Instruction::Sub(a), Instruction::Sub(b)) => {
                lemma_cell_fusion(c, a as int, b as int);
                assert(mid.tape[st.dp] as int == (c - a) % 256);
                assert(st.tape.update(st.dp, (((c - a) % 256) as u8)).update(
                    st.dp,
                    ((((c - a) % 256 - b) % 256) as u8),
                ) =~= st.tape.update(st.dp, (((c - (a + b)) % 256) as u8)));
                assert(apply1(x, mid) =~= apply1(fused(t, x), st));
            },
            (Instruction::Right(a), Instruction::Right(b)) => {
                lemma_move_fusion(st.dp, a as int, b as int, st.tape.len() as int);
                assert(apply1(x, mid) =~= apply1(fused(t, x), st));
            },
            (Instruction::Left(a), Instruction::Left(b)) => {
                lemma_move_fusion(st.dp, a as int, b as int, st.tape.len() as int);
                assert(apply1(x, mid) =~= apply1(fused(t, x), st));
            },
            (Instruction::Add(a), Instruction::Sub(b)) => {
                lemma_cell_fusion(c, a as int, 0);
                assert(mid.tape[st.dp] as int == (c + a) % 256);
                assert((((c + a) % 256 - a) % 256) as u8 == st.tape[st.dp]);
                assert(apply1(x, mid).tape =~= st.tape);
                assert(apply1(x, mid) =~= st);
            },
            (Instruction::Sub(a), Instruction::Add(b)) => {
                lemma_cell_fusion(c, a as int, 0);
                assert(mid.tape[st.dp] as int == (c - a) % 256);
                assert((((c - a) % 256 + a) % 256) as u8 == st.tape[st.dp]);
                assert(apply1(x, mid).tape =~= st.tape);
                assert(apply1(x, mid) =~= st);
            },
            (Instruction::Right(a), Instruction::Left(b)) => {
                if clip_free_step(t, st) {
                    lemma_move_cancellation(st.dp, a as int, st.tape.len() as int);
                    assert(apply1(x, mid) =~= st);
                }
            },
            (Instruction::Left(a), Instruction::Right(b)) => {
                if clip_free_step(t, st) {
                    lemma_move_cancellation(st.dp, a as int, st.tape.len() as int);
                    assert(apply1(x, mid) =~= st);
                }
            },
            _ => {},
        }
    }
}

/// Merging one non-bracket instruction into a bracket-free, clip-free
/// output sequence extends its effect by exactly that instruction's
/// effect, and the merged sequence is bracket-free and clip-free again.
proof fn lemma_push_merge_effect(out: Seq<Instruction>, x: Instruction, st: Store)
    requires
        bracket_free(out),
        !is_bracket(x),
        0 <= st.dp < st.tape.len(),
        count_sum(out) + count_of(x) <= usize::MAX,
        clip_free(out, st),
        clip_free_step(x, apply_all(out, st)),
    ensures
        apply_all(push_merge(out, x), st) == apply1(x, apply_all(out, st)),
        clip_free(push_merge(out, x), st),
        bracket_free(push_merge(out, x)),
        count_sum(push_merge(out, x)) <= count_sum(out) + count_of(x),
    decreases out.len(),
{
    if out.len() == 0 {
        let r = seq![x];
        assert(r.drop_last() =~= Seq::<Instruction>::empty());
        assert(r.last() == x);
        lemma_count_sum_snoc(Seq::<Instruction>::empty(), x);
        assert(Seq::<Instruction>::empty().push(x) =~= r);
        assert(push_merge(out, x) == r);
        assert(apply_all(out, st) == st);
        assert(clip_free(Seq::<Instruction>::empty(), st));
        assert(apply_all(Seq::<Instruction>::empty(), st) == st);
        assert(apply_all(r, st) == apply1(x, st));
        assert(clip_free(r, st));
        assert(bracket_free(r));
    } else {
        let o = out.drop_last();
        let t = out.last();
        let y = apply_all(o, st);
        lemma_apply_all_dp(o, st);
        assert(bracket_free(o));
        if fusible(t, x) {
            let f = fused(t, x);
            assert(count_of(f) == count_of(t) + count_of(x));
            assert(clip_free_step(f, y)) by {
                assert(clip_free_step(t, y));
                assert(apply_all(out, st) == apply1(t, y));
            }
            lemma_push_merge_effect(o, f, st);
            lemma_apply1_pair(t, x, y);
            assert(apply_all(out, st) == apply1(t, y));
            assert(push_merge(out, x) == push_merge(o, f));
            assert(apply_all(push_merge(o, f), st) == apply1(f, y));
            assert(apply1(f, y) == apply1(x, apply1(t, y)));
        } else if cancels(t, x) {
            assert(clip_free_step(t, y));
            lemma_apply1_pair(t, x, y);
            assert(apply_all(out, st) == apply1(t, y));
            assert(apply1(x, apply_all(out, st)) == y);
            assert(push_merge(out, x) == o);
        } else {
            let r = out.push(x);
            assert(r.drop_last() =~= out);
            assert(r.last() == x);
            lemma_count_sum_snoc(out, x);
            assert forall|i: int| 0 <= i < r.len() implies !is_bracket(#[trigger] r[i]) by {
                if i < out.len() {
                    assert(r[i] == out[i]);
                } else {
                    assert(r[i] == x);
                }
            }
            assert(push_merge(out, x) == r);
            assert(apply_all(r, st) == apply1(x, apply_all(out, st)));
            assert(clip_free(r, st));
        }
    }
}

/// The optimizer preserves the fold: on a bracket-free program whose run
/// never touches a tape edge, the optimized sequence has exactly the same
/// effect on the tape, the pointer and both streams, and is itself
/// bracket-free and clip-free.
pub proof fn lemma_opt_spec_preserves_effect(s: Seq<Instruction>, st: Store)
    requires
        bracket_free(s),
        0 <= st.dp < st.tape.len(),
        count_sum(s) <= usize::MAX,
        clip_free(s, st),
    ensures
        apply_all(opt_spec(s), st) == apply_all(s, st),
        clip_free(opt_spec(s), st),
        bracket_free(opt_spec(s)),
        count_sum(opt_spec(s)) <= count_sum(s),
    decreases s.len(),
{
    if s.len() == 0 {
    } else {
        let s1 = s.drop_last();
        let x = s.last();
        assert(bracket_free(s1));
        assert(!is_bracket(x));
        lemma_opt_spec_preserves_effect(s1, st);
        assert(clip_free_step(x, apply_all(opt_spec(s1), st)));
        lemma_push_merge_effect(opt_spec(s1), x, st);
    }
}

/// Semantic equivalence for straight-line programs: away from the tape
/// edges, a bracket-free program and its optimized form, run by the
/// machine against the same tape, pointer and input, both halt
/// successfully with identical tapes, pointers and streams.
pub proof fn lemma_optimized_straightline_equivalent(
    s: Seq<Instruction>,
    tape: Seq<u8>,
    dp: int,
    input: Seq<u8>,
)
    requires
        bracket_free(s),
        0 <= dp < tape.len(),
        count_sum(s) <= usize::MAX,
        clip_free(s, Store { tape: tape, dp: dp, input: input, output: Seq::empty() }),
    ensures
        ({
            let a = steps(fresh_state(s, tape, dp, input), (s.len() + 1) as nat);
            let b = steps(
                fresh_state(opt_spec(s), tape, dp, input),
                (opt_spec(s).len() + 1) as nat,
            );
            &&& a.halt == Some(Ok::<(), crate::machine::Error>(()))
            &&& b.halt == Some(Ok::<(), crate::machine::Error>(()))
            &&& a.tape == b.tape
            &&& a.dp == b.dp
            &&& a.input == b.input
            &&& a.output == b.output
        }),
{
    let st0 = Store { tape: tape, dp: dp, input: input, output: Seq::empty() };
    lemma_opt_spec_preserves_effect(s, st0);
    lemma_machine_runs_straightline(s, tape, dp, input, s.len() as int);
    lemma_machine_runs_straightline(opt_spec(s), tape, dp, input, opt_spec(s).len() as int);
    assert(s.take(s.len() as int) =~= s);
    assert(opt_spec(s).take(opt_spec(s).len() as int) =~= opt_spec(s));
    let ma = steps(fresh_state(s, tape, dp, input), s.len() as nat);
    let mb = steps(fresh_state(opt_spec(s), tape, dp, input), opt_spec(s).len() as nat);
    assert(steps(fresh_state(s, tape, dp, input), (s.len() + 1) as nat) == step(ma));
    assert(steps(fresh_state(opt_spec(s), tape, dp, input), (opt_spec(s).len() + 1) as nat)
        == step(mb));
}

} // verus!
