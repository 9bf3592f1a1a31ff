//! Translation of raw source bytes into unit-count instructions. The eight
//! recognized symbols map to their instruction; every other byte is skipped
//! silently, so parsing never fails and performs no bracket validation.

use vstd::prelude::*;

use crate::instruction::{count_of, count_sum, Instruction};

verus! {

/// The fixed byte-to-instruction mapping; unrecognized bytes map to `None`.
pub open spec fn parse_byte_spec(b: u8) -> Option<Instruction> {
    if b == 43 {
        Some(Instruction::Add(1))
    } else if b == 45 {
        Some(Instruction::Sub(1))
    } else if b == 62 {
        Some(Instruction::Right(1))
    } else if b == 60 {
        Some(Instruction::Left(1))
    } else if b == 46 {
        Some(Instruction::Out)
    } else if b == 44 {
        Some(Instruction::In)
    } else if b == 91 {
        Some(Instruction::Open)
    } else if b == 93 {
        Some(Instruction::Close)
    } else {
        None
    }
}

/// The instruction sequence a byte sequence parses to: each recognized byte
/// contributes its instruction, in order; other bytes contribute nothing.
pub open spec fn parse_spec(s: Seq<u8>) -> Seq<Instruction>
    decreases s.len(),
{
    if s.len() == 0 {
        Seq::empty()
    } else {
        parse_spec(s.drop_last()) + (match parse_byte_spec(s.last()) {
            Some(i) => seq![i],
            None => Seq::empty(),
        })
    }
}

pub fn parse_byte(b: &u8) -> (r: Option<Instruction>)
    ensures
        r == parse_byte_spec(*b),
{
    match *b {
        43 => Some(Instruction::Add(1)),
        45 => Some(Instruction::Sub(1)),
        62 => Some(Instruction::Right(1)),
        60 => Some(Instruction::Left(1)),
        46 => Some(Instruction::Out),
        44 => Some(Instruction::In),
        91 => Some(Instruction::Open),
        93 => Some(Instruction::Close),
        _ => None,
    }
}

pub fn parse(bytes: &[u8]) -> (r: Vec<Instruction>)
    ensures
        r@ == parse_spec(bytes@),
{
    let mut instructions: Vec<Instruction> = Vec::new();
    let mut i: usize = 0;
    while i < bytes.len()
        invariant
            i <= bytes@.len(),
            instructions@ == parse_spec(bytes@.take(i as int)),
        decreases bytes@.len() - i,
    {
        proof {
            assert(bytes@.take(i + 1).drop_last() =~= bytes@.take(i as int));
            assert(bytes@.take(i + 1).last() == bytes@[i as int]);
        }
        if let Some(inst) = parse_byte(&bytes[i]) {
            instructions.push(inst);
            proof {
                assert(instructions@ =~= parse_spec(bytes@.take(i + 1)));
            }
        } else {
            proof {
                assert(instructions@ =~= parse_spec(bytes@.take(i + 1)));
            }
        }
        i = i + 1;
    }
    proof {
        assert(bytes@.take(bytes@.len() as int) =~= bytes@);
    }
    instructions
}

/// Every parsed instruction carries count 1 or none, so the run-length sum
/// of a parse is bounded by the number of source bytes.
pub proof fn lemma_parse_spec_count_sum(s: Seq<u8>)
    ensures
        count_sum(parse_spec(s)) <= s.len(),
    decreases s.len(),
{
    if s.len() == 0 {
    } else {
        lemma_parse_spec_count_sum(s.drop_last());
        match parse_byte_spec(s.last()) {
            Some(i) => {
                assert(parse_spec(s.drop_last()) + seq![i] =~= parse_spec(s.drop_last()).push(i));
                crate::instruction::lemma_count_sum_snoc(parse_spec(s.drop_last()), i);
                assert(count_of(i) <= 1);
            },
            None => {
                assert(parse_spec(s.drop_last()) + Seq::<Instruction>::empty() =~= parse_spec(
                    s.drop_last(),
                ));
            },
        }
    }
}

} // verus!
