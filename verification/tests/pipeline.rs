use brainfuck::Brainfuck;
use brainfuck::Error;
use brainfuck::Instruction::{self, Add, Close, In, Left, Open, Out, Right, Sub};
use brainfuck::optimizer::optimize;
use brainfuck::parser::parse;

fn raw_and_optimized(source: &str, input: &[u8]) -> ((Result<(), Error>, Vec<u8>, Vec<u8>), (Result<(), Error>, Vec<u8>, Vec<u8>)) {
    let mut raw = Brainfuck::from_instructions(parse(source.as_bytes()));
    let mut raw_output = Vec::new();
    let raw_result = raw.run(input, &mut raw_output);
    let raw_tape = raw.tape(0, 32).to_vec();

    let mut optimized = Brainfuck::new(source);
    let mut opt_output = Vec::new();
    let opt_result = optimized.run(input, &mut opt_output);
    let opt_tape = optimized.tape(0, 32).to_vec();

    ((raw_result, raw_output, raw_tape), (opt_result, opt_output, opt_tape))
}

#[test]
fn balanced_program_succeeds() {
    let mut brainfuck = Brainfuck::new("++[->+<]>[-<+>]<[.-]");
    let mut output = Vec::new();
    let result = brainfuck.run(&[], &mut output);

    assert!(result.is_ok());
    assert_eq!(vec![2, 1], output);
}

#[test]
fn close_without_open_on_nonzero_cell_fails() {
    let mut brainfuck = Brainfuck::new("+]");
    let result = brainfuck.run_pure();

    assert_eq!(Err(Error::UnbalancedParens), result);
}

#[test]
fn close_without_open_on_zero_cell_is_skipped() {
    let mut brainfuck = Brainfuck::new("]+");
    let result = brainfuck.run_pure();

    assert_eq!(Ok(()), result);
    assert_eq!(&[1], brainfuck.tape(0, 1));
}

#[test]
fn open_without_close_on_zero_cell_ends_silently() {
    let mut brainfuck = Brainfuck::new("[+");
    let result = brainfuck.run_pure();

    assert_eq!(Ok(()), result);
    assert_eq!(&[0], brainfuck.tape(0, 1));
}

#[test]
fn increments_wrap_at_256() {
    let mut brainfuck = Brainfuck::new(&"+".repeat(256));
    let result = brainfuck.run_pure();

    assert_eq!(Ok(()), result);
    assert_eq!(&[0], brainfuck.tape(0, 1));
}

#[test]
fn decrement_on_zero_cell_wraps_to_255() {
    let mut brainfuck = Brainfuck::new("-");
    let result = brainfuck.run_pure();

    assert_eq!(Ok(()), result);
    assert_eq!(&[255], brainfuck.tape(0, 1));
}

#[test]
fn right_clamps_at_last_tape_index() {
    let mut brainfuck = Brainfuck::new(&">".repeat(40_000));
    let result = brainfuck.run_pure();

    assert_eq!(Ok(()), result);
    assert_eq!(29_999, brainfuck.tape_pointer());
}

#[test]
fn left_saturates_at_zero() {
    let mut brainfuck = Brainfuck::new(">><<<<<");
    let result = brainfuck.run_pure();

    assert_eq!(Ok(()), result);
    assert_eq!(0, brainfuck.tape_pointer());
}

#[test]
fn in_past_end_of_input_reads_zero() {
    let input = [7];
    let mut output = Vec::new();
    let mut brainfuck = Brainfuck::new(",>,");
    let result = brainfuck.run(&input, &mut output);

    assert_eq!(Ok(()), result);
    assert_eq!(&[7, 0], brainfuck.tape(0, 2));
}

#[test]
fn optimize_is_idempotent() {
    let program = vec![Out, Add(1), Add(1), Sub(2), Right(3), Right(1), Left(4), In, Open, Add(1), Sub(1), Close];
    let once = optimize(program);
    let twice = optimize(once.clone());

    assert_eq!(once, twice);
}

#[test]
fn fusion_matches_fused_instruction() {
    assert_eq!(optimize(vec![Add(2), Add(3), Out]), optimize(vec![Add(5), Out]));
    assert_eq!(optimize(vec![Sub(2), Sub(3)]), vec![Sub(5)]);
    assert_eq!(optimize(vec![Right(2), Right(3)]), vec![Right(5)]);
    assert_eq!(optimize(vec![Left(2), Left(3)]), vec![Left(5)]);
}

#[test]
fn cancellation_removes_opposite_pairs() {
    assert_eq!(optimize(vec![Add(4), Sub(4)]), Vec::<Instruction>::new());
    assert_eq!(optimize(vec![Sub(4), Add(4)]), Vec::<Instruction>::new());
    assert_eq!(optimize(vec![Right(4), Left(4)]), Vec::<Instruction>::new());
    assert_eq!(optimize(vec![Left(4), Right(4)]), Vec::<Instruction>::new());
}

#[test]
fn optimizer_does_not_merge_across_boundaries() {
    assert_eq!(
        optimize(vec![Add(1), Out, Add(1), In, Add(1), Open, Add(1), Close, Add(1)]),
        vec![Add(1), Out, Add(1), In, Add(1), Open, Add(1), Close, Add(1)]
    );
}

#[test]
fn parse_maps_symbols_and_skips_the_rest() {
    assert_eq!(
        parse(b"+- >\n<.x,[]"),
        vec![Add(1), Sub(1), Right(1), Left(1), Out, In, Open, Close]
    );
    assert_eq!(parse(b"no instructions here?!"), Vec::<Instruction>::new());
}

#[test]
fn raw_and_optimized_agree_on_io_program() {
    let (raw, optimized) = raw_and_optimized(",.>,.>,.", &[9, 8, 7]);
    assert_eq!(raw, optimized);
}

#[test]
fn raw_and_optimized_agree_on_loop_program() {
    let (raw, optimized) = raw_and_optimized("++++[->++++<]>+.", &[]);
    assert_eq!(raw, optimized);
    assert_eq!(vec![17], raw.1);
}

#[test]
fn raw_and_optimized_agree_on_hello_world() {
    let (raw, optimized) = raw_and_optimized(
        "++++++++[>++++[>++>+++>+++>+<<<<-]>+>+>->>+[<]<-]>>.>---\
        .+++++++..+++.>>.<-.<.+++.------.--------.>>+.>++.\n",
        &[],
    );
    assert_eq!(raw, optimized);
    assert_eq!("Hello World!\n", String::from_utf8(raw.1.clone()).unwrap());
}

#[test]
fn emits_byte_three() {
    let mut output = Vec::new();
    let mut brainfuck = Brainfuck::new("+++.");
    let result = brainfuck.run(&[], &mut output);

    assert_eq!(Ok(()), result);
    assert_eq!(vec![3], output);
}

#[test]
fn emits_three_two_one() {
    let mut output = Vec::new();
    let mut brainfuck = Brainfuck::new("+>++>+++.<.<.");
    let result = brainfuck.run(&[], &mut output);

    assert_eq!(Ok(()), result);
    assert_eq!(vec![3, 2, 1], output);
}

#[test]
fn reads_input_onto_tape() {
    let mut output = Vec::new();
    let mut brainfuck = Brainfuck::new(",>,>,");
    let result = brainfuck.run(&[5, 4, 3], &mut output);

    assert_eq!(Ok(()), result);
    assert_eq!(&[5, 4, 3], brainfuck.tape(0, 3));
    assert_eq!(2, brainfuck.tape_pointer());
}

#[test]
fn run_consumes_one_input_byte_per_in() {
    let mut output = Vec::new();
    let mut brainfuck = Brainfuck::new(",,,.");
    let result = brainfuck.run(&[1, 2, 3, 4, 5], &mut output);

    assert_eq!(Ok(()), result);
    assert_eq!(vec![3], output);
}

#[test]
fn output_is_appended_not_replaced() {
    let mut output = vec![42];
    let mut brainfuck = Brainfuck::new("+.");
    let result = brainfuck.run(&[], &mut output);

    assert_eq!(Ok(()), result);
    assert_eq!(vec![42, 1], output);
}

#[test]
fn cancellation_at_the_left_edge_moves_the_write() {
    // Unoptimized, `<` saturates at cell 0 and `>` then reaches cell 1;
    // optimized, the pair cancels and the increment lands on cell 0. This
    // is the tape-edge boundary on which raw and optimized runs diverge.
    let mut raw = Brainfuck::from_instructions(parse(b"<>+"));
    assert_eq!(Ok(()), raw.run_pure());
    assert_eq!(&[0, 1], raw.tape(0, 2));

    let mut optimized = Brainfuck::new("<>+");
    assert_eq!(Ok(()), optimized.run_pure());
    assert_eq!(&[1, 0], optimized.tape(0, 2));
}
