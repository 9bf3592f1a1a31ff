use brainfuck::Brainfuck;

#[test]
fn brainfuck_initialized() {
    let brainfuck = Brainfuck::new("");

    assert_eq!(0, brainfuck.tape_pointer());
    assert_eq!(&[0, 0, 0, 0], brainfuck.tape(0, 4));
}

#[test]
fn brainfuck_instruction_greater_than() {
    let mut brainfuck = Brainfuck::new(">");
    let result = brainfuck.run_pure();

    assert_eq!((), result.unwrap());
    assert_eq!(1, brainfuck.tape_pointer());
}

#[test]
fn brainfuck_instruction_less_than() {
    let mut brainfuck = Brainfuck::new("<");
    let result = brainfuck.run_pure();

    assert_eq!((), result.unwrap());
    assert_eq!(0, brainfuck.tape_pointer());
}

#[test]
fn brainfuck_instruction_less_than_2() {
    let mut brainfuck = Brainfuck::new(">><");
    let result = brainfuck.run_pure();

    assert_eq!((), result.unwrap());
    assert_eq!(1, brainfuck.tape_pointer());
}

#[test]
fn brainfuck_instruction_plus() {
    let mut brainfuck = Brainfuck::new("+");
    let result = brainfuck.run_pure();

    assert_eq!((), result.unwrap());
    assert_eq!(&[1], brainfuck.tape(0, 1));
}

#[test]
fn brainfuck_instruction_plus_2() {
    let mut brainfuck = Brainfuck::new("++>++>++");
    let result = brainfuck.run_pure();

    assert_eq!((), result.unwrap());
    assert_eq!(&[2, 2, 2], brainfuck.tape(0, 3));
}

#[test]
fn brainfuck_instruction_minus() {
    let mut brainfuck = Brainfuck::new("-");
    let result = brainfuck.run_pure();

    assert_eq!((), result.unwrap());
    assert_eq!(&[255], brainfuck.tape(0, 1));
}

#[test]
fn brainfuck_instruction_minus_2() {
    let mut brainfuck = Brainfuck::new("-->-->--");
    let result = brainfuck.run_pure();

    assert_eq!((), result.unwrap());
    assert_eq!(&[254, 254, 254], brainfuck.tape(0, 3));
}

#[test]
fn brainfuck_instruction_dot() {
    let mut output: Vec<u8> = Vec::new();
    let mut brainfuck = Brainfuck::new(".");
    let result = brainfuck.run(&[], &mut output);

    assert_eq!((), result.unwrap());
    assert_eq!(vec!(0), output);
}

#[test]
fn brainfuck_instruction_dot_2() {
    let mut output = Vec::new();
    let mut brainfuck = Brainfuck::new("+>++>+++.<.<.");
    let result = brainfuck.run(&[], &mut output);

    assert_eq!((), result.unwrap());
    assert_eq!(vec!(3, 2, 1), output);
}

#[test]
fn brainfuck_instruction_comma() {
    let input = [5, 4, 3];
    let mut output: Vec<u8> = Vec::new();
    let mut brainfuck = Brainfuck::new(",>,>,");
    let result = brainfuck.run(&input, &mut output);

    assert_eq!((), result.unwrap());
    assert_eq!(&[5, 4, 3], brainfuck.tape(0, 3));
}

#[test]
fn brainfuck_instruction_comma_2() {
    let input = [5, 4, 3];
    let mut output = Vec::new();
    let mut brainfuck = Brainfuck::new(",.>,.>,.");
    let result = brainfuck.run(&input, &mut output);

    assert_eq!((), result.unwrap());
    assert_eq!(vec!(5, 4, 3), output);
}

#[test]
fn brainfuck_hello_world() {
    let mut brainfuck = Brainfuck::new(
        "++++++++[>++++[>++>+++>+++>+<<<<-]>+>+>->>+[<]<-]>>.>---\
        .+++++++..+++.>>.<-.<.+++.------.--------.>>+.>++.\n"
    );

    let mut output = Vec::new();
    let result = brainfuck.run(&[], &mut output);

    assert_eq!((), result.unwrap());
    assert_eq!(
        "Hello World!\n",
        String::from_utf8(output).unwrap()
    );
}

#[test]
fn brainfuck_hello_world_complex() {
    let mut brainfuck = Brainfuck::new(
        ">++++++++[-<+++++++++>]<.>>+>-[+]++>++>+++[>[->+++<<+++>]<<]\
        >-----.>->+++..+++.>-.<<+[>[+>+]>>]<--------------.>>.+++.---\
        ---.--------.>+.>+."
    );

    let mut output = Vec::new();
    let result = brainfuck.run(&[], &mut output);

    assert_eq!((), result.unwrap());
    assert_eq!(
        "Hello World!\n",
        String::from_utf8(output).unwrap()
    );
}

#[test]
fn interpreter_initialized() {
    let brainfuck = Brainfuck::new("");

    assert_eq!(0, brainfuck.tape_pointer());
    assert_eq!(&[0, 0, 0, 0], brainfuck.tape(0, 4));
}

#[test]
fn interpreter_instruction_greater_than() {
    let mut brainfuck = Brainfuck::new(">");
    let result = brainfuck.run_pure();

    assert_eq!((), result.unwrap());
    assert_eq!(1, brainfuck.tape_pointer());
}

#[test]
fn interpreter_instruction_less_than() {
    let mut brainfuck = Brainfuck::new("<");
    let result = brainfuck.run_pure();

    assert_eq!((), result.unwrap());
    assert_eq!(0, brainfuck.tape_pointer());
}

#[test]
fn interpreter_instruction_less_than_2() {
    let mut brainfuck = Brainfuck::new(">><");
    let result = brainfuck.run_pure();

    assert_eq!((), result.unwrap());
    assert_eq!(1, brainfuck.tape_pointer());
}

#[test]
fn interpreter_instruction_plus() {
    let mut brainfuck = Brainfuck::new("+");
    let result = brainfuck.run_pure();

    assert_eq!((), result.unwrap());
    assert_eq!(&[1], brainfuck.tape(0, 1));
}

#[test]
fn interpreter_instruction_plus_2() {
    let mut brainfuck = Brainfuck::new("++>++>++");
    let result = brainfuck.run_pure();

    assert_eq!((), result.unwrap());
    assert_eq!(&[2, 2, 2], brainfuck.tape(0, 3));
}

#[test]
fn interpreter_instruction_minus() {
    let mut brainfuck = Brainfuck::new("-");
    let result = brainfuck.run_pure();

    assert_eq!((), result.unwrap());
    assert_eq!(&[255], brainfuck.tape(0, 1));
}

#[test]
fn interpreter_instruction_minus_2() {
    let mut brainfuck = Brainfuck::new("-->-->--");
    let result = brainfuck.run_pure();

    assert_eq!((), result.unwrap());
    assert_eq!(&[254, 254, 254], brainfuck.tape(0, 3));
}

#[test]
fn interpreter_instruction_dot() {
    let mut output: Vec<u8> = Vec::new();
    let mut brainfuck = Brainfuck::new(".");
    let result = brainfuck.run(&[], &mut output);

    assert_eq!((), result.unwrap());
    assert_eq!(vec!(0), output);
}

#[test]
fn interpreter_instruction_dot_2() {
    let mut output = Vec::new();
    let mut brainfuck = Brainfuck::new("+>++>+++.<.<.");
    let result = brainfuck.run(&[], &mut output);

    assert_eq!((), result.unwrap());
    assert_eq!(vec!(3, 2, 1), output);
}

#[test]
fn interpreter_instruction_comma() {
    let input = [5, 4, 3];
    let mut output: Vec<u8> = Vec::new();
    let mut brainfuck = Brainfuck::new(",>,>,");
    let result = brainfuck.run(&input, &mut output);

    assert_eq!((), result.unwrap());
    assert_eq!(&[5, 4, 3], brainfuck.tape(0, 3));
}

#[test]
fn interpreter_instruction_comma_2() {
    let input = [5, 4, 3];
    let mut output = Vec::new();
    let mut brainfuck = Brainfuck::new(",.>,.>,.");
    let result = brainfuck.run(&input, &mut output);

    assert_eq!((), result.unwrap());
    assert_eq!(vec!(5, 4, 3), output);
}

#[test]
fn interpreter_hello_world() {
    let mut brainfuck = Brainfuck::new(
        "++++++++[>++++[>++>+++>+++>+<<<<-]>+>+>->>+[<]<-]>>.>---\
        .+++++++..+++.>>.<-.<.+++.------.--------.>>+.>++.\n"
    );

    let mut output = Vec::new();
    let result = brainfuck.run(&[], &mut output);

    assert_eq!((), result.unwrap());
    assert_eq!(
        "Hello World!\n",
        String::from_utf8(output).unwrap()
    );
}

#[test]
fn interpreter_hello_world_complex() {
    let mut brainfuck = Brainfuck::new(
        ">++++++++[-<+++++++++>]<.>>+>-[+]++>++>+++[>[->+++<<+++>]<<]\
        >-----.>->+++..+++.>-.<<+[>[+>+]>>]<--------------.>>.+++.---\
        ---.--------.>+.>+."
    );

    let mut output = Vec::new();
    let result = brainfuck.run(&[], &mut output);

    assert_eq!((), result.unwrap());
    assert_eq!(
        "Hello World!\n",
        String::from_utf8(output).unwrap()
    );
}
