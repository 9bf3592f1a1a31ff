use brainfuck::Instruction::{self, Add, Left, Out, Right, Sub};
use brainfuck::optimizer::optimize;

#[test]
fn compact_add() {
    assert_eq!(vec!(Add(1)), optimize(vec!(Add(1))));

    assert_eq!(
        vec!(Out, Add(3), Out),
        optimize(vec!(Out, Add(1), Add(1), Add(1), Out))
    );
}

#[test]
fn compact_sub() {
    assert_eq!(vec!(Sub(1)), optimize(vec!(Sub(1))));

    assert_eq!(
        vec!(Out, Sub(3), Out),
        optimize(vec!(Out, Sub(1), Sub(1), Sub(1), Out))
    );
}

#[test]
fn compact_add_sub() {
    assert_eq!(Vec::<Instruction>::new(), optimize(vec!(Add(5), Sub(5))));
}

#[test]
fn compact_right() {
    assert_eq!(vec!(Right(10)), optimize(vec!(Right(5), Right(5))));
}

#[test]
fn compact_left() {
    assert_eq!(vec!(Left(10)), optimize(vec!(Left(5), Left(5))));
}

#[test]
fn compact_right_left() {
    assert_eq!(Vec::<Instruction>::new(), optimize(vec!(Right(5), Left(5))));
}
