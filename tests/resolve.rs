use bri::op::{Jump, Op};
use bri::parse::parse;
use bri::resolve::{resolve_jumps, ResolveError};

#[test]
fn single_loop() {
    let mut ops = vec![
        Op::Jump(Jump::JumpR(0)),
        Op::Increment(1),
        Op::Decrement(1),
        Op::Increment(1),
        Op::Decrement(1),
        Op::Jump(Jump::JumpL(0)),
    ];
    assert_eq!(resolve_jumps(&mut ops), Ok(()));
    assert_eq!(
        ops,
        [
            Op::Jump(Jump::JumpR(6)),
            Op::Increment(1),
            Op::Decrement(1),
            Op::Increment(1),
            Op::Decrement(1),
            Op::Jump(Jump::JumpL(1))
        ]
    );
}

#[test]
fn mismatched_jump_r() {
    let mut ops = vec![Op::Jump(Jump::JumpR(0))];
    assert_eq!(resolve_jumps(&mut ops), Err(ResolveError::UnmatchedOpen(1)));
}

#[test]
fn mismatched_jump_l() {
    let mut ops = vec![Op::Jump(Jump::JumpL(0))];
    assert_eq!(resolve_jumps(&mut ops), Err(ResolveError::UnmatchedClose(1)));
}

#[test]
fn unmatched_positions() {
    let mut ops = parse("+[]]+[");
    assert_eq!(resolve_jumps(&mut ops), Err(ResolveError::UnmatchedClose(4)));
    let mut ops = parse("[+[[-]");
    assert_eq!(resolve_jumps(&mut ops), Err(ResolveError::UnmatchedOpen(3)));
}

#[test]
fn nested_and_sequential_loops() {
    let mut ops = parse("+-><[],.#[[]]");
    assert_eq!(resolve_jumps(&mut ops), Ok(()));
    assert_eq!(ops[4], Op::Jump(Jump::JumpR(6)));
    assert_eq!(ops[5], Op::Jump(Jump::JumpL(5)));
    assert_eq!(ops[9], Op::Jump(Jump::JumpR(13)));
    assert_eq!(ops[10], Op::Jump(Jump::JumpR(12)));
    assert_eq!(ops[11], Op::Jump(Jump::JumpL(11)));
    assert_eq!(ops[12], Op::Jump(Jump::JumpL(10)));
    assert_eq!(ops[8], Op::Debug);
}
