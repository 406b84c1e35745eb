use bri::op::{Jump, Op};
use bri::optimise;
use bri::optimise::OpPair;

#[test]
fn fold_consecutive_ops_identical() {
    let mut ops = vec![Op::MoveR(1), Op::MoveR(1), Op::MoveR(1), Op::MoveR(1)];
    optimise::fold_consecutive_ops(OpPair::Move, &mut ops);
    assert_eq!(ops, [Op::MoveR(4), Op::Empty, Op::Empty, Op::Empty,]);
}

#[test]
fn optimise_fold_consecutive_ops_identical() {
    let mut ops = vec![Op::MoveR(1), Op::MoveR(1), Op::MoveR(1), Op::MoveR(1)];
    optimise::fold_consecutive_ops(OpPair::Move, &mut ops);
    assert_eq!(ops, [Op::MoveR(4), Op::Empty, Op::Empty, Op::Empty,]);
}

#[test]
fn fold_consecutive_ops_net_positive() {
    let mut ops = vec![
        Op::MoveR(1),
        Op::MoveR(1),
        Op::MoveL(1),
        Op::MoveL(1),
        Op::MoveL(1),
        Op::MoveL(1),
    ];
    optimise::fold_consecutive_ops(OpPair::Move, &mut ops);
    assert_eq!(
        ops,
        [Op::MoveL(2), Op::Empty, Op::Empty, Op::Empty, Op::Empty, Op::Empty,]
    );
}

#[test]
fn optimise_fold_consecutive_ops_net_positive() {
    let mut ops = vec![
        Op::MoveR(1),
        Op::MoveR(1),
        Op::MoveL(1),
        Op::MoveL(1),
        Op::MoveL(1),
        Op::MoveL(1),
    ];
    optimise::fold_consecutive_ops(OpPair::Move, &mut ops);
    assert_eq!(
        ops,
        [Op::MoveL(2), Op::Empty, Op::Empty, Op::Empty, Op::Empty, Op::Empty,]
    );
}

#[test]
fn fold_consecutive_ops_net_negative() {
    let mut ops = vec![
        Op::MoveR(1),
        Op::MoveR(1),
        Op::MoveR(1),
        Op::MoveR(1),
        Op::MoveL(1),
        Op::MoveL(1),
    ];
    optimise::fold_consecutive_ops(OpPair::Move, &mut ops);
    assert_eq!(
        ops,
        [Op::MoveR(2), Op::Empty, Op::Empty, Op::Empty, Op::Empty, Op::Empty,]
    );
}

#[test]
fn optimise_fold_consecutive_ops_net_negative() {
    let mut ops = vec![
        Op::MoveR(1),
        Op::MoveR(1),
        Op::MoveR(1),
        Op::MoveR(1),
        Op::MoveL(1),
        Op::MoveL(1),
    ];
    optimise::fold_consecutive_ops(OpPair::Move, &mut ops);
    assert_eq!(
        ops,
        [Op::MoveR(2), Op::Empty, Op::Empty, Op::Empty, Op::Empty, Op::Empty,]
    );
}

#[test]
fn fold_consecutive_ops_net_zero() {
    let mut ops = vec![Op::MoveR(1), Op::MoveR(1), Op::MoveL(1), Op::MoveL(1)];
    optimise::fold_consecutive_ops(OpPair::Move, &mut ops);
    assert_eq!(ops, [Op::Empty, Op::Empty, Op::Empty, Op::Empty,]);
}

#[test]
fn optimise_fold_consecutive_ops_net_zero() {
    let mut ops = vec![Op::MoveR(1), Op::MoveR(1), Op::MoveL(1), Op::MoveL(1)];
    optimise::fold_consecutive_ops(OpPair::Move, &mut ops);
    assert_eq!(ops, [Op::Empty, Op::Empty, Op::Empty, Op::Empty,]);
}

#[test]
fn fold_arith_runs_separately() {
    let mut ops = vec![
        Op::Increment(1),
        Op::Increment(1),
        Op::Decrement(1),
        Op::Get,
        Op::Decrement(1),
        Op::MoveR(1),
        Op::Increment(3),
        Op::Increment(1),
    ];
    optimise::fold_consecutive_ops(OpPair::Arith, &mut ops);
    assert_eq!(
        ops,
        [
            Op::Increment(1),
            Op::Empty,
            Op::Empty,
            Op::Get,
            Op::Decrement(1),
            Op::MoveR(1),
            Op::Increment(3),
            Op::Increment(1),
        ]
    );
}

#[test]
fn rewrite_clear_loops() {
    let mut ops = vec![
        Op::Jump(Jump::JumpR(0)),
        Op::Decrement(1),
        Op::Jump(Jump::JumpL(0)),
    ];
    optimise::rewrite_clear_loops(&mut ops);
    assert_eq!(ops, [Op::Clear, Op::Empty, Op::Empty,]);
}

#[test]
fn optimise_rewrite_clear_loops() {
    let mut ops = vec![
        Op::Jump(Jump::JumpR(0)),
        Op::Decrement(1),
        Op::Jump(Jump::JumpL(0)),
    ];
    optimise::rewrite_clear_loops(&mut ops);
    assert_eq!(ops, [Op::Clear, Op::Empty, Op::Empty,]);
}

#[test]
fn clear_loop_needs_single_decrement() {
    let unchanged = vec![
        Op::Jump(Jump::JumpR(0)),
        Op::Decrement(2),
        Op::Jump(Jump::JumpL(0)),
        Op::Jump(Jump::JumpR(0)),
        Op::Increment(1),
        Op::Jump(Jump::JumpL(0)),
    ];
    let mut ops = unchanged.clone();
    optimise::rewrite_clear_loops(&mut ops);
    assert_eq!(ops, unchanged);
}

#[test]
fn remove_dead_loops() {
    let mut ops = vec![
        Op::Jump(Jump::JumpR(0)),
        Op::Jump(Jump::JumpL(0)),
        Op::MoveR(1),
        Op::Jump(Jump::JumpR(0)),
        Op::Jump(Jump::JumpL(0)),
        Op::Jump(Jump::JumpR(0)),
        Op::Increment(1),
        Op::Decrement(1),
        Op::Jump(Jump::JumpL(0)),
        Op::Jump(Jump::JumpR(0)),
        Op::Jump(Jump::JumpL(0)),
    ];
    optimise::remove_dead_loops(&mut ops);
    assert_eq!(
        ops,
        [
            Op::Empty,
            Op::Empty,
            Op::MoveR(1),
            Op::Jump(Jump::JumpR(0)),
            Op::Jump(Jump::JumpL(0)),
            Op::Empty,
            Op::Empty,
            Op::Empty,
            Op::Empty,
            Op::Empty,
            Op::Empty,
        ]
    );
}

#[test]
fn dead_loop_chain_at_start() {
    // [+][-.][>]. : all three loops are dead
    let mut ops = vec![
        Op::Jump(Jump::JumpR(0)),
        Op::Increment(1),
        Op::Jump(Jump::JumpL(0)),
        Op::Jump(Jump::JumpR(0)),
        Op::Decrement(1),
        Op::Get,
        Op::Jump(Jump::JumpL(0)),
        Op::Jump(Jump::JumpR(0)),
        Op::MoveR(1),
        Op::Jump(Jump::JumpL(0)),
        Op::Get,
    ];
    optimise::remove_dead_loops(&mut ops);
    let mut expected = vec![Op::Empty; 10];
    expected.push(Op::Get);
    assert_eq!(ops, expected);
}

#[test]
fn dead_loop_erased_with_nested_loop() {
    // [[-]+]. : the first loop is erased up to its matching bracket
    let mut ops = vec![
        Op::Jump(Jump::JumpR(0)),
        Op::Jump(Jump::JumpR(0)),
        Op::Decrement(1),
        Op::Jump(Jump::JumpL(0)),
        Op::Increment(1),
        Op::Jump(Jump::JumpL(0)),
        Op::Get,
    ];
    optimise::remove_dead_loops(&mut ops);
    let mut expected = vec![Op::Empty; 6];
    expected.push(Op::Get);
    assert_eq!(ops, expected);
}

#[test]
fn remove_empty_ops() {
    let mut ops = vec![Op::Empty, Op::Empty, Op::Empty, Op::Empty];
    optimise::remove_empty_ops(&mut ops);
    assert_eq!(ops, []);
}

#[test]
fn optimise_remove_empty_ops() {
    let mut ops = vec![Op::Empty, Op::Get, Op::Empty, Op::Clear];
    optimise::remove_empty_ops(&mut ops);
    assert_eq!(ops, [Op::Get, Op::Clear]);
}

#[test]
fn remove_trailing_ops() {
    let mut ops = vec![
        Op::Increment(42),
        Op::Get,
        Op::Increment(1),
        Op::Decrement(1),
    ];
    optimise::remove_trailing_ops(&mut ops);
    assert_eq!(ops, [Op::Increment(42), Op::Get, Op::Empty, Op::Empty,]);
}

#[test]
fn remove_trailing_ops_with_loop() {
    let mut ops = vec![
        Op::Increment(42),
        Op::Jump(Jump::JumpR(0)),
        Op::Decrement(1),
        Op::Get,
        Op::Jump(Jump::JumpL(0)),
        Op::Increment(1),
        Op::Decrement(1),
    ];
    optimise::remove_trailing_ops(&mut ops);
    assert_eq!(
        ops,
        [
            Op::Increment(42),
            Op::Jump(Jump::JumpR(0)),
            Op::Decrement(1),
            Op::Get,
            Op::Jump(Jump::JumpL(0)),
            Op::Empty,
            Op::Empty,
        ]
    );
}

#[test]
fn trailing_ops_keep_enclosing_loops() {
    // +[[.-]-]+ : both loops enclose the write and keep their brackets
    let mut ops = vec![
        Op::Increment(1),
        Op::Jump(Jump::JumpR(0)),
        Op::Jump(Jump::JumpR(0)),
        Op::Get,
        Op::Decrement(1),
        Op::Jump(Jump::JumpL(0)),
        Op::Decrement(1),
        Op::Jump(Jump::JumpL(0)),
        Op::Increment(1),
    ];
    optimise::remove_trailing_ops(&mut ops);
    let mut expected = ops.clone();
    expected[8] = Op::Empty;
    assert_eq!(ops, expected);
}

#[test]
fn trailing_ops_without_output_are_kept() {
    let unchanged = vec![Op::Increment(1), Op::MoveR(1), Op::Read];
    let mut ops = unchanged.clone();
    optimise::remove_trailing_ops(&mut ops);
    assert_eq!(ops, unchanged);
}

#[test]
fn optimise_runs_all_passes() {
    // a leading `[-]` is a clear loop before it is a dead loop
    let mut ops = bri::parse::parse("[-]++++>>+<[-]+++.--");
    optimise::optimise(&mut ops);
    assert_eq!(
        ops,
        [
            Op::Clear,
            Op::Increment(4),
            Op::MoveR(2),
            Op::Increment(1),
            Op::MoveL(1),
            Op::Clear,
            Op::Increment(3),
            Op::Get,
        ]
    );
}
