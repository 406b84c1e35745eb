//! Peephole optimisation: rewrite passes over a parsed instruction sequence.
//! Erased slots become `Op::Empty` and are compacted away by the last pass.
use vstd::prelude::*;

use crate::cpu::{machine_ok, run_spec, with_cell, Machine};
use crate::op::{
    depth, is_close, is_match, is_open, lemma_match_frame, lemma_match_nested, lemma_match_unique,
    Jump, Op,
};

verus! {

/// All passes, in order.
pub open spec fn optimise_spec(ops: Seq<Op>) -> Seq<Op> {
    compact(
        trailing_spec(
            dead_spec(clear_spec(fold_spec(fold_spec(ops, OpPair::Move), OpPair::Arith))),
        ),
    )
}

/// Runs the passes in order: folding of moves, then of arithmetic, clear
/// loops, dead loops, trailing instructions, and compaction last.
pub fn optimise(ops: &mut Vec<Op>)
    ensures
        final(ops)@ == optimise_spec(old(ops)@),
        !final(ops)@.contains(Op::Empty),
{
    fold_consecutive_ops(OpPair::Move, ops);
    fold_consecutive_ops(OpPair::Arith, ops);
    rewrite_clear_loops(ops);
    remove_dead_loops(ops);
    remove_trailing_ops(ops);
    remove_empty_ops(ops);
    proof {
        lemma_compact_has_no_empty(
            trailing_spec(
                dead_spec(
                    clear_spec(fold_spec(fold_spec(old(ops)@, OpPair::Move), OpPair::Arith)),
                ),
            ),
        );
    }
}

/// A complementary pair of instructions: the two directions on the number
/// line, or on the memory tape.
#[derive(Debug, Clone, Copy, PartialEq, Eq, Structural)]
pub enum OpPair {
    /// `MoveL` and `MoveR`.
    Move,
    /// `Decrement` and `Increment`.
    Arith,
}

pub open spec fn left_spec(pair: OpPair, n: usize) -> Op {
    match pair {
        OpPair::Move => Op::MoveL(n),
        OpPair::Arith => Op::Decrement(n),
    }
}

pub open spec fn right_spec(pair: OpPair, n: usize) -> Op {
    match pair {
        OpPair::Move => Op::MoveR(n),
        OpPair::Arith => Op::Increment(n),
    }
}

/// A single step of either instruction of the pair.
pub open spec fn is_unit(pair: OpPair, op: Op) -> bool {
    op == left_spec(pair, 1) || op == right_spec(pair, 1)
}

pub open spec fn unit_sign(pair: OpPair, op: Op) -> int {
    if op == right_spec(pair, 1) {
        1
    } else if op == left_spec(pair, 1) {
        -1
    } else {
        0
    }
}

/// One past the end of the run of single steps that includes `ops[i]`.
pub open spec fn run_end(ops: Seq<Op>, pair: OpPair, i: int) -> int
    decreases ops.len() - i,
{
    if 0 <= i < ops.len() && is_unit(pair, ops[i]) {
        run_end(ops, pair, i + 1)
    } else {
        i
    }
}

/// The signed net displacement of `ops[a..b]`: right steps minus left steps.
pub open spec fn net(ops: Seq<Op>, pair: OpPair, a: int, b: int) -> int
    decreases b - a,
{
    if b <= a {
        0
    } else {
        net(ops, pair, a, b - 1) + unit_sign(pair, ops[b - 1])
    }
}

/// The single instruction that a net displacement folds to.
pub open spec fn net_op(pair: OpPair, n: int) -> Op {
    if n < 0 {
        left_spec(pair, (-n) as usize)
    } else if n > 0 {
        right_spec(pair, n as usize)
    } else {
        Op::Empty
    }
}

/// The instruction at `k` after folding: the first slot of a maximal run of
/// single steps holds the run's net displacement, the rest of the run is erased.
pub open spec fn folded_at(ops: Seq<Op>, pair: OpPair, k: int) -> Op {
    if !is_unit(pair, ops[k]) {
        ops[k]
    } else if k > 0 && is_unit(pair, ops[k - 1]) {
        Op::Empty
    } else {
        net_op(pair, net(ops, pair, k, run_end(ops, pair, k)))
    }
}

pub open spec fn fold_spec(ops: Seq<Op>, pair: OpPair) -> Seq<Op> {
    Seq::new(ops.len(), |k: int| folded_at(ops, pair, k))
}

pub fn left(pair: OpPair, n: usize) -> (r: Op)
    ensures
        r == left_spec(pair, n),
{
    match pair {
        OpPair::Move => Op::MoveL(n),
        OpPair::Arith => Op::Decrement(n),
    }
}

pub fn right(pair: OpPair, n: usize) -> (r: Op)
    ensures
        r == right_spec(pair, n),
{
    match pair {
        OpPair::Move => Op::MoveR(n),
        OpPair::Arith => Op::Increment(n),
    }
}

/// Folds each maximal run of single steps of a complementary pair into one
/// instruction that carries the net displacement, or into `Op::Empty` when the
/// steps cancel out; the other slots of the run become `Op::Empty`.
pub fn fold_consecutive_ops(pair: OpPair, ops: &mut Vec<Op>)
    ensures
        final(ops)@ == fold_spec(old(ops)@, pair),
{
    let ghost o = ops@;
    let l1 = left(pair, 1);
    let r1 = right(pair, 1);
    let mut i: usize = 0;
    while i < ops.len()
        invariant
            o == old(ops)@,
            l1 == left_spec(pair, 1),
            r1 == right_spec(pair, 1),
            ops@.len() == o.len(),
            i <= o.len(),
            forall|k: int| i <= k < o.len() ==> ops@[k] == o[k],
            forall|k: int| 0 <= k < i ==> #[trigger] ops@[k] == folded_at(o, pair, k),
            0 < i < o.len() && is_unit(pair, o[i as int]) ==> !is_unit(pair, o[i - 1]),
        decreases o.len() - i,
    {
        if ops[i] == l1 || ops[i] == r1 {
            let start = i;
            let mut nl: usize = 0;
            let mut nr: usize = 0;
            // Accumulate the run
            while i < ops.len() && (ops[i] == l1 || ops[i] == r1)
                invariant
                    ops@.len() == o.len(),
                    l1 == left_spec(pair, 1),
                    r1 == right_spec(pair, 1),
                    start <= i <= o.len(),
                    start < o.len(),
                    is_unit(pair, o[start as int]),
                    forall|k: int| start <= k < o.len() ==> ops@[k] == o[k],
                    forall|k: int| start <= k < i ==> is_unit(pair, #[trigger] o[k]),
                    nl + nr == i - start,
                    nr - nl == net(o, pair, start as int, i as int),
                    run_end(o, pair, start as int) == run_end(o, pair, i as int),
                decreases o.len() - i,
            {
                if ops[i] == l1 {
                    nl += 1;
                } else {
                    nr += 1;
                }
                i += 1;
            }
            assert(run_end(o, pair, i as int) == i);
            let first = if nl > nr {
                left(pair, nl - nr)
            } else if nr > nl {
                right(pair, nr - nl)
            } else {
                Op::Empty
            };
            ops.set(start, first);
            // The rest of the run is erased
            let mut k: usize = start + 1;
            while k < i
                invariant
                    ops@.len() == o.len(),
                    start < k <= i <= o.len(),
                    forall|j: int| i <= j < o.len() ==> ops@[j] == o[j],
                    forall|j: int| 0 <= j < k ==> #[trigger] ops@[j] == folded_at(o, pair, j),
                    forall|j: int| start <= j < i ==> is_unit(pair, #[trigger] o[j]),
                decreases i - k,
            {
                assert(is_unit(pair, o[k - 1]));
                ops.set(k, Op::Empty);
                k += 1;
            }
        } else {
            i += 1;
        }
    }
    assert(ops@ == fold_spec(o, pair));
}

/// `ops[i..i + 3]` is `[-]`: a loop that only decrements the current cell by one.
pub open spec fn is_clear_loop(ops: Seq<Op>, i: int) -> bool {
    &&& 0 <= i
    &&& i + 3 <= ops.len()
    &&& is_open(ops[i])
    &&& ops[i + 1] == Op::Decrement(1)
    &&& is_close(ops[i + 2])
}

/// The instruction at `k` after rewriting clear loops.
pub open spec fn cleared_at(ops: Seq<Op>, k: int) -> Op {
    if is_clear_loop(ops, k) {
        Op::Clear
    } else if is_clear_loop(ops, k - 1) || is_clear_loop(ops, k - 2) {
        Op::Empty
    } else {
        ops[k]
    }
}

pub open spec fn clear_spec(ops: Seq<Op>) -> Seq<Op> {
    Seq::new(ops.len(), |k: int| cleared_at(ops, k))
}

/// A loop of the form `[-]` clears the current memory cell. It is rewritten
/// into `Op::Clear`, followed by two erased slots.
pub fn rewrite_clear_loops(ops: &mut Vec<Op>)
    ensures
        final(ops)@ == clear_spec(old(ops)@),
{
    let ghost o = ops@;
    let mut i: usize = 0;
    while i < ops.len() && ops.len() - i >= 3
        invariant
            o == old(ops)@,
            ops@.len() == o.len(),
            i <= o.len(),
            forall|k: int| i <= k < o.len() ==> ops@[k] == o[k],
            forall|k: int| 0 <= k < i ==> #[trigger] ops@[k] == cleared_at(o, k),
            !is_clear_loop(o, i - 1),
            !is_clear_loop(o, i - 2),
        decreases o.len() - i,
    {
        if matches!(ops[i], Op::Jump(Jump::JumpR(_))) && ops[i + 1] == Op::Decrement(1) && matches!(
            ops[i + 2],
            Op::Jump(Jump::JumpL(_))
        ) {
            assert(is_clear_loop(o, i as int));
            ops.set(i, Op::Clear);
            ops.set(i + 1, Op::Empty);
            ops.set(i + 2, Op::Empty);
            i += 3;
        } else {
            i += 1;
        }
    }
    assert(ops@ == clear_spec(o));
}

proof fn lemma_net_front(ops: Seq<Op>, pair: OpPair, a: int, b: int)
    requires
        0 <= a < b <= ops.len(),
    ensures
        net(ops, pair, a, b) == unit_sign(pair, ops[a]) + net(ops, pair, a + 1, b),
    decreases b - a,
{
    if a + 1 < b {
        lemma_net_front(ops, pair, a, b - 1);
        assert(net(ops, pair, a + 1, b) == net(ops, pair, a + 1, b - 1) + unit_sign(pair, ops[b - 1]));
    } else {
        assert(net(ops, pair, a, a) == 0);
        assert(net(ops, pair, a + 1, b) == 0);
    }
}

proof fn lemma_net_bound(ops: Seq<Op>, pair: OpPair, a: int, b: int)
    requires
        a <= b,
    ensures
        -(b - a) <= net(ops, pair, a, b) <= b - a,
    decreases b - a,
{
    if a < b {
        lemma_net_bound(ops, pair, a, b - 1);
    }
}

/// From `i` on, a run of single increments and decrements changes the current
/// cell by its net displacement, modulo 256.
proof fn lemma_arith_units_run(
    ops: Seq<Op>,
    m: Machine,
    i: int,
    input: Seq<u8>,
    out: Seq<u8>,
    fuel: nat,
)
    requires
        machine_ok(m),
        0 <= i <= ops.len(),
        forall|k: int| i <= k < ops.len() ==> is_unit(OpPair::Arith, #[trigger] ops[k]),
        fuel >= ops.len() - i,
    ensures
        run_spec(ops, m, i, input, out, fuel) == (with_cell(
            m,
            ((m.tape[m.pc] + net(ops, OpPair::Arith, i, ops.len() as int)) % 256) as u8,
        ), out, None::<crate::cpu::ExecError>),
    decreases ops.len() - i,
{
    let c = m.tape[m.pc] as int;
    if i == ops.len() {
        assert(c as int % 256 == c as int);
        assert(m.tape.update(m.pc, c as u8) == m.tape);
    } else {
        let n = ops.len() as int;
        lemma_net_front(ops, OpPair::Arith, i, n);
        let s = unit_sign(OpPair::Arith, ops[i]);
        let c1 = ((c + s) % 256) as u8;
        let m1 = with_cell(m, c1);
        assert(run_spec(ops, m, i, input, out, fuel) == run_spec(ops, m1, i + 1, input, out, (fuel - 1) as nat));
        lemma_arith_units_run(ops, m1, i + 1, input, out, (fuel - 1) as nat);
        let rest = net(ops, OpPair::Arith, i + 1, n);
        vstd::arithmetic::div_mod::lemma_add_mod_noop_right(rest, c + s, 256);
        assert((c1 + rest) % 256 == (c + net(ops, OpPair::Arith, i, n)) % 256);
        let v = ((c + net(ops, OpPair::Arith, i, n)) % 256) as u8;
        assert(m1.tape.update(m.pc, v) == m.tape.update(m.pc, v));
    }
}

/// Folding a run of single increments and decrements, then compacting it,
/// leaves a program that ends in the same state as the run itself.
pub proof fn lemma_arith_fold_sound(ops: Seq<Op>, m: Machine, input: Seq<u8>, fuel: nat)
    requires
        machine_ok(m),
        ops.len() <= usize::MAX,
        forall|k: int| 0 <= k < ops.len() ==> is_unit(OpPair::Arith, #[trigger] ops[k]),
        fuel >= ops.len(),
        fuel >= 1,
    ensures
        run_spec(ops, m, 0, input, seq![], fuel) == run_spec(
            compact(seq![net_op(OpPair::Arith, net(ops, OpPair::Arith, 0, ops.len() as int))]),
            m,
            0,
            input,
            seq![],
            fuel,
        ),
{
    let out = Seq::<u8>::empty();
    let d = net(ops, OpPair::Arith, 0, ops.len() as int);
    let c = m.tape[m.pc] as int;
    lemma_arith_units_run(ops, m, 0, input, out, fuel);
    lemma_net_bound(ops, OpPair::Arith, 0, ops.len() as int);
    let x = net_op(OpPair::Arith, d);
    let folded = compact(seq![x]);
    assert(seq![x].drop_last() == Seq::<Op>::empty());
    assert(seq![x].last() == x);
    assert(compact(Seq::<Op>::empty()) == Seq::<Op>::empty());
    assert(Seq::<Op>::empty().push(x) == seq![x]);
    if d == 0 {
        assert(folded == Seq::<Op>::empty());
        assert(c as int % 256 == c as int);
        assert(m.tape.update(m.pc, c as u8) == m.tape);
    } else {
        assert(folded == seq![x]);
        assert(folded[0] == x);
        if d > 0 {
            assert(x == Op::Increment(d as usize));
        } else {
            assert(x == Op::Decrement((-d) as usize));
        }
        assert(crate::cpu::step_spec(m, x, 0) == Ok::<(Machine, int, crate::cpu::Effect), crate::cpu::ExecError>((with_cell(m, ((c + d) % 256) as u8), 1, crate::cpu::Effect::Continue)));
        assert(run_spec(folded, m, 0, input, out, fuel) == run_spec(folded, with_cell(m, ((c + d) % 256) as u8), 1, input, out, (fuel - 1) as nat));
    }
}

/// `[-]` with its jump targets resolved.
pub open spec fn resolved_clear_loop() -> Seq<Op> {
    seq![Op::Jump(Jump::JumpR(3)), Op::Decrement(1), Op::Jump(Jump::JumpL(1))]
}

proof fn lemma_clear_loop_body(m: Machine, input: Seq<u8>, out: Seq<u8>, fuel: nat)
    requires
        machine_ok(m),
        m.tape[m.pc] >= 1,
        fuel >= 2 * m.tape[m.pc],
    ensures
        run_spec(resolved_clear_loop(), m, 1, input, out, fuel) == (with_cell(m, 0), out, None::<
            crate::cpu::ExecError,
        >),
    decreases m.tape[m.pc],
{
    let ops = resolved_clear_loop();
    let v = m.tape[m.pc];
    let m2 = with_cell(m, (v - 1) as u8);
    assert(((v - 1) % 256) as u8 == (v - 1) as u8);
    assert(run_spec(ops, m, 1, input, out, fuel) == run_spec(ops, m2, 2, input, out, (fuel - 1) as nat));
    assert(with_cell(m2, 0) == with_cell(m, 0)) by {
        assert(m2.tape.update(m.pc, 0) == m.tape.update(m.pc, 0));
    }
    if v == 1 {
        assert(run_spec(ops, m2, 2, input, out, (fuel - 1) as nat) == run_spec(ops, m2, 3, input, out, (fuel - 2) as nat));
        assert(m2 == with_cell(m, 0));
    } else {
        assert(run_spec(ops, m2, 2, input, out, (fuel - 1) as nat) == run_spec(ops, m2, 1, input, out, (fuel - 2) as nat));
        lemma_clear_loop_body(m2, input, out, (fuel - 2) as nat);
    }
}

/// Running a resolved `[-]` loop to its end has the same effect as one
/// `Op::Clear`: the current cell becomes zero, and nothing else changes.
pub proof fn lemma_clear_loop_sound(m: Machine, input: Seq<u8>, fuel: nat)
    requires
        machine_ok(m),
        fuel > 2 * m.tape[m.pc],
    ensures
        run_spec(resolved_clear_loop(), m, 0, input, seq![], fuel) == run_spec(
            seq![Op::Clear],
            m,
            0,
            input,
            seq![],
            fuel,
        ),
{
    let ops = resolved_clear_loop();
    let out = Seq::<u8>::empty();
    let v = m.tape[m.pc];
    assert(run_spec(seq![Op::Clear], m, 0, input, out, fuel) == run_spec(seq![Op::Clear], with_cell(m, 0), 1, input, out, (fuel - 1) as nat));
    if v == 0 {
        assert(with_cell(m, 0) == m) by {
            assert(m.tape.update(m.pc, 0) == m.tape);
        }
        assert(run_spec(ops, m, 0, input, out, fuel) == run_spec(ops, m, 3, input, out, (fuel - 1) as nat));
    } else {
        assert(run_spec(ops, m, 0, input, out, fuel) == run_spec(ops, m, 1, input, out, (fuel - 1) as nat));
        lemma_clear_loop_body(m, input, out, (fuel - 1) as nat);
    }
}

/// `ops` with every erased slot removed.
pub open spec fn compact(ops: Seq<Op>) -> Seq<Op>
    decreases ops.len(),
{
    if ops.len() == 0 {
        Seq::empty()
    } else if ops.last() == Op::Empty {
        compact(ops.drop_last())
    } else {
        compact(ops.drop_last()).push(ops.last())
    }
}

pub proof fn lemma_compact_has_no_empty(ops: Seq<Op>)
    ensures
        !compact(ops).contains(Op::Empty),
    decreases ops.len(),
{
    if ops.len() > 0 {
        lemma_compact_has_no_empty(ops.drop_last());
        if ops.last() != Op::Empty {
            let c = compact(ops.drop_last());
            assert forall|k: int| 0 <= k < c.push(ops.last()).len() implies c.push(ops.last())[k]
                != Op::Empty by {
                if k < c.len() {
                    assert(c[k] != Op::Empty);
                }
            }
        }
    }
}

/// Removes every erased slot, keeping the order of the rest.
pub fn remove_empty_ops(ops: &mut Vec<Op>)
    ensures
        final(ops)@ == compact(old(ops)@),
{
    let mut kept: Vec<Op> = Vec::new();
    let mut i: usize = 0;
    while i < ops.len()
        invariant
            i <= ops@.len(),
            ops@ == old(ops)@,
            kept@ == compact(ops@.subrange(0, i as int)),
        decreases ops@.len() - i,
    {
        assert(ops@.subrange(0, i + 1).drop_last() == ops@.subrange(0, i as int));
        if ops[i] != Op::Empty {
            kept.push(ops[i]);
        }
        i += 1;
    }
    assert(ops@.subrange(0, i as int) == ops@);
    *ops = kept;
}

/// The index of the bracket that closes the one opened at `i`, if there is one.
pub fn find_match(ops: &Vec<Op>, i: usize) -> (r: Option<usize>)
    requires
        i < ops@.len(),
        is_open(ops@[i as int]),
    ensures
        r matches Some(m) ==> is_match(ops@, i as int, m as int),
        r is None ==> forall|m: int| !is_match(ops@, i as int, m),
{
    let n = ops.len();
    let mut j: usize = i + 1;
    let mut d: usize = 1;
    assert(depth(ops@, i as int, i as int) == 0);
    while j < ops.len()
        invariant
            i < j <= ops@.len(),
            is_open(ops@[i as int]),
            d == depth(ops@, i as int, j as int),
            1 <= d <= j - i,
            forall|k: int| i < k <= j ==> #[trigger] depth(ops@, i as int, k) > 0,
            forall|m: int| i < m < j ==> !is_match(ops@, i as int, m),
        decreases ops@.len() - j,
    {
        assert(depth(ops@, i as int, j + 1) == depth(ops@, i as int, j as int) + crate::op::depth_step(
            ops@[j as int],
        ));
        match ops[j] {
            Op::Jump(Jump::JumpL(_)) => {
                if d == 1 {
                    return Some(j);
                }
                d -= 1;
            },
            Op::Jump(Jump::JumpR(_)) => {
                d += 1;
            },
            _ => {},
        }
        j += 1;
    }
    None
}

/// A loop that is never entered: it opens the program, or it opens right after
/// a loop closes, where the current cell is zero.
pub open spec fn is_dead_loop(ops: Seq<Op>, i: int, m: int) -> bool {
    &&& is_match(ops, i, m)
    &&& (i == 0 || is_close(ops[i - 1]))
}

/// `ops[k]` belongs to a dead loop, brackets included.
pub open spec fn in_dead_loop(ops: Seq<Op>, k: int) -> bool {
    exists|i: int, m: int| #[trigger] is_dead_loop(ops, i, m) && i <= k <= m
}

pub open spec fn dead_spec(ops: Seq<Op>) -> Seq<Op> {
    Seq::new(ops.len(), |k: int| if in_dead_loop(ops, k) { Op::Empty } else { ops[k] })
}

/// Erases every dead loop. Chains such as `[a][b][c]` are found because the
/// closing bracket of each erased loop stays in place until the pass ends.
pub fn remove_dead_loops(ops: &mut Vec<Op>)
    ensures
        final(ops)@ == dead_spec(old(ops)@),
{
    let ghost o = ops@;
    let mut ends: Vec<usize> = Vec::new();
    // whether o[i - 1] is a closing bracket, where o[i] opens a loop
    let mut prev_close = false;
    let mut i: usize = 0;
    while i < ops.len()
        invariant
            o == old(ops)@,
            ops@.len() == o.len(),
            i <= o.len(),
            forall|k: int| i <= k < o.len() ==> ops@[k] == o[k],
            0 < i < o.len() && is_open(o[i as int]) ==> (prev_close <==> is_close(o[i - 1])),
            i == 0 ==> !prev_close,
            forall|k: int|
                0 <= k < i ==> (#[trigger] ops@[k] == Op::Empty && in_dead_loop(o, k)) || (ops@[k]
                    == o[k] && (!in_dead_loop(o, k) || ends@.contains(k as usize))),
            forall|j: int|
                0 <= j < ends@.len() ==> #[trigger] ends@[j] <= i && ends@[j] < o.len()
                    && in_dead_loop(o, ends@[j] as int),
            forall|a: int, b: int|
                #[trigger] is_dead_loop(o, a, b) && a < i ==> b < i || (b == i && ends@.contains(
                    i,
                )),
        decreases o.len() - i,
    {
        let opens = matches!(ops[i], Op::Jump(Jump::JumpR(_)));
        if opens && (i == 0 || prev_close) {
            match find_match(ops, i) {
                Some(m) => {
                    proof {
                        lemma_match_frame(ops@, o, i as int, m as int);
                        assert(is_dead_loop(o, i as int, m as int));
                    }
                    let ghost before = ops@;
                    let ghost ends0 = ends@;
                    let mut k: usize = i;
                    while k < m
                        invariant
                            i <= k <= m < o.len(),
                            ops@.len() == o.len(),
                            before.len() == o.len(),
                            forall|j: int| 0 <= j < i ==> ops@[j] == before[j],
                            forall|j: int| m <= j < o.len() ==> ops@[j] == before[j],
                            forall|j: int| i <= j < k ==> ops@[j] == Op::Empty,
                        decreases m - k,
                    {
                        ops.set(k, Op::Empty);
                        k += 1;
                    }
                    ends.push(m);
                    proof {
                        assert forall|j: int| 0 <= j < ends0.len() implies ends@.contains(
                            #[trigger] ends0[j],
                        ) by {
                            assert(ends@[j] == ends0[j]);
                        }
                        assert(ends@[ends@.len() - 1] == m);
                        assert forall|k2: int| 0 <= k2 < m implies (#[trigger] ops@[k2] == Op::Empty
                            && in_dead_loop(o, k2)) || (ops@[k2] == o[k2] && (!in_dead_loop(o, k2)
                            || ends@.contains(k2 as usize))) by {
                            if k2 >= i {
                                assert(is_dead_loop(o, i as int, m as int) && i <= k2 <= m);
                            } else if !(ops@[k2] == Op::Empty && in_dead_loop(o, k2)) {
                                assert(ops@[k2] == before[k2]);
                                if in_dead_loop(o, k2) {
                                    assert(ends0.contains(k2 as usize));
                                    let j = choose|j: int| 0 <= j < ends0.len() && ends0[j] == k2;
                                    assert(ends@[j] == k2);
                                }
                            }
                        }
                        assert forall|a: int, b: int|
                            #[trigger] is_dead_loop(o, a, b) && a < m implies b < m || (b == m
                            && ends@.contains(m)) by {
                            if a < i {
                                if b == i {
                                    assert(is_close(o[b]));
                                }
                            } else if a == i {
                                lemma_match_unique(o, a, b, m as int);
                            } else {
                                lemma_match_nested(o, i as int, m as int, a, b);
                            }
                        }
                    }
                    i = m;
                    prev_close = false;
                },
                None => {
                    proof {
                        assert forall|b: int| !is_match(o, i as int, b) by {
                            if is_match(o, i as int, b) {
                                lemma_match_frame(o, ops@, i as int, b);
                            }
                        }
                        lemma_not_dead_start(o, ends@, i as int);
                    }
                    prev_close = false;
                    i += 1;
                },
            }
        } else {
            proof {
                assert(!exists|b: int| is_dead_loop(o, i as int, b));
                lemma_not_dead_start(o, ends@, i as int);
            }
            prev_close = matches!(ops[i], Op::Jump(Jump::JumpL(_)));
            i += 1;
        }
    }
    // Erase the closing brackets that were kept
    let ghost mid = ops@;
    let mut e: usize = 0;
    while e < ends.len()
        invariant
            ops@.len() == o.len(),
            mid.len() == o.len(),
            e <= ends@.len(),
            forall|j: int|
                0 <= j < ends@.len() ==> #[trigger] ends@[j] < o.len() && in_dead_loop(
                    o,
                    ends@[j] as int,
                ),
            forall|k: int|
                0 <= k < o.len() ==> (#[trigger] mid[k] == Op::Empty && in_dead_loop(o, k)) || (
                mid[k] == o[k] && (!in_dead_loop(o, k) || ends@.contains(k as usize))),
            forall|j: int| 0 <= j < e ==> ops@[#[trigger] ends@[j] as int] == Op::Empty,
            forall|k: int|
                0 <= k < o.len() && (forall|j: int| 0 <= j < e ==> ends@[j] != k) ==> #[trigger] ops@[k]
                    == mid[k],
        decreases ends@.len() - e,
    {
        ops.set(ends[e], Op::Empty);
        e += 1;
    }
    assert forall|k: int| 0 <= k < o.len() implies #[trigger] ops@[k] == dead_spec(o)[k] by {
        if exists|j: int| 0 <= j < ends@.len() && ends@[j] == k {
            let j = choose|j: int| 0 <= j < ends@.len() && ends@[j] == k;
            assert(ops@[ends@[j] as int] == Op::Empty);
            assert(in_dead_loop(o, ends@[j] as int));
        } else if in_dead_loop(o, k) {
            assert(mid[k] == Op::Empty || ends@.contains(k as usize));
            assert(ops@[k] == mid[k]);
        } else {
            assert forall|j: int| 0 <= j < ends@.len() implies ends@[j] != k by {
                assert(in_dead_loop(o, ends@[j] as int));
            }
        }
    }
    assert(ops@ == dead_spec(o));
}

/// Where no dead loop opens at `i`, `o[i]` is in a dead loop only as the kept
/// closing bracket of one that opened earlier.
proof fn lemma_not_dead_start(o: Seq<Op>, ends: Seq<usize>, i: int)
    requires
        0 <= i < o.len(),
        forall|b: int| !is_dead_loop(o, i, b),
        forall|a: int, b: int|
            #[trigger] is_dead_loop(o, a, b) && a < i ==> b < i || (b == i && ends.contains(
                i as usize,
            )),
    ensures
        !in_dead_loop(o, i) || ends.contains(i as usize),
        forall|a: int, b: int|
            #[trigger] is_dead_loop(o, a, b) && a < i + 1 ==> b < i + 1 || (b == i + 1
                && ends.contains((i + 1) as usize)),
{
    if in_dead_loop(o, i) {
        let (a, b) = choose|a: int, b: int| #[trigger] is_dead_loop(o, a, b) && a <= i <= b;
        assert(a != i);
    }
    assert forall|a: int, b: int| #[trigger] is_dead_loop(o, a, b) && a < i + 1 implies b < i + 1 || (b
        == i + 1 && ends.contains((i + 1) as usize)) by {
        assert(a != i);
    }
}

/// The two instructions with an effect that can be observed.
pub open spec fn is_effect(op: Op) -> bool {
    op == Op::Get || op == Op::Debug
}

/// The index of the last observable instruction in `ops[0..n]`, or -1.
pub open spec fn last_effect(ops: Seq<Op>, n: int) -> int
    decreases n,
{
    if n <= 0 {
        -1
    } else if is_effect(ops[n - 1]) {
        n - 1
    } else {
        last_effect(ops, n - 1)
    }
}

/// The first index from `k` on after which no loop is left open, or the length
/// of `ops` if loops stay open to the end.
pub open spec fn keep_end(ops: Seq<Op>, k: int) -> int
    decreases ops.len() - k,
{
    if k >= ops.len() {
        ops.len() as int
    } else if depth(ops, 0, k + 1) <= 0 {
        k
    } else {
        keep_end(ops, k + 1)
    }
}

pub open spec fn trailing_spec(ops: Seq<Op>) -> Seq<Op> {
    let p = last_effect(ops, ops.len() as int);
    if p < 0 {
        ops
    } else {
        let e = keep_end(ops, p);
        Seq::new(ops.len(), |k: int| if k > e { Op::Empty } else { ops[k] })
    }
}

/// Erases everything after the last `Op::Get` or `Op::Debug`, except what it
/// takes to close the loops that enclose it.
pub fn remove_trailing_ops(ops: &mut Vec<Op>)
    ensures
        final(ops)@ == trailing_spec(old(ops)@),
{
    let ghost o = ops@;
    let n = ops.len();
    let mut p: usize = n;
    while p > 0 && !(ops[p - 1] == Op::Get || ops[p - 1] == Op::Debug)
        invariant
            p <= n == o.len(),
            ops@ == o,
            last_effect(o, n as int) == last_effect(o, p as int),
        decreases p,
    {
        p -= 1;
    }
    if p == 0 {
        assert(ops@ == trailing_spec(o));
        return;
    }
    let last = p - 1;
    assert(last_effect(o, n as int) == last);
    let mut opens: usize = 0;
    let mut closes: usize = 0;
    let mut k: usize = 0;
    let mut end: usize = n;
    let mut found = false;
    while k < n && !found
        invariant
            ops@ == o,
            n == o.len(),
            last < n,
            k <= n,
            !found ==> opens + closes <= k && opens - closes == depth(o, 0, k as int),
            !found ==> (k <= last || keep_end(o, last as int) == keep_end(o, k as int)),
            found ==> end == keep_end(o, last as int) && end < n,
        decreases n - k + (if found { 0int } else { 1int }),
    {
        match ops[k] {
            Op::Jump(Jump::JumpR(_)) => {
                opens += 1;
            },
            Op::Jump(Jump::JumpL(_)) => {
                closes += 1;
            },
            _ => {},
        }
        assert(depth(o, 0, k + 1) == depth(o, 0, k as int) + crate::op::depth_step(o[k as int]));
        if k >= last && opens <= closes {
            end = k;
            found = true;
        } else {
            k += 1;
        }
    }
    if !found {
        // loops stay open to the end: nothing can be erased
        assert(keep_end(o, k as int) == n);
        assert(ops@ == trailing_spec(o));
        return;
    }
    let mut j: usize = end + 1;
    while j < n
        invariant
            end < j <= n == o.len(),
            ops@.len() == n,
            forall|i: int| 0 <= i <= end && i < n ==> ops@[i] == o[i],
            forall|i: int| j <= i < n ==> ops@[i] == o[i],
            forall|i: int| end < i < j ==> ops@[i] == Op::Empty,
        decreases n - j,
    {
        ops.set(j, Op::Empty);
        j += 1;
    }
    assert(ops@ == trailing_spec(o));
}

} // verus!
