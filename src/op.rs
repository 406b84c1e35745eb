//! The instruction model, and the bracket structure of instruction sequences.
use vstd::prelude::*;

verus! {

/// A conditional jump. The target is a placeholder (0) until jump resolution
/// fills it in.
#[derive(Debug, Clone, Copy, PartialEq, Eq, Structural)]
pub enum Jump {
    /// `[`: jump to the target when the current cell is zero.
    JumpR(usize),
    /// `]`: jump to the target when the current cell is nonzero.
    JumpL(usize),
}

/// One instruction of the tape machine.
#[derive(Debug, Clone, Copy, PartialEq, Eq, Structural)]
pub enum Op {
    Increment(usize),
    Decrement(usize),
    MoveR(usize),
    MoveL(usize),
    Jump(Jump),
    /// Reads one byte of input into the current cell.
    Read,
    /// Writes the current cell as one byte of output.
    Get,
    /// Shows a window of the tape around the data pointer.
    Debug,
    /// Sets the current cell to zero.
    Clear,
    /// A slot erased during optimisation; never executed.
    Empty,
}

pub open spec fn is_open(op: Op) -> bool {
    op is Jump && op->Jump_0 is JumpR
}

pub open spec fn is_close(op: Op) -> bool {
    op is Jump && op->Jump_0 is JumpL
}

/// The change in bracket depth that one instruction makes.
pub open spec fn depth_step(op: Op) -> int {
    if is_open(op) {
        1
    } else if is_close(op) {
        -1
    } else {
        0
    }
}

/// Opening brackets minus closing brackets in `ops[a..b]`.
pub open spec fn depth(ops: Seq<Op>, a: int, b: int) -> int
    decreases b - a,
{
    if b <= a {
        0
    } else {
        depth(ops, a, b - 1) + depth_step(ops[b - 1])
    }
}

/// The bracket at `m` closes the bracket opened at `i`.
pub open spec fn is_match(ops: Seq<Op>, i: int, m: int) -> bool {
    &&& 0 <= i < m < ops.len()
    &&& is_open(ops[i])
    &&& is_close(ops[m])
    &&& depth(ops, i, m + 1) == 0
    &&& forall|k: int| i < k <= m ==> #[trigger] depth(ops, i, k) > 0
}

pub proof fn lemma_depth_split(ops: Seq<Op>, a: int, b: int, c: int)
    requires
        a <= b <= c,
    ensures
        depth(ops, a, c) == depth(ops, a, b) + depth(ops, b, c),
    decreases c - b,
{
    if c > b {
        lemma_depth_split(ops, a, b, c - 1);
    }
}

/// Depth over a range reads only the instructions in that range.
pub proof fn lemma_depth_frame(s: Seq<Op>, t: Seq<Op>, a: int, b: int)
    requires
        forall|k: int| a <= k < b ==> s[k] == t[k],
    ensures
        depth(s, a, b) == depth(t, a, b),
    decreases b - a,
{
    if b > a {
        lemma_depth_frame(s, t, a, b - 1);
    }
}

pub proof fn lemma_match_frame(s: Seq<Op>, t: Seq<Op>, i: int, m: int)
    requires
        s.len() == t.len(),
        0 <= i <= m,
        forall|k: int| i <= k <= m && k < s.len() ==> s[k] == t[k],
        is_match(s, i, m),
    ensures
        is_match(t, i, m),
{
    lemma_depth_frame(s, t, i, m + 1);
    assert forall|k: int| i < k <= m implies #[trigger] depth(t, i, k) > 0 by {
        lemma_depth_frame(s, t, i, k);
    }
}

/// A bracket has at most one match.
pub proof fn lemma_match_unique(ops: Seq<Op>, i: int, m1: int, m2: int)
    requires
        is_match(ops, i, m1),
        is_match(ops, i, m2),
    ensures
        m1 == m2,
{
    if m1 < m2 {
        assert(depth(ops, i, m1 + 1) > 0);
    } else if m2 < m1 {
        assert(depth(ops, i, m2 + 1) > 0);
    }
}

/// Matched brackets nest: a loop opened inside another closes inside it.
pub proof fn lemma_match_nested(ops: Seq<Op>, i: int, m: int, j: int, n: int)
    requires
        is_match(ops, i, m),
        is_match(ops, j, n),
        i < j <= m,
    ensures
        n < m,
{
    if n >= m {
        lemma_depth_split(ops, i, j, m + 1);
        assert(depth(ops, i, j) > 0);
        if m + 1 <= n {
            assert(depth(ops, j, m + 1) > 0);
        } else {
            assert(depth(ops, j, m + 1) == 0);
        }
    }
}

/// A closing bracket closes at most one opening bracket.
pub proof fn lemma_match_unique_open(ops: Seq<Op>, i1: int, i2: int, m: int)
    requires
        is_match(ops, i1, m),
        is_match(ops, i2, m),
    ensures
        i1 == i2,
{
    if i1 < i2 {
        lemma_depth_split(ops, i1, i2, m + 1);
        assert(depth(ops, i1, i2) > 0);
    } else if i2 < i1 {
        lemma_depth_split(ops, i2, i1, m + 1);
        assert(depth(ops, i2, i1) > 0);
    }
}

/// Both are brackets of the same direction, or both are the same
/// non-bracket instruction.
pub open spec fn same_shape(a: Op, b: Op) -> bool {
    if a is Jump {
        (is_open(a) && is_open(b)) || (is_close(a) && is_close(b))
    } else {
        a == b
    }
}

} // verus!
