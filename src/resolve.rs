//! Jump resolution: bracket matching that fills in every jump target.
use vstd::prelude::*;

use crate::op::{
    depth, depth_step, is_match, is_open, lemma_depth_split, lemma_match_unique,
    lemma_match_unique_open, same_shape, Jump, Op,
};

verus! {

/// A structural error, with the 1-based instruction position where it shows.
#[derive(Debug, Clone, Copy, PartialEq, Eq, Structural)]
pub enum ResolveError {
    UnmatchedClose(usize),
    UnmatchedOpen(usize),
}

/// Every prefix has at least as many opening brackets as closing ones, and the
/// whole sequence has as many of each.
pub open spec fn balanced(ops: Seq<Op>) -> bool {
    &&& forall|k: int| 0 <= k <= ops.len() ==> #[trigger] depth(ops, 0, k) >= 0
    &&& depth(ops, 0, ops.len() as int) == 0
}

/// `ops[i]` is the first closing bracket that has no opening bracket to match.
pub open spec fn first_unmatched_close(ops: Seq<Op>, i: int) -> bool {
    &&& 0 <= i < ops.len()
    &&& depth(ops, 0, i + 1) < 0
    &&& forall|k: int| 0 <= k <= i ==> #[trigger] depth(ops, 0, k) >= 0
}

/// `ops[j]` is the last opening bracket that is never closed.
pub open spec fn last_unmatched_open(ops: Seq<Op>, j: int) -> bool {
    &&& 0 <= j < ops.len()
    &&& depth(ops, 0, j) < depth(ops, 0, ops.len() as int)
    &&& forall|k: int|
        j < k <= ops.len() ==> #[trigger] depth(ops, 0, k) >= depth(ops, 0, ops.len() as int)
}

/// The same instructions, but for jump targets.
pub open spec fn shape_kept(ops: Seq<Op>, res: Seq<Op>) -> bool {
    &&& res.len() == ops.len()
    &&& forall|k: int| 0 <= k < ops.len() ==> same_shape(ops[k], #[trigger] res[k])
}

/// Each matched pair of brackets in `ops` jumps to just past the other in `res`.
pub open spec fn targets_set(ops: Seq<Op>, res: Seq<Op>) -> bool {
    forall|i: int, m: int| #[trigger] is_match(ops, i, m) ==> {
        &&& res[i] == Op::Jump(Jump::JumpR((m + 1) as usize))
        &&& res[m] == Op::Jump(Jump::JumpL((i + 1) as usize))
    }
}

/// `e` is the error that resolution reports for `ops`.
pub open spec fn reports(ops: Seq<Op>, e: ResolveError) -> bool {
    match e {
        ResolveError::UnmatchedClose(p) => p >= 1 && first_unmatched_close(ops, p - 1),
        ResolveError::UnmatchedOpen(p) => {
            &&& p >= 1
            &&& forall|k: int| 0 <= k <= ops.len() ==> #[trigger] depth(ops, 0, k) >= 0
            &&& last_unmatched_open(ops, p - 1)
        },
    }
}

/// Sets the target of each `[` to one past its matching `]`, and the target of
/// each `]` to one past its matching `[`. Fails on the first `]` without a
/// matching `[`, or else on the last `[` without a matching `]`.
pub fn resolve_jumps(ops: &mut Vec<Op>) -> (r: Result<(), ResolveError>)
    ensures
        shape_kept(old(ops)@, final(ops)@),
        r is Ok <==> balanced(old(ops)@),
        r is Ok ==> targets_set(old(ops)@, final(ops)@),
        r matches Err(e) ==> reports(old(ops)@, e),
{
    let ghost o = ops@;
    let mut stack: Vec<usize> = Vec::new();
    let mut i: usize = 0;
    while i < ops.len()
        invariant
            o == old(ops)@,
            ops@.len() == o.len(),
            i <= o.len(),
            forall|k: int| i <= k < o.len() ==> ops@[k] == o[k],
            forall|k: int| 0 <= k < i ==> same_shape(o[k], #[trigger] ops@[k]),
            forall|k: int| 0 <= k <= i ==> #[trigger] depth(o, 0, k) >= 0,
            stack@.len() == depth(o, 0, i as int),
            forall|s: int| 0 <= s < stack@.len() ==> {
                &&& #[trigger] stack@[s] < i
                &&& is_open(o[stack@[s] as int])
                &&& depth(o, 0, stack@[s] as int) == s
                &&& forall|k: int| stack@[s] < k <= i ==> #[trigger] depth(o, 0, k) > s
            },
            forall|a: int, m: int| #[trigger] is_match(o, a, m) && m < i ==> {
                &&& ops@[a] == Op::Jump(Jump::JumpR((m + 1) as usize))
                &&& ops@[m] == Op::Jump(Jump::JumpL((a + 1) as usize))
            },
        decreases o.len() - i,
    {
        let op = ops[i];
        assert(depth(o, 0, i + 1) == depth(o, 0, i as int) + depth_step(o[i as int]));
        match op {
            Op::Jump(Jump::JumpR(_)) => {
                // Remember where the loop opens; its target is set once the
                // matching `]` is found.
                stack.push(i);
            },
            Op::Jump(Jump::JumpL(_)) => {
                if stack.len() == 0 {
                    assert forall|k: int| 0 <= k < o.len() implies same_shape(o[k], #[trigger] ops@[k]) by {
                        if k >= i {
                            assert(ops@[k] == o[k]);
                        }
                    }
                    return Err(ResolveError::UnmatchedClose(i + 1));
                }
                let top = stack.len() - 1;
                let r = stack[top];
                stack.pop();
                proof {
                    let p = r as int;
                    assert forall|k: int| p < k <= i implies #[trigger] depth(o, p, k) > 0 by {
                        lemma_depth_split(o, 0, p, k);
                    }
                    lemma_depth_split(o, 0, p, i + 1);
                    assert(is_match(o, p, i as int));
                    assert forall|a: int, m: int| #[trigger] is_match(o, a, m) && m < i implies a != p by {
                        if a == p {
                            lemma_match_unique(o, p, m, i as int);
                        }
                    }
                }
                ops.set(r, Op::Jump(Jump::JumpR(i + 1)));
                ops.set(i, Op::Jump(Jump::JumpL(r + 1)));
                proof {
                    assert forall|a: int, m: int| #[trigger] is_match(o, a, m) && m < i + 1 implies {
                        &&& ops@[a] == Op::Jump(Jump::JumpR((m + 1) as usize))
                        &&& ops@[m] == Op::Jump(Jump::JumpL((a + 1) as usize))
                    } by {
                        if m == i {
                            lemma_match_unique_open(o, a, r as int, m);
                        }
                    }
                }
            },
            _ => {},
        }
        i += 1;
    }
    if stack.len() > 0 {
        let top = stack.len() - 1;
        return Err(ResolveError::UnmatchedOpen(stack[top] + 1));
    }
    Ok(())
}

} // verus!
