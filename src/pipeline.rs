//! The whole pipeline: parse, optimise when asked to, resolve jumps, execute.
use vstd::prelude::*;

use crate::cpu::{run_spec, Cpu, ExecError, Machine};
use crate::op::Op;
use crate::optimise::{optimise, optimise_spec};
use crate::parse::{lemma_parse_has_no_empty, parse, parse_spec};
use crate::resolve::{balanced, reports, resolve_jumps, shape_kept, targets_set, ResolveError};

verus! {

#[derive(Debug, Clone, Copy, PartialEq, Eq, Structural)]
pub enum RunError {
    Resolve(ResolveError),
    Exec(ExecError),
}

/// The instructions of a source text, before jump resolution.
pub open spec fn source_ops(src: Seq<char>, optimised: bool) -> Seq<Op> {
    if optimised {
        optimise_spec(parse_spec(src))
    } else {
        parse_spec(src)
    }
}

/// `res` is `ops` with every jump target resolved.
pub open spec fn resolved_from(ops: Seq<Op>, res: Seq<Op>) -> bool {
    shape_kept(ops, res) && targets_set(ops, res)
}

/// `m` and `r` are what running `ops` on `m0` for at most `fuel` steps gives.
pub open spec fn ran(
    ops: Seq<Op>,
    m0: Machine,
    input: Seq<u8>,
    fuel: nat,
    m: Machine,
    r: Result<Vec<u8>, RunError>,
) -> bool {
    let (m1, out, err) = run_spec(ops, m0, 0, input, seq![], fuel);
    &&& m == m1
    &&& r matches Ok(v) ==> err is None && v@ == out
    &&& r matches Err(RunError::Exec(e)) ==> err == Some(e)
    &&& !(r matches Err(RunError::Resolve(_)))
}

/// Turns source text into an executable instruction sequence.
pub fn compile(src: &str, optimised: bool) -> (r: Result<Vec<Op>, ResolveError>)
    ensures
        r is Ok <==> balanced(source_ops(src@, optimised)),
        r matches Ok(v) ==> resolved_from(source_ops(src@, optimised), v@) && !v@.contains(
            Op::Empty,
        ),
        r matches Err(e) ==> reports(source_ops(src@, optimised), e),
{
    let mut ops = parse(src);
    proof {
        lemma_parse_has_no_empty(src@);
    }
    if optimised {
        optimise(&mut ops);
    }
    let ghost before = ops@;
    match resolve_jumps(&mut ops) {
        Ok(()) => {
            assert forall|k: int| 0 <= k < ops@.len() implies ops@[k] != Op::Empty by {
                assert(crate::op::same_shape(before[k], ops@[k]));
                if before[k] == Op::Empty {
                    assert(before.contains(Op::Empty));
                }
            }
            Ok(ops)
        },
        Err(e) => Err(e),
    }
}

/// Compiles `src` and runs it on `cpu` for at most `fuel` steps, with bytes
/// for `Op::Read` taken from `input`; returns the bytes written.
pub fn run(src: &str, cpu: &mut Cpu, optimised: bool, input: &Vec<u8>, fuel: usize) -> (r: Result<
    Vec<u8>,
    RunError,
>)
    requires
        old(cpu).wf(),
    ensures
        final(cpu).wf(),
        !balanced(source_ops(src@, optimised)) ==> final(cpu)@ == old(cpu)@ && (r matches Err(
            RunError::Resolve(e),
        ) && reports(source_ops(src@, optimised), e)),
        balanced(source_ops(src@, optimised)) ==> exists|v: Seq<Op>|
            resolved_from(source_ops(src@, optimised), v) && #[trigger] ran(
                v,
                old(cpu)@,
                input@,
                fuel as nat,
                final(cpu)@,
                r,
            ),
{
    match compile(src, optimised) {
        Err(e) => Err(RunError::Resolve(e)),
        Ok(ops) => {
            let ghost start = cpu@;
            let res = cpu.exec(&ops, input, fuel);
            let r = match res {
                Ok(out) => Ok(out),
                Err(e) => Err(RunError::Exec(e)),
            };
            assert(ran(ops@, start, input@, fuel as nat, cpu@, r));
            r
        },
    }
}

} // verus!
