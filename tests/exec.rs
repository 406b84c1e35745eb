use bri::cpu::{Cpu, Effect, ExecError, Step, RAM_SIZE};
use bri::op::Op;
use bri::pipeline::{compile, run, RunError};
use bri::resolve::ResolveError;

const FUEL: usize = 1_000_000;

fn run_both(src: &str, input: &[u8]) -> Result<Vec<u8>, RunError> {
    let input = input.to_vec();
    let plain = run(src, &mut Cpu::default(), false, &input, FUEL);
    let optimised = run(src, &mut Cpu::default(), true, &input, FUEL);
    assert_eq!(plain, optimised);
    optimised
}

#[test]
fn writes_three() {
    assert_eq!(run_both("+++.", &[]), Ok(vec![3]));
}

#[test]
fn multiplies_in_a_loop() {
    assert_eq!(run_both("++++++++[>++++++++<-]>.", &[]), Ok(vec![64]));
}

#[test]
fn echoes_input() {
    assert_eq!(run_both(",.", &[0x5a]), Ok(vec![0x5a]));
    assert_eq!(run_both(",.,.", &[1, 2]), Ok(vec![1, 2]));
}

#[test]
fn reading_past_input_fails() {
    assert_eq!(
        run(",.", &mut Cpu::default(), true, &vec![], FUEL),
        Err(RunError::Exec(ExecError::InputExhausted))
    );
}

#[test]
fn clear_loop_zeroes_a_nonzero_cell() {
    for optimised in [false, true] {
        let mut cpu = Cpu::default();
        assert_eq!(run("+++++", &mut cpu, optimised, &vec![], FUEL), Ok(vec![]));
        assert_eq!(cpu.cell(), 5);
        assert_eq!(run("[-]", &mut cpu, optimised, &vec![], FUEL), Ok(vec![]));
        assert_eq!(cpu.cell(), 0);
    }
}

#[test]
fn pointer_bounds_are_errors() {
    let mut cpu = Cpu::default();
    assert_eq!(
        run("<", &mut cpu, false, &vec![], FUEL),
        Err(RunError::Exec(ExecError::BeforeFirstCell))
    );
    let right = ">".repeat(RAM_SIZE);
    for optimised in [false, true] {
        let mut cpu = Cpu::default();
        assert_eq!(
            run(&right, &mut cpu, optimised, &vec![], FUEL),
            Err(RunError::Exec(ExecError::PastLastCell))
        );
    }
    let last = ">".repeat(RAM_SIZE - 1) + ".";
    assert_eq!(run_both(&last, &[]), Ok(vec![0]));
}

#[test]
fn cell_arithmetic_wraps() {
    let src = "+".repeat(256) + ".";
    assert_eq!(run_both(&src, &[]), Ok(vec![0]));
    assert_eq!(run_both("-.", &[]), Ok(vec![255]));
    assert_eq!(run_both(",+.", &[255]), Ok(vec![0]));
    let src = "+".repeat(300) + "-.";
    assert_eq!(run_both(&src, &[]), Ok(vec![43]));
}

#[test]
fn optimisation_keeps_output() {
    let programs = [
        "++++++++[>++++[>++>+++>+++>+<<<<-]>+>+>->>+[<]<-]>>.>---.+++++++..+++.>>.<-.<.+++.------.--------.>>+.",
        "[.]+++[>+++<-]>[-]+.[-][.][.]",
        ",[.-]",
        "++[>+[>+<-]<-]>>.<<.",
    ];
    for src in programs {
        let out = run_both(src, &[3]);
        assert!(out.is_ok());
    }
    assert_eq!(
        run_both(programs[0], &[]),
        Ok(b"Hello World!".to_vec())
    );
    assert_eq!(run_both(programs[2], &[3]), Ok(vec![3, 2, 1]));
}

#[test]
fn unbalanced_source_is_rejected() {
    let mut cpu = Cpu::default();
    assert_eq!(
        run("+[", &mut cpu, true, &vec![], FUEL),
        Err(RunError::Resolve(ResolveError::UnmatchedOpen(2)))
    );
    assert_eq!(
        compile("]", false),
        Err(ResolveError::UnmatchedClose(1))
    );
}

#[test]
fn endless_program_hits_step_limit() {
    let mut cpu = Cpu::default();
    assert_eq!(
        run("+[]", &mut cpu, false, &vec![], 100),
        Err(RunError::Exec(ExecError::StepLimit))
    );
}

#[test]
fn step_reports_effects() {
    let ops = compile(",.#", false).unwrap();
    let mut cpu = Cpu::default();
    assert_eq!(cpu.step(&ops, 0), Ok(Step { next: 1, effect: Effect::Input }));
    cpu.store_input(7);
    assert_eq!(cpu.step(&ops, 1), Ok(Step { next: 2, effect: Effect::Output(7) }));
    assert_eq!(cpu.step(&ops, 2), Ok(Step { next: 3, effect: Effect::Inspect }));
    assert_eq!(cpu.pointer(), 0);
}

#[test]
fn debug_window_is_clipped() {
    let mut cpu = Cpu::default();
    assert_eq!(run("+>++>+++<", &mut cpu, false, &vec![], FUEL), Ok(vec![]));
    let w = cpu.debug(5);
    assert_eq!(w.before, vec![1]);
    assert_eq!(w.current, 2);
    assert_eq!(w.after, vec![3, 0, 0, 0, 0]);
    assert!(!w.clipped_start);
    assert!(w.clipped_end);
    let w = cpu.debug(0);
    assert!(w.before.is_empty() && w.after.is_empty());
    assert!(w.clipped_start);
}

#[test]
fn reset_clears_the_machine() {
    let mut cpu = Cpu::default();
    assert_eq!(run("+++>+", &mut cpu, true, &vec![], FUEL), Ok(vec![]));
    cpu.reset();
    assert_eq!(cpu.pointer(), 0);
    assert_eq!(cpu.cell(), 0);
}

#[test]
fn compiled_program_has_no_erased_slots() {
    let ops = compile("+-+-[-]>[<]", true).unwrap();
    assert!(!ops.contains(&Op::Empty));
}

#[test]
fn folding_can_remove_a_bounds_error() {
    // the moves cancel out once folded, so the optimised program never leaves the tape
    let src = ">".repeat(RAM_SIZE) + &"<".repeat(RAM_SIZE) + ".";
    assert_eq!(
        run(&src, &mut Cpu::default(), false, &vec![], FUEL),
        Err(RunError::Exec(ExecError::PastLastCell))
    );
    assert_eq!(run(&src, &mut Cpu::default(), true, &vec![], FUEL), Ok(vec![0]));
}
