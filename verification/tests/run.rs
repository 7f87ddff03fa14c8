use bfcode::{compile, interpreter, Comm, Effect, Fault, Machine, Run, Status, TAPE_LEN};

const LIMIT: u64 = 1_000_000;

fn run(source: &str, input: &[u8]) -> Run {
    let code = compile(source.as_bytes().to_vec()).expect("the brackets balance");
    interpreter(&code, &input.to_vec(), LIMIT)
}

#[test]
fn eight_times_eight_is_an_at_sign() {
    let r = run("++++++++[>++++++++<-]>.", &[]);
    assert_eq!(r.output, vec![64]);
    assert_eq!(r.output, b"@".to_vec());
    assert_eq!(r.status, Status::Halted);
    assert_eq!(r.machine.cell(0), Some(0));
    assert_eq!(r.machine.cell(1), Some(64));
    assert_eq!(r.machine.pointer(), 0);
    assert_eq!(r.machine.counter(), 6);
}

#[test]
fn unclosed_loop_never_runs() {
    assert!(compile(b"+[".to_vec()).is_err());
}

#[test]
fn echo_one_byte() {
    let r = run(",.", &[65]);
    assert_eq!(r.output, vec![65]);
    assert_eq!(r.status, Status::Halted);
    assert_eq!(r.taken, 1);
}

#[test]
fn echo_without_input_is_a_fault() {
    let r = run(",.", &[]);
    assert!(r.output.is_empty());
    assert_eq!(r.status, Status::Faulted(Fault::InputExhausted));
    assert_eq!(r.taken, 0);
    assert_eq!(r.machine.counter(), 0);
}

#[test]
fn input_runs_out_in_the_middle() {
    let r = run(",.,.,.", &[1, 2]);
    assert_eq!(r.output, vec![1, 2]);
    assert_eq!(r.status, Status::Faulted(Fault::InputExhausted));
    assert_eq!(r.taken, 2);
    assert_eq!(r.machine.counter(), 4);
}

#[test]
fn input_left_over_is_not_consumed() {
    let r = run(",", &[7, 8, 9]);
    assert_eq!(r.taken, 1);
    assert_eq!(r.machine.cell(0), Some(7));
    assert_eq!(r.status, Status::Halted);
}

#[test]
fn zero_minus_one_is_255() {
    let r = run("-.", &[]);
    assert_eq!(r.output, vec![255]);
    assert_eq!(r.status, Status::Halted);
    assert_eq!(r.machine.cell(0), Some(255));
}

#[test]
fn addition_wraps_at_256() {
    let r = run(",+++.", &[254]);
    assert_eq!(r.output, vec![1]);
    let r = run(",++.", &[254]);
    assert_eq!(r.output, vec![0]);
    let r = run(",+.", &[254]);
    assert_eq!(r.output, vec![255]);
}

#[test]
fn subtraction_wraps_at_zero() {
    let r = run(",---.", &[2]);
    assert_eq!(r.output, vec![255]);
    let r = run(",--.", &[2]);
    assert_eq!(r.output, vec![0]);
    let r = run(",-----.", &[200]);
    assert_eq!(r.output, vec![195]);
}

#[test]
fn plus_and_minus_change_one_cell() {
    let code = vec![Comm::Plus(3, 200), Comm::Plus(3, 100), Comm::Minus(5, 1)];
    let r = interpreter(&code, &vec![], LIMIT);
    assert_eq!(r.status, Status::Halted);
    assert_eq!(r.machine.cell(3), Some(44));
    assert_eq!(r.machine.cell(5), Some(255));
    assert_eq!(r.machine.cell(4), Some(0));
    assert_eq!(r.machine.cell(0), Some(0));
    assert_eq!(r.machine.pointer(), 0);
}

#[test]
fn clear_idiom_and_loop_agree() {
    for value in [0u8, 1, 2, 77, 255] {
        let idiom = run(">>,[-].", &[value]);
        let counted = run(">>,[ -].", &[value]);
        assert_eq!(idiom.output, vec![0]);
        assert_eq!(counted.output, vec![0]);
        assert_eq!(idiom.status, Status::Halted);
        assert_eq!(counted.status, Status::Halted);
        assert_eq!(idiom.machine.cell(2), Some(0));
        assert_eq!(counted.machine.cell(2), Some(0));
        assert_eq!(idiom.machine.pointer(), 0);
        assert_eq!(counted.machine.pointer(), 2);
    }
}

#[test]
fn clear_is_one_step_and_the_loop_two_for_each_unit() {
    let set = vec![Comm::Plus(2, 5)];
    let mut idiom = set.clone();
    idiom.push(Comm::Clear(2));
    assert_eq!(interpreter(&idiom, &vec![], 2).status, Status::Halted);
    assert_eq!(interpreter(&idiom, &vec![], 1).status, Status::Unfinished);

    let mut counted = set.clone();
    counted.extend([
        Comm::Pointer(2),
        Comm::LP(4),
        Comm::Minus(0, 1),
        Comm::RP(2),
    ]);
    assert_eq!(interpreter(&counted, &vec![], 13).status, Status::Halted);
    assert_eq!(
        interpreter(&counted, &vec![], 12).status,
        Status::Unfinished
    );
    assert_eq!(interpreter(&counted, &vec![], 13).machine.cell(2), Some(0));
}

#[test]
fn loop_on_zero_is_skipped() {
    let r = run("[+.>,]", &[9]);
    assert!(r.output.is_empty());
    assert_eq!(r.taken, 0);
    assert_eq!(r.status, Status::Halted);
    assert_eq!(r.machine.cell(0), Some(0));
    assert_eq!(r.machine.pointer(), 0);
}

#[test]
fn skipping_a_loop_is_one_step() {
    let code = compile(b"[+[.]>]-".to_vec()).unwrap();
    assert_eq!(code[0], Comm::LP(6));
    let mut machine = Machine::new();
    assert_eq!(machine.step(&code, None), Ok(Effect::Silent));
    assert_eq!(machine.counter(), 7);
    assert_eq!(machine.pointer(), 0);
    assert_eq!(machine.cell(0), Some(0));
    assert_eq!(code[7], Comm::Minus(0, 1));
}

#[test]
fn loop_end_goes_back_behind_the_loop_head() {
    let code = compile(b"+[-]+[ -]".to_vec()).unwrap();
    assert_eq!(
        code,
        vec![
            Comm::Plus(0, 1),
            Comm::Clear(0),
            Comm::Plus(0, 1),
            Comm::LP(5),
            Comm::Minus(0, 1),
            Comm::RP(3),
        ]
    );
    let code = vec![Comm::Plus(0, 2), Comm::LP(3), Comm::Minus(0, 1), Comm::RP(1)];
    let mut machine = Machine::new();
    for expected in [1, 2, 3, 2, 3, 4] {
        assert!(!machine.halted(&code));
        machine.step(&code, None).unwrap();
        assert_eq!(machine.counter(), expected);
    }
    assert!(machine.halted(&code));
}

#[test]
fn nested_loops_multiply() {
    let r = run("++[>+++[>++++<-]<-]>>.", &[]);
    assert_eq!(r.output, vec![24]);
    assert_eq!(r.status, Status::Halted);
}

#[test]
fn hello() {
    let r = run(
        "++++++++[>++++[>++>+++>+++>+<<<<-]>+>+>->>+[<]<-]>>.>---.+++++++..+++.",
        &[],
    );
    assert_eq!(r.output, b"Hello".to_vec());
    assert_eq!(r.status, Status::Halted);
}

#[test]
fn reverse_the_input() {
    let r = run(">,[>,]<[.<]", &[1, 2, 3, 0]);
    assert_eq!(r.output, vec![3, 2, 1]);
    assert_eq!(r.taken, 4);
    assert_eq!(r.status, Status::Halted);
}

#[test]
fn access_left_of_the_tape_is_a_fault() {
    let r = run("<+.", &[]);
    assert_eq!(r.status, Status::Faulted(Fault::Bounds));
    assert!(r.output.is_empty());
    assert_eq!(r.machine.counter(), 0);
    assert_eq!(r.machine.cell(0), Some(0));
}

#[test]
fn access_right_of_the_tape_is_a_fault() {
    let mut source = vec![b'>'; TAPE_LEN];
    source.extend(b"+.");
    let code = compile(source).unwrap();
    assert_eq!(code, vec![Comm::Plus(65535, 1), Comm::Dot(65535)]);
    let r = interpreter(&code, &vec![], LIMIT);
    assert_eq!(r.status, Status::Faulted(Fault::Bounds));
    assert!(r.output.is_empty());
    assert_eq!(r.machine.counter(), 0);
}

#[test]
fn last_cell_of_the_tape_is_a_cell() {
    let mut source = vec![b'>'; TAPE_LEN - 1];
    source.extend(b"+.");
    let r = interpreter(&compile(source).unwrap(), &vec![], LIMIT);
    assert_eq!(r.status, Status::Halted);
    assert_eq!(r.output, vec![1]);
    assert_eq!(r.machine.cell(TAPE_LEN - 1), Some(1));
    assert_eq!(r.machine.cell(TAPE_LEN), None);
}

#[test]
fn every_access_outside_the_tape_faults() {
    for access in [
        Comm::Plus(0, 1),
        Comm::Minus(0, 1),
        Comm::Dot(0),
        Comm::Comma(0),
        Comm::LP(0),
        Comm::RP(0),
        Comm::Clear(0),
    ] {
        for distance in [-1, 65535, i32::MAX, i32::MIN] {
            let code = vec![Comm::Pointer(distance), access, Comm::Dot(-distance.max(-i32::MAX))];
            let r = interpreter(&code, &vec![1], LIMIT);
            assert_eq!(r.status, Status::Faulted(Fault::Bounds));
            assert!(r.output.is_empty());
            assert_eq!(r.taken, 0);
            assert_eq!(r.machine.counter(), 1);
            assert_eq!(r.machine.pointer(), distance as i128);
        }
    }
}

#[test]
fn bounds_come_before_input() {
    let r = run("<,", &[]);
    assert_eq!(r.status, Status::Faulted(Fault::Bounds));
}

#[test]
fn pointer_may_leave_the_tape_between_accesses() {
    let r = run("<<<>>>+.", &[]);
    assert_eq!(r.status, Status::Halted);
    assert_eq!(r.output, vec![1]);
    let code = vec![
        Comm::Pointer(i32::MIN),
        Comm::Pointer(i32::MIN),
        Comm::Pointer(i32::MAX),
        Comm::Pointer(i32::MAX),
        Comm::Plus(2, 7),
        Comm::Dot(2),
    ];
    let r = interpreter(&code, &vec![], LIMIT);
    assert_eq!(r.status, Status::Halted);
    assert_eq!(r.output, vec![7]);
    assert_eq!(r.machine.pointer(), -2);
    assert_eq!(r.machine.cell(0), Some(7));
}

#[test]
fn jump_needs_the_pointer_on_the_tape() {
    let r = run("<[+]", &[]);
    assert_eq!(r.status, Status::Faulted(Fault::Bounds));
    assert_eq!(r.machine.counter(), 1);
    assert_eq!(r.machine.pointer(), -1);
}

#[test]
fn endless_loop_stops_at_the_limit() {
    let code = compile(b"+[]".to_vec()).unwrap();
    let r = interpreter(&code, &vec![], 1000);
    assert_eq!(r.status, Status::Unfinished);
    assert_eq!(r.machine.cell(0), Some(1));
    let r = interpreter(&code, &vec![], 0);
    assert_eq!(r.status, Status::Unfinished);
    assert_eq!(r.machine.counter(), 0);
}

#[test]
fn empty_program_halts_at_once() {
    let r = interpreter(&vec![], &vec![1], 0);
    assert_eq!(r.status, Status::Halted);
    assert!(r.output.is_empty());
    assert_eq!(r.taken, 0);
}

#[test]
fn limit_counts_instructions() {
    let code = vec![Comm::Plus(0, 1), Comm::Dot(0), Comm::Dot(0)];
    let r = interpreter(&code, &vec![], 2);
    assert_eq!(r.status, Status::Unfinished);
    assert_eq!(r.output, vec![1]);
    assert_eq!(r.machine.counter(), 2);
    let r = interpreter(&code, &vec![], 3);
    assert_eq!(r.status, Status::Halted);
    assert_eq!(r.output, vec![1, 1]);
}

#[test]
fn jump_out_of_the_program_halts() {
    let code = vec![Comm::LP(100), Comm::Dot(0)];
    let r = interpreter(&code, &vec![], LIMIT);
    assert_eq!(r.status, Status::Halted);
    assert!(r.output.is_empty());
    assert_eq!(r.machine.counter(), 2);
    let code = vec![Comm::Plus(0, 1), Comm::RP(usize::MAX), Comm::Dot(0)];
    let r = interpreter(&code, &vec![], LIMIT);
    assert_eq!(r.status, Status::Halted);
    assert!(r.output.is_empty());
}

#[test]
fn fresh_machine() {
    let machine = Machine::new();
    assert_eq!(machine.pointer(), 0);
    assert_eq!(machine.counter(), 0);
    assert_eq!(machine.cell(0), Some(0));
    assert_eq!(machine.cell(65534), Some(0));
    assert_eq!(machine.cell(65535), None);
    assert_eq!(TAPE_LEN, 65535);
    assert!(machine.halted(&vec![]));
    assert!(!machine.halted(&vec![Comm::Dot(0)]));
}

#[test]
fn step_by_step() {
    let code = vec![Comm::Comma(1), Comm::Pointer(1), Comm::Dot(0), Comm::Comma(-2)];
    let mut machine = Machine::new();
    assert!(machine.awaits_input(&code));
    assert_eq!(machine.step(&code, Some(42)), Ok(Effect::Read));
    assert_eq!(machine.cell(1), Some(42));
    assert!(!machine.awaits_input(&code));
    assert_eq!(machine.step(&code, Some(1)), Ok(Effect::Silent));
    assert_eq!(machine.pointer(), 1);
    assert_eq!(machine.step(&code, None), Ok(Effect::Wrote(42)));
    assert_eq!(machine.counter(), 3);
    assert!(!machine.awaits_input(&code));
    assert_eq!(machine.step(&code, Some(5)), Err(Fault::Bounds));
    assert_eq!(machine.counter(), 3);
    assert_eq!(machine.pointer(), 1);
    assert!(!machine.halted(&code));
}

#[test]
fn fault_leaves_the_machine_as_it_was() {
    let code = vec![Comm::Plus(0, 3), Comm::Comma(0)];
    let mut machine = Machine::new();
    machine.step(&code, None).unwrap();
    assert_eq!(machine.step(&code, None), Err(Fault::InputExhausted));
    assert_eq!(machine.cell(0), Some(3));
    assert_eq!(machine.counter(), 1);
    assert_eq!(machine.step(&code, Some(9)), Ok(Effect::Read));
    assert_eq!(machine.cell(0), Some(9));
    assert!(machine.halted(&code));
    assert!(!machine.awaits_input(&code));
}
