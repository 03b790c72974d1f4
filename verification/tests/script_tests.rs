use junctiontrace::dictionary::Dictionary;
use junctiontrace::error::{JunctionError, Subject};
use junctiontrace::model::ScriptOp;
use junctiontrace::run_script_bytes;
use junctiontrace::script::{compile_and_run, parse_script_program, run_program};

fn program(pid: u16, ops: &[&[u8]]) -> Vec<u8> {
    let mut v = pid.to_le_bytes().to_vec();
    v.push(ops.len() as u8);
    for op in ops {
        v.extend_from_slice(op);
    }
    v
}

#[test]
fn script_parses_every_opcode() {
    let data = program(
        0x100,
        &[&[1, 5, 0], &[1, 7, 0], &[3], &[7, 0xff], &[5, 4], &[7, 0], &[0x0a, 1, 2], &[0xff], &[7, 1]],
    );
    let p = parse_script_program(&data, &Dictionary::new()).unwrap();
    assert_eq!(p.program_id, 0x100);
    assert_eq!(p.opcodes.len(), 9);
    assert!(matches!(p.opcodes[0], ScriptOp::LoadConst(5)));
    assert!(matches!(p.opcodes[2], ScriptOp::Add));
    assert!(matches!(p.opcodes[4], ScriptOp::Rotate(4)));
    assert!(matches!(&p.opcodes[6], ScriptOp::Vendor(0x0a, v) if v == &vec![1u8, 2]));
    assert!(matches!(p.opcodes[7], ScriptOp::Halt));
}

#[test]
fn script_runs_until_halt() {
    let data = program(
        0x100,
        &[&[1, 5, 0], &[1, 7, 0], &[3], &[7, 0xff], &[5, 4], &[7, 0], &[0x0a, 1, 2], &[0xff], &[7, 1]],
    );
    let r = run_script_bytes(&data).unwrap();
    assert_eq!(r.program_id, 0x100);
    assert_eq!(r.emitted, vec![243u8, 192]);
    assert_eq!(r.accumulator, 3078);
    assert_eq!(r.steps, 8);
}

#[test]
fn script_high_dictionary_reference_becomes_constant() {
    let data = program(0x0f0f, &[&[2, 0x01, 0x80], &[2, 0x02, 0x00], &[0x81, 9]]);
    let p = parse_script_program(&data, &Dictionary::new()).unwrap();
    assert!(matches!(p.opcodes[0], ScriptOp::LoadConst(0x8f0e)));
    assert!(matches!(p.opcodes[1], ScriptOp::LoadDict(2)));
    let r = run_program(&p);
    assert_eq!(r.accumulator, 7703);
    assert_eq!(r.steps, 3);
}

#[test]
fn script_known_dictionary_reference_stays() {
    let mut d = Dictionary::new();
    d.parse_page(&[1, 0x01, 0x80, 2, 0, 0, 0, 0]).unwrap();
    let data = program(0x0f0f, &[&[2, 0x01, 0x80]]);
    let p = parse_script_program(&data, &d).unwrap();
    assert!(matches!(p.opcodes[0], ScriptOp::LoadDict(0x8001)));
}

#[test]
fn script_step_limit_stops_a_loop() {
    let data = program(1, &[&[1, 0, 0], &[6, 0]]);
    let r = compile_and_run(&data).unwrap();
    assert_eq!(r.steps, 512);
    assert_eq!(r.accumulator, 1);
}

#[test]
fn script_branch_skips_forward() {
    let data = program(0, &[&[6, 2], &[7, 0x11], &[7, 0x22], &[7, 0x33]]);
    let r = run_script_bytes(&data).unwrap();
    assert_eq!(r.emitted, vec![0x22u8, 0x33]);
    assert_eq!(r.steps, 3);
}

#[test]
fn script_vendor_samples_the_stack() {
    let r = run_script_bytes(&program(3, &[&[1, 0x10, 0], &[1, 0x20, 0], &[0x81, 5]])).unwrap();
    assert_eq!(r.accumulator, 19);
    let r = run_script_bytes(&program(3, &[&[1, 0x10, 0], &[1, 0x20, 0], &[0x81, 6]])).unwrap();
    assert_eq!(r.accumulator, 32);
    let r = run_script_bytes(&program(3, &[&[1, 0x10, 0], &[1, 0x20, 0], &[0x82, 0x41, 0x42]])).unwrap();
    assert_eq!(r.accumulator, 374);
}

#[test]
fn script_errors() {
    assert_eq!(
        run_script_bytes(&[1]).err(),
        Some(JunctionError::Truncated { needed: 3, remaining: 1 })
    );
    assert_eq!(
        run_script_bytes(&[1, 0, 193]).err(),
        Some(JunctionError::LimitExceeded(Subject::ScriptOpcodes))
    );
    assert_eq!(
        run_script_bytes(&[1, 0, 1, 1, 5]).err(),
        Some(JunctionError::Truncated { needed: 2, remaining: 1 })
    );
}

#[test]
fn script_short_vendor_operand_ends_program() {
    let r = parse_script_program(&[1, 0, 2, 7, 1, 0x0b, 1], &Dictionary::new()).unwrap();
    assert_eq!(r.opcodes.len(), 1);
    let r = parse_script_program(&[1, 0, 5, 3], &Dictionary::new()).unwrap();
    assert_eq!(r.opcodes.len(), 1);
}

#[test]
fn script_empty_program_takes_no_step() {
    let r = run_script_bytes(&[9, 0, 0]).unwrap();
    assert_eq!(r.steps, 0);
    assert_eq!(r.accumulator, 9);
    assert!(r.emitted.is_empty());
}
