use assembler::parse::{parse_integer, split_words};
use assembler::program::{Instruction, Value};
use assembler::registers::Registers;
use assembler::vm::{assemble_lines, simple_assembler, VmError, VM};

fn pairs(r: &Registers) -> Vec<(String, i64)> {
    (0..r.len()).map(|i| r.entry(i)).collect()
}

fn named(v: &[(&str, i64)]) -> Vec<(String, i64)> {
    v.iter().map(|(n, x)| (n.to_string(), *x)).collect()
}

#[test]
fn increments_and_decrements_in_order() {
    let r = simple_assembler(vec!["mov a 5", "inc a", "dec a", "inc a"]).unwrap();
    assert_eq!(pairs(&r), named(&[("a", 6)]));
    assert_eq!(r.get("a"), Some(6));
}

#[test]
fn straight_line_program_sums_its_effects() {
    let r = simple_assembler(vec!["mov a 3", "mov b -2", "inc a", "mov b a", "dec b", "dec b", "inc a"])
        .unwrap();
    assert_eq!(pairs(&r), named(&[("a", 5), ("b", 2)]));
}

#[test]
fn repeated_doubling_program() {
    let r = simple_assembler(vec![
        "mov c 12", "mov b 0", "mov a 200", "dec a", "inc b", "jnz a -2", "dec c", "mov a b",
        "jnz c -5", "jnz 0 1", "mov c a",
    ])
    .unwrap();
    assert_eq!(pairs(&r), named(&[("c", 409600), ("b", 409600), ("a", 409600)]));
}

#[test]
fn two_runs_agree() {
    let text = vec!["mov a 4", "mov b 0", "dec a", "inc b", "jnz a -2"];
    let first = simple_assembler(text.clone()).unwrap();
    let second = simple_assembler(text).unwrap();
    assert_eq!(pairs(&first), pairs(&second));
    assert_eq!(pairs(&first), named(&[("a", 0), ("b", 4)]));
}

#[test]
fn countdown_loop_terminates() {
    let lines: Vec<String> = vec!["mov a 3".to_string(), "dec a".to_string(), "jnz a -1".to_string()];
    let r = assemble_lines(&lines, 7).unwrap();
    assert_eq!(pairs(&r), named(&[("a", 0)]));
    assert!(matches!(assemble_lines(&lines, 6), Err(VmError::StepLimit)));
}

#[test]
fn jump_past_end_halts() {
    let r = simple_assembler(vec!["mov a 1", "inc a", "jnz a 5"]).unwrap();
    assert_eq!(pairs(&r), named(&[("a", 2)]));
}

#[test]
fn jump_before_start_halts() {
    let r = simple_assembler(vec!["mov a 1", "inc a", "jnz a -3"]).unwrap();
    assert_eq!(pairs(&r), named(&[("a", 2)]));
}

#[test]
fn subject_registers_are_seeded() {
    let r = simple_assembler(vec!["inc x"]).unwrap();
    assert_eq!(pairs(&r), named(&[("x", 1)]));
    match simple_assembler(vec!["jnz x 1"]) {
        Err(VmError::UnboundRegister { name, position }) => {
            assert_eq!(name, "x");
            assert_eq!(position, 0);
        }
        other => panic!("unexpected {:?}", other),
    }
    let vm = VM::new(vec!["jnz x 1", "bogus y", "mov 3 z", "dec d"]);
    assert_eq!(pairs(&vm.registers), named(&[("d", 0)]));
}

#[test]
fn counter_leaving_i64_is_an_overflow() {
    assert!(matches!(
        simple_assembler(vec!["mov a 1", "jnz a 9223372036854775807"]),
        Err(VmError::Overflow { position: 1 })
    ));
    let r = simple_assembler(vec!["jnz 1 9223372036854775807", "mov a 1"]).unwrap();
    assert_eq!(pairs(&r), named(&[("a", 0)]));
}

#[test]
fn machine_after_a_run() {
    let mut vm = VM::new(vec!["mov a 3", "mov b 0", "dec a", "inc b", "jnz a -2"]);
    let r = vm.evaluate(100).unwrap();
    assert_eq!(vm.stack_pointer, 5);
    assert_eq!(vm.instructions.len(), 5);
    assert_eq!(pairs(&r), named(&[("a", 0), ("b", 3)]));
    assert_eq!(pairs(&vm.registers), pairs(&r));
    let mut vm = VM::new(vec!["mov a 1", "mov b a", "mov c d"]);
    assert!(matches!(vm.evaluate(100), Err(VmError::UnboundRegister { position: 2, .. })));
    assert_eq!(vm.stack_pointer, 2);
    assert_eq!(pairs(&vm.registers), named(&[("a", 1), ("b", 1), ("c", 0)]));
}

#[test]
fn unestablished_register_is_an_error() {
    match simple_assembler(vec!["mov a 1", "mov a b"]) {
        Err(VmError::UnboundRegister { name, position }) => {
            assert_eq!(name, "b");
            assert_eq!(position, 1);
        }
        other => panic!("unexpected {:?}", other),
    }
    match simple_assembler(vec!["mov a 1", "jnz a y"]) {
        Err(VmError::UnboundRegister { name, position }) => {
            assert_eq!(name, "y");
            assert_eq!(position, 1);
        }
        other => panic!("unexpected {:?}", other),
    }
}

#[test]
fn unsupported_lines_fail_when_reached() {
    assert!(matches!(simple_assembler(vec!["mov a 1", "add a 2"]), Err(VmError::Unsupported { position: 1 })));
    assert!(matches!(simple_assembler(vec![""]), Err(VmError::Unsupported { position: 0 })));
    assert!(matches!(simple_assembler(vec!["inc a b"]), Err(VmError::Unsupported { position: 0 })));
    let r = simple_assembler(vec!["jnz 1 2", "bogus", "mov a 1"]).unwrap();
    assert_eq!(pairs(&r), named(&[("a", 1)]));
}

#[test]
fn overflow_is_an_error() {
    assert!(matches!(
        simple_assembler(vec!["mov a 9223372036854775807", "inc a"]),
        Err(VmError::Overflow { position: 1 })
    ));
    assert!(matches!(
        simple_assembler(vec!["mov a -9223372036854775808", "dec a"]),
        Err(VmError::Overflow { position: 1 })
    ));
}

#[test]
fn text_is_read_without_regard_to_case() {
    let r = simple_assembler(vec!["MOV A 5", "Inc a", "DEC b", "mov B a"]).unwrap();
    assert_eq!(pairs(&r), named(&[("a", 6), ("b", 6)]));
}

#[test]
fn step_limit_stops_an_endless_loop() {
    let lines: Vec<String> = vec!["jnz 1 0".to_string()];
    assert!(matches!(assemble_lines(&lines, 100), Err(VmError::StepLimit)));
}

#[test]
fn registers_keep_order_of_establishment() {
    let r = simple_assembler(vec!["mov b 1", "mov a 2", "inc b", "mov 7 1"]).unwrap();
    assert_eq!(pairs(&r), named(&[("b", 2), ("a", 2), ("7", 1)]));
    assert_eq!(r.get("c"), None);
}

#[test]
fn integer_literals() {
    assert_eq!(parse_integer("42"), Some(42));
    assert_eq!(parse_integer("+5"), Some(5));
    assert_eq!(parse_integer("-0"), Some(0));
    assert_eq!(parse_integer("007"), Some(7));
    assert_eq!(parse_integer("-9223372036854775808"), Some(i64::MIN));
    assert_eq!(parse_integer("9223372036854775807"), Some(i64::MAX));
    assert_eq!(parse_integer("9223372036854775808"), None);
    assert_eq!(parse_integer("-9223372036854775809"), None);
    assert_eq!(parse_integer("-"), None);
    assert_eq!(parse_integer(""), None);
    assert_eq!(parse_integer("12a"), None);
    assert_eq!(parse_integer("a"), None);
}

#[test]
fn words_split_on_ascii_whitespace() {
    assert_eq!(split_words("  mov\ta   5 \r\n"), vec!["mov", "a", "5"]);
    assert!(split_words(" \t ").is_empty());
}

#[test]
fn decoding_lines() {
    let toks = |s: &str| split_words(s);
    assert!(matches!(Instruction::decode(&toks("mov a -3")), Instruction::Mov(ref d, Value::Number(-3)) if d == "a"));
    assert!(matches!(Instruction::decode(&toks("jnz a b")), Instruction::Jnz(Value::Register(ref c), Value::Register(ref o)) if c == "a" && o == "b"));
    assert!(matches!(Instruction::decode(&toks("dec q")), Instruction::Dec(ref r) if r == "q"));
    assert!(matches!(Instruction::decode(&toks("mov a")), Instruction::Unsupported));
}

#[test]
fn register_ends_at_last_mov_plus_incs_less_decs() {
    let r = simple_assembler(vec!["inc a", "mov a 10", "inc a", "dec b", "inc a", "dec a", "inc b", "inc b"])
        .unwrap();
    assert_eq!(pairs(&r), named(&[("a", 11), ("b", 1)]));
}

#[test]
fn instruction_on_any_counter() {
    let mut vm = VM::new(vec!["mov a 1"]);
    vm.stack_pointer = 7;
    Instruction::Inc("a".to_string()).evaluate(&mut vm).unwrap();
    assert_eq!(vm.stack_pointer, 8);
    assert_eq!(pairs(&vm.registers), named(&[("a", 1)]));
    vm.stack_pointer = 3;
    Instruction::Jnz(Value::Number(1), Value::Number(-9)).evaluate(&mut vm).unwrap();
    assert_eq!(vm.stack_pointer, -6);
    assert!(matches!(
        Instruction::Unsupported.evaluate(&mut vm),
        Err(VmError::Unsupported { position: -6 })
    ));
    assert_eq!(vm.stack_pointer, -6);
}
