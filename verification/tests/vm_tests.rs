use minilang::{Opcode, VM, VMError};

fn push_instr(buf: &mut Vec<u8>, v: i64) {
    buf.push(Opcode::Push.as_byte());
    buf.extend_from_slice(&v.to_le_bytes());
}

#[test]
fn test_push_pop() {
    let program = vec![
        Opcode::Push.as_byte(),
        42, 0, 0, 0, 0, 0, 0, 0, // Push 42
        Opcode::Push.as_byte(),
        123, 0, 0, 0, 0, 0, 0, 0, // Push 123
        Opcode::Pop.as_byte(),
        Opcode::Halt.as_byte(),
    ];

    let mut vm = VM::new(program, 100);
    vm.run().unwrap();

    assert_eq!(vm.get_stack(), &[42]);
}

#[test]
fn test_arithmetic() {
    let program = vec![
        Opcode::Push.as_byte(),
        10, 0, 0, 0, 0, 0, 0, 0, // Push 10
        Opcode::Push.as_byte(),
        5, 0, 0, 0, 0, 0, 0, 0, // Push 5
        Opcode::Add.as_byte(), // 10 + 5
        Opcode::Push.as_byte(),
        2, 0, 0, 0, 0, 0, 0, 0, // Push 2
        Opcode::Mul.as_byte(), // (10 + 5) * 2
        Opcode::Halt.as_byte(),
    ];

    let mut vm = VM::new(program, 100);
    vm.run().unwrap();

    assert_eq!(vm.get_stack(), &[30]);
}

#[test]
fn test_division_truncates_toward_zero() {
    let mut program = Vec::new();
    push_instr(&mut program, -7);
    push_instr(&mut program, 2);
    program.push(Opcode::Div.as_byte());
    program.push(Opcode::Halt.as_byte());

    let mut vm = VM::new(program, 10);
    vm.run().unwrap();
    assert_eq!(vm.get_stack(), &[-3]);
}

#[test]
fn test_division_by_zero_pops_both_operands() {
    let mut program = Vec::new();
    push_instr(&mut program, 9);
    push_instr(&mut program, 1);
    push_instr(&mut program, 0);
    program.push(Opcode::Div.as_byte());
    program.push(Opcode::Halt.as_byte());

    let mut vm = VM::new(program, 10);
    let r = vm.run();
    assert!(matches!(r, Err(VMError::DivisionByZero)));
    // only the two operands of the failing div are gone
    assert_eq!(vm.get_stack(), &[9]);
}

#[test]
fn test_stack_overflow_keeps_stack() {
    let mut program = Vec::new();
    push_instr(&mut program, 1);
    push_instr(&mut program, 2);
    push_instr(&mut program, 3);
    program.push(Opcode::Halt.as_byte());

    let mut vm = VM::new(program, 2);
    let r = vm.run();
    assert!(matches!(r, Err(VMError::StackOverflow)));
    assert_eq!(vm.get_stack(), &[1, 2]);
}

#[test]
fn test_stack_underflow() {
    let program = vec![Opcode::Add.as_byte(), Opcode::Halt.as_byte()];
    let mut vm = VM::new(program, 10);
    assert!(matches!(vm.run(), Err(VMError::StackUnderflow)));
}

#[test]
fn test_invalid_opcode_carries_byte() {
    let program = vec![0xABu8];
    let mut vm = VM::new(program, 10);
    assert!(matches!(vm.run(), Err(VMError::InvalidOpcode(0xAB))));
}

#[test]
fn test_jump_out_of_bounds() {
    let mut program = Vec::new();
    push_instr(&mut program, 1000);
    program.push(Opcode::Jump.as_byte());
    program.push(Opcode::Halt.as_byte());
    let mut vm = VM::new(program, 10);
    assert!(matches!(vm.run(), Err(VMError::OutOfMemory(1000))));
}

#[test]
fn test_store_and_load() {
    let mut program = Vec::new();
    push_instr(&mut program, 4); // address
    push_instr(&mut program, 99); // value
    program.push(Opcode::Store.as_byte());
    push_instr(&mut program, 4);
    program.push(Opcode::Load.as_byte());
    program.push(Opcode::Halt.as_byte());

    let mut vm = VM::new(program, 10);
    vm.run().unwrap();
    assert_eq!(vm.get_stack(), &[99]);
    assert_eq!(vm.get_memory().get(&4), Some(&99));
}

#[test]
fn test_load_unset_address_reads_zero() {
    let mut program = Vec::new();
    push_instr(&mut program, 7);
    program.push(Opcode::Load.as_byte());
    program.push(Opcode::Halt.as_byte());
    let mut vm = VM::new(program, 10);
    vm.run().unwrap();
    assert_eq!(vm.get_stack(), &[0]);
}

#[test]
fn test_comparison_opcodes() {
    for (op, a, b, expect) in [
        (Opcode::Equal, 3, 3, 1),
        (Opcode::Equal, 3, 4, 0),
        (Opcode::Less, 3, 4, 1),
        (Opcode::Less, 4, 3, 0),
        (Opcode::LessEqual, 3, 3, 1),
        (Opcode::LessEqual, 4, 3, 0),
        (Opcode::GreaterEqual, 4, 3, 1),
        (Opcode::GreaterEqual, 2, 3, 0),
    ] {
        let mut program = Vec::new();
        push_instr(&mut program, a);
        push_instr(&mut program, b);
        program.push(op.as_byte());
        program.push(Opcode::Halt.as_byte());
        let mut vm = VM::new(program, 10);
        vm.run().unwrap();
        assert_eq!(vm.get_stack(), &[expect]);
    }
}

#[test]
fn test_wrapping_arithmetic() {
    let mut program = Vec::new();
    push_instr(&mut program, i64::MAX);
    push_instr(&mut program, 1);
    program.push(Opcode::Add.as_byte());
    program.push(Opcode::Halt.as_byte());
    let mut vm = VM::new(program, 10);
    vm.run().unwrap();
    assert_eq!(vm.get_stack(), &[i64::MIN]);

    let mut program = Vec::new();
    push_instr(&mut program, i64::MIN);
    push_instr(&mut program, -1);
    program.push(Opcode::Div.as_byte());
    program.push(Opcode::Halt.as_byte());
    let mut vm = VM::new(program, 10);
    vm.run().unwrap();
    assert_eq!(vm.get_stack(), &[i64::MIN]);
}

#[test]
fn test_print_appends_to_output() {
    let mut program = Vec::new();
    push_instr(&mut program, 11);
    program.push(Opcode::Print.as_byte());
    push_instr(&mut program, 22);
    program.push(Opcode::Print.as_byte());
    program.push(Opcode::Halt.as_byte());
    let mut vm = VM::new(program, 10);
    vm.run().unwrap();
    assert_eq!(vm.get_output(), &[11, 22]);
    assert_eq!(vm.get_stack(), &[] as &[i64]);
}

#[test]
fn test_same_bytecode_two_fresh_vms_agree() {
    let mut program = Vec::new();
    push_instr(&mut program, 6);
    push_instr(&mut program, 7);
    program.push(Opcode::Mul.as_byte());
    program.push(Opcode::Print.as_byte());
    push_instr(&mut program, 0);
    push_instr(&mut program, 5);
    program.push(Opcode::Store.as_byte());
    program.push(Opcode::Halt.as_byte());

    let mut vm1 = VM::new(program.clone(), 16);
    let mut vm2 = VM::new(program, 16);
    let r1 = vm1.run();
    let r2 = vm2.run();
    assert!(r1.is_ok() && r2.is_ok());
    assert_eq!(vm1.get_stack(), vm2.get_stack());
    assert_eq!(vm1.get_output(), vm2.get_output());
    assert_eq!(vm1.get_memory(), vm2.get_memory());
}

#[test]
fn test_opcode_try_from_round_trip() {
    for op in [
        Opcode::Push,
        Opcode::Pop,
        Opcode::Add,
        Opcode::Sub,
        Opcode::Mul,
        Opcode::Div,
        Opcode::Load,
        Opcode::Store,
        Opcode::Jump,
        Opcode::JumpIf,
        Opcode::Equal,
        Opcode::Less,
        Opcode::Print,
        Opcode::LessEqual,
        Opcode::GreaterEqual,
        Opcode::Halt,
    ] {
        assert_eq!(Opcode::try_from(op.as_byte()), Ok(op));
    }
    assert_eq!(Opcode::try_from(0x10), Err(VMError::InvalidOpcode(0x10)));
}

#[test]
fn test_execute_next_single_steps() {
    let mut program = Vec::new();
    push_instr(&mut program, 5);
    program.push(Opcode::Halt.as_byte());
    let mut vm = VM::new(program, 10);
    assert_eq!(vm.execute_next(), Ok(true)); // the push
    assert_eq!(vm.get_stack(), &[5]);
    assert_eq!(vm.execute_next(), Ok(false)); // the halt
    assert_eq!(vm.get_stack(), &[5]);
}

#[test]
fn test_running_past_the_end_is_an_error() {
    let mut vm = VM::new(Vec::new(), 10);
    assert_eq!(vm.execute_next(), Err(VMError::InvalidOpcode(0)));
}

#[test]
fn test_truncated_push_operand_is_an_error() {
    let program = vec![Opcode::Push.as_byte(), 1, 2, 3];
    let mut vm = VM::new(program, 10);
    assert_eq!(vm.run(), Err(VMError::InvalidOpcode(0x01)));
}
