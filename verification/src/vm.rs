use vstd::prelude::*;
use vstd::bytes::{spec_u64_from_le_bytes, spec_u64_to_le_bytes, lemma_auto_spec_u64_to_from_le_bytes, u64_from_le_bytes};
use vstd::slice::slice_subrange;
use std::collections::HashMap;

verus! {

broadcast use vstd::std_specs::hash::group_hash_axioms;

/// The fatal conditions a running machine can report.
#[derive(Debug, Clone, Copy, PartialEq, Eq, Structural)]
pub enum VMError {
    StackUnderflow,
    StackOverflow,
    InvalidOpcode(u8),
    OutOfMemory(usize),
    DivisionByZero,
}

/// The instruction set. `Push` is followed in the byte stream by an
/// 8-byte little-endian signed operand; every other opcode stands alone.
#[derive(Debug, Clone, Copy, PartialEq, Eq, Structural)]
pub enum Opcode {
    Push,
    Pop,
    Add,
    Sub,
    Mul,
    Div,
    Load,
    Store,
    Jump,
    JumpIf,
    Equal,
    Less,
    Print,
    Halt,
    LessEqual,
    GreaterEqual,
}

/// The fixed byte value that encodes each opcode.
pub open spec fn opcode_byte(op: Opcode) -> u8 {
    match op {
        Opcode::Push => 0x01,
        Opcode::Pop => 0x02,
        Opcode::Add => 0x03,
        Opcode::Sub => 0x04,
        Opcode::Mul => 0x05,
        Opcode::Div => 0x06,
        Opcode::Load => 0x07,
        Opcode::Store => 0x08,
        Opcode::Jump => 0x09,
        Opcode::JumpIf => 0x0A,
        Opcode::Equal => 0x0B,
        Opcode::Less => 0x0C,
        Opcode::Print => 0x0D,
        Opcode::LessEqual => 0x0E,
        Opcode::GreaterEqual => 0x0F,
        Opcode::Halt => 0xFF,
    }
}

/// The opcode a byte decodes to, if any.
pub open spec fn opcode_of(b: u8) -> Option<Opcode> {
    match b {
        0x01 => Some(Opcode::Push),
        0x02 => Some(Opcode::Pop),
        0x03 => Some(Opcode::Add),
        0x04 => Some(Opcode::Sub),
        0x05 => Some(Opcode::Mul),
        0x06 => Some(Opcode::Div),
        0x07 => Some(Opcode::Load),
        0x08 => Some(Opcode::Store),
        0x09 => Some(Opcode::Jump),
        0x0A => Some(Opcode::JumpIf),
        0x0B => Some(Opcode::Equal),
        0x0C => Some(Opcode::Less),
        0x0D => Some(Opcode::Print),
        0x0E => Some(Opcode::LessEqual),
        0x0F => Some(Opcode::GreaterEqual),
        0xFF => Some(Opcode::Halt),
        _ => None,
    }
}

impl Opcode {
    /// Encode this opcode as its instruction byte.
    pub fn as_byte(self) -> (b: u8)
        ensures
            b == opcode_byte(self),
    {
        match self {
            Opcode::Push => 0x01,
            Opcode::Pop => 0x02,
            Opcode::Add => 0x03,
            Opcode::Sub => 0x04,
            Opcode::Mul => 0x05,
            Opcode::Div => 0x06,
            Opcode::Load => 0x07,
            Opcode::Store => 0x08,
            Opcode::Jump => 0x09,
            Opcode::JumpIf => 0x0A,
            Opcode::Equal => 0x0B,
            Opcode::Less => 0x0C,
            Opcode::Print => 0x0D,
            Opcode::LessEqual => 0x0E,
            Opcode::GreaterEqual => 0x0F,
            Opcode::Halt => 0xFF,
        }
    }

    /// Decode an instruction byte; an unknown byte is reported as itself.
    pub fn try_from(value: u8) -> (r: Result<Opcode, VMError>)
        ensures
            r == (match opcode_of(value) {
                Some(op) => Result::<Opcode, VMError>::Ok(op),
                None => Result::<Opcode, VMError>::Err(VMError::InvalidOpcode(value)),
            }),
    {
        match value {
            0x01 => Ok(Opcode::Push),
            0x02 => Ok(Opcode::Pop),
            0x03 => Ok(Opcode::Add),
            0x04 => Ok(Opcode::Sub),
            0x05 => Ok(Opcode::Mul),
            0x06 => Ok(Opcode::Div),
            0x07 => Ok(Opcode::Load),
            0x08 => Ok(Opcode::Store),
            0x09 => Ok(Opcode::Jump),
            0x0A => Ok(Opcode::JumpIf),
            0x0B => Ok(Opcode::Equal),
            0x0C => Ok(Opcode::Less),
            0x0D => Ok(Opcode::Print),
            0x0E => Ok(Opcode::LessEqual),
            0x0F => Ok(Opcode::GreaterEqual),
            0xFF => Ok(Opcode::Halt),
            _ => Err(VMError::InvalidOpcode(value)),
        }
    }
}

/// An 8-byte little-endian two's-complement encoding of a signed word.
pub open spec fn spec_i64_to_le_bytes(x: i64) -> Seq<u8> {
    spec_u64_to_le_bytes(x as u64)
}

/// The signed word an 8-byte little-endian sequence stands for.
pub open spec fn spec_i64_from_le_bytes(s: Seq<u8>) -> i64
    recommends
        s.len() == 8,
{
    spec_u64_from_le_bytes(s) as i64
}

/// Encoding a signed word and decoding the bytes gives the word back,
/// and the encoding is always 8 bytes long.
pub proof fn lemma_i64_le_bytes_roundtrip(x: i64)
    ensures
        spec_i64_to_le_bytes(x).len() == 8,
        spec_i64_from_le_bytes(spec_i64_to_le_bytes(x)) == x,
{
    lemma_auto_spec_u64_to_from_le_bytes();
    assert((x as u64) as i64 == x) by (bit_vector);
}

/// The mathematical state of a machine: everything an instruction
/// can read or write.
#[verifier::ext_equal]
pub ghost struct VmModel {
    pub pc: nat,
    pub stack: Seq<i64>,
    pub program: Seq<u8>,
    pub memory: Map<usize, i64>,
    pub stack_limit: nat,
    pub running: bool,
    pub output: Seq<i64>,
}

/// What one fetch-decode-execute step does: go on, stop at a halt
/// instruction, or fail, in each case with the state left behind.
#[verifier::ext_equal]
pub ghost enum StepResult {
    Next(VmModel),
    Halted(VmModel),
    Fail(VMError, VmModel),
}

/// The state of a machine freshly built over a program.
pub open spec fn fresh_model(program: Seq<u8>, stack_limit: nat) -> VmModel {
    VmModel {
        pc: 0,
        stack: Seq::empty(),
        program: program,
        memory: Map::empty(),
        stack_limit: stack_limit,
        running: false,
        output: Seq::empty(),
    }
}

/// The state at the start of a run: the machine is marked running.
pub open spec fn start_model(m: VmModel) -> VmModel {
    VmModel { running: true, ..m }
}

/// Popping the operand stack: the top value and the state after, or
/// nothing on an empty stack.
pub open spec fn pop_model(m: VmModel) -> Option<(i64, VmModel)> {
    if m.stack.len() == 0 {
        None
    } else {
        Some((m.stack.last(), VmModel { stack: m.stack.drop_last(), ..m }))
    }
}

/// Pushing a value: fails with overflow at the configured capacity,
/// leaving the stack as it was.
pub open spec fn push_model(m: VmModel, v: i64) -> StepResult {
    if m.stack.len() >= m.stack_limit {
        StepResult::Fail(VMError::StackOverflow, m)
    } else {
        StepResult::Next(VmModel { stack: m.stack.push(v), ..m })
    }
}

/// Signed division as the machine performs it: truncated towards zero,
/// wrapping on the one overflowing pair.
pub open spec fn vm_div(a: i64, b: i64) -> i64
    recommends
        b != 0,
{
    match a.checked_div(b) {
        Some(q) => q,
        None => i64::MIN,
    }
}

/// The value an arithmetic or comparison opcode pushes for operands
/// `a` (popped second) and `b` (popped first). Arithmetic wraps.
pub open spec fn binop_value(op: Opcode, a: i64, b: i64) -> i64 {
    match op {
        Opcode::Add => a.wrapping_add(b),
        Opcode::Sub => a.wrapping_sub(b),
        Opcode::Mul => a.wrapping_mul(b),
        Opcode::Div => vm_div(a, b),
        Opcode::Equal => if a == b { 1 } else { 0 },
        Opcode::Less => if a < b { 1 } else { 0 },
        Opcode::LessEqual => if a <= b { 1 } else { 0 },
        Opcode::GreaterEqual => if a >= b { 1 } else { 0 },
        _ => 0,
    }
}

/// What a decoded opcode does, starting from the state just past the
/// opcode byte.
pub open spec fn step_op(m: VmModel, op: Opcode) -> StepResult {
    match op {
        Opcode::Push => {
            if m.pc + 8 > m.program.len() {
                StepResult::Fail(VMError::InvalidOpcode(opcode_byte(Opcode::Push)), m)
            } else {
                let v = spec_i64_from_le_bytes(m.program.subrange(m.pc as int, m.pc as int + 8));
                push_model(VmModel { pc: (m.pc + 8) as nat, ..m }, v)
            }
        },
        Opcode::Pop => {
            match pop_model(m) {
                None => StepResult::Fail(VMError::StackUnderflow, m),
                Some((_v, m1)) => StepResult::Next(m1),
            }
        },
        Opcode::Add | Opcode::Sub | Opcode::Mul
        | Opcode::Equal | Opcode::Less | Opcode::LessEqual | Opcode::GreaterEqual => {
            match pop_model(m) {
                None => StepResult::Fail(VMError::StackUnderflow, m),
                Some((b, m1)) => match pop_model(m1) {
                    None => StepResult::Fail(VMError::StackUnderflow, m1),
                    Some((a, m2)) => push_model(m2, binop_value(op, a, b)),
                },
            }
        },
        Opcode::Div => {
            match pop_model(m) {
                None => StepResult::Fail(VMError::StackUnderflow, m),
                Some((b, m1)) => match pop_model(m1) {
                    None => StepResult::Fail(VMError::StackUnderflow, m1),
                    Some((a, m2)) => {
                        if b == 0 {
                            StepResult::Fail(VMError::DivisionByZero, m2)
                        } else {
                            push_model(m2, vm_div(a, b))
                        }
                    },
                },
            }
        },
        Opcode::Load => {
            match pop_model(m) {
                None => StepResult::Fail(VMError::StackUnderflow, m),
                Some((a, m1)) => {
                    let addr = a as usize;
                    let v = if m1.memory.contains_key(addr) { m1.memory[addr] } else { 0 };
                    push_model(m1, v)
                },
            }
        },
        Opcode::Store => {
            match pop_model(m) {
                None => StepResult::Fail(VMError::StackUnderflow, m),
                Some((v, m1)) => match pop_model(m1) {
                    None => StepResult::Fail(VMError::StackUnderflow, m1),
                    Some((a, m2)) => StepResult::Next(
                        VmModel { memory: m2.memory.insert(a as usize, v), ..m2 },
                    ),
                },
            }
        },
        Opcode::Jump => {
            match pop_model(m) {
                None => StepResult::Fail(VMError::StackUnderflow, m),
                Some((a, m1)) => {
                    let addr = a as usize;
                    if addr >= m1.program.len() {
                        StepResult::Fail(VMError::OutOfMemory(addr), m1)
                    } else {
                        StepResult::Next(VmModel { pc: addr as nat, ..m1 })
                    }
                },
            }
        },
        Opcode::JumpIf => {
            match pop_model(m) {
                None => StepResult::Fail(VMError::StackUnderflow, m),
                Some((a, m1)) => match pop_model(m1) {
                    None => StepResult::Fail(VMError::StackUnderflow, m1),
                    Some((c, m2)) => {
                        let addr = a as usize;
                        if c != 0 {
                            if addr >= m2.program.len() {
                                StepResult::Fail(VMError::OutOfMemory(addr), m2)
                            } else {
                                StepResult::Next(VmModel { pc: addr as nat, ..m2 })
                            }
                        } else {
                            StepResult::Next(m2)
                        }
                    },
                },
            }
        },
        Opcode::Print => {
            match pop_model(m) {
                None => StepResult::Fail(VMError::StackUnderflow, m),
                Some((v, m1)) => StepResult::Next(
                    VmModel { output: m1.output.push(v), ..m1 },
                ),
            }
        },
        Opcode::Halt => StepResult::Halted(VmModel { running: false, ..m }),
    }
}

/// One fetch-decode-execute step of the machine.
pub open spec fn step(m: VmModel) -> StepResult {
    if m.pc >= m.program.len() {
        StepResult::Fail(VMError::InvalidOpcode(0), m)
    } else {
        let b = m.program[m.pc as int];
        let m1 = VmModel { pc: (m.pc + 1) as nat, ..m };
        match opcode_of(b) {
            None => StepResult::Fail(VMError::InvalidOpcode(b), m1),
            Some(op) => step_op(m1, op),
        }
    }
}

/// The result of at most `n` steps: iterate `step` while it goes on.
pub open spec fn steps(n: nat, m: VmModel) -> StepResult
    decreases n,
{
    if n == 0 {
        StepResult::Next(m)
    } else {
        match step(m) {
            StepResult::Next(m1) => steps((n - 1) as nat, m1),
            r => r,
        }
    }
}

/// Taking one more step means applying `step` to wherever `n` steps led.
pub proof fn lemma_steps_extend(n: nat, m: VmModel)
    ensures
        steps(n + 1, m) == (match steps(n, m) {
            StepResult::Next(m1) => step(m1),
            r => r,
        }),
    decreases n,
{
    reveal_with_fuel(steps, 2);
    if n > 0 {
        match step(m) {
            StepResult::Next(m1) => {
                lemma_steps_extend((n - 1) as nat, m1);
            },
            _ => {},
        }
    }
}

/// Once an execution has halted or failed, further steps change nothing.
pub proof fn lemma_steps_stable(n: nat, k: nat, m: VmModel)
    requires
        !(steps(n, m) is Next),
    ensures
        steps(n + k, m) == steps(n, m),
    decreases n,
{
    if n == 0 {
    } else {
        match step(m) {
            StepResult::Next(m1) => {
                lemma_steps_stable((n - 1) as nat, k, m1);
            },
            _ => {},
        }
    }
}

/// Law: execution is deterministic. Any two step counts at which the
/// same starting state has terminated (halted or failed) agree on the
/// complete outcome: final stack, memory, output and error alike.
pub proof fn lemma_execution_deterministic(m: VmModel, n1: nat, n2: nat)
    requires
        !(steps(n1, m) is Next),
        !(steps(n2, m) is Next),
    ensures
        steps(n1, m) == steps(n2, m),
{
    if n1 <= n2 {
        lemma_steps_stable(n1, (n2 - n1) as nat, m);
    } else {
        lemma_steps_stable(n2, (n1 - n2) as nat, m);
    }
}

/// Law: two freshly constructed machines over the same bytecode and
/// capacity reach identical terminal outcomes, whatever the step counts.
pub proof fn lemma_fresh_runs_identical(program: Seq<u8>, stack_limit: nat, n1: nat, n2: nat)
    requires
        !(steps(n1, start_model(fresh_model(program, stack_limit))) is Next),
        !(steps(n2, start_model(fresh_model(program, stack_limit))) is Next),
    ensures
        steps(n1, start_model(fresh_model(program, stack_limit)))
            == steps(n2, start_model(fresh_model(program, stack_limit))),
{
    lemma_execution_deterministic(start_model(fresh_model(program, stack_limit)), n1, n2);
}

/// Law: a `div` whose right operand is zero fails with division-by-zero,
/// and the machine keeps its state but for the two operands popped.
pub proof fn lemma_div_by_zero_stops(m: VmModel)
    requires
        m.pc < m.program.len(),
        m.program[m.pc as int] == opcode_byte(Opcode::Div),
        m.stack.len() >= 2,
        m.stack.last() == 0,
    ensures
        step(m) == StepResult::Fail(
            VMError::DivisionByZero,
            VmModel { pc: (m.pc + 1) as nat, stack: m.stack.drop_last().drop_last(), ..m },
        ),
{
}

/// Law: a push at the configured capacity fails with overflow, and the
/// stack holds exactly its pre-push contents.
pub proof fn lemma_push_overflow_stops(m: VmModel)
    requires
        m.pc + 9 <= m.program.len(),
        m.program[m.pc as int] == opcode_byte(Opcode::Push),
        m.stack.len() >= m.stack_limit,
    ensures
        step(m) == StepResult::Fail(
            VMError::StackOverflow,
            VmModel { pc: (m.pc + 9) as nat, ..m },
        ),
{
}

/// A stack machine over a flat bytecode buffer: a program counter, a
/// bounded operand stack, a sparse word-addressed memory, and the values
/// printed so far.
pub struct VM {
    pc: usize,
    stack: Vec<i64>,
    program: Vec<u8>,
    memory: HashMap<usize, i64>,
    stack_limit: usize,
    running: bool,
    output: Vec<i64>,
}

impl View for VM {
    type V = VmModel;

    closed spec fn view(&self) -> VmModel {
        VmModel {
            pc: self.pc as nat,
            stack: self.stack@,
            program: self.program@,
            memory: self.memory@,
            stack_limit: self.stack_limit as nat,
            running: self.running,
            output: self.output@,
        }
    }
}

impl VM {
    /// Build a machine over an owned bytecode buffer with the given
    /// operand-stack capacity.
    pub fn new(program: Vec<u8>, stack_limit: usize) -> (vm: VM)
        ensures
            vm@ == fresh_model(program@, stack_limit as nat),
    {
        let vm = VM {
            pc: 0,
            stack: Vec::new(),
            program,
            memory: HashMap::new(),
            stack_limit,
            running: false,
            output: Vec::new(),
        };
        proof {
            assert(vm@ =~= fresh_model(vm@.program, stack_limit as nat));
        }
        vm
    }

    fn push(&mut self, value: i64) -> (r: Result<(), VMError>)
        ensures
            match r {
                Ok(()) => push_model(old(self)@, value) == StepResult::Next(final(self)@),
                Err(e) => e == VMError::StackOverflow
                    && push_model(old(self)@, value) == StepResult::Fail(e, final(self)@)
                    && final(self)@ == old(self)@,
            },
    {
        if self.stack.len() >= self.stack_limit {
            return Err(VMError::StackOverflow);
        }
        self.stack.push(value);
        proof {
            assert(final(self)@ =~= VmModel { stack: old(self)@.stack.push(value), ..old(self)@ });
        }
        Ok(())
    }

    fn pop(&mut self) -> (r: Result<i64, VMError>)
        ensures
            match r {
                Ok(v) => pop_model(old(self)@) == Some((v, final(self)@)),
                Err(e) => e == VMError::StackUnderflow
                    && pop_model(old(self)@) is None
                    && final(self)@ == old(self)@,
            },
    {
        match self.stack.pop() {
            Some(v) => {
                proof {
                    assert(final(self)@ =~= VmModel { stack: old(self)@.stack.drop_last(), ..old(self)@ });
                }
                Ok(v)
            },
            None => Err(VMError::StackUnderflow),
        }
    }

    fn fetch(&mut self) -> (r: Option<u8>)
        ensures
            match r {
                Some(b) => old(self)@.pc < old(self)@.program.len()
                    && b == old(self)@.program[old(self)@.pc as int]
                    && final(self)@ == VmModel { pc: (old(self)@.pc + 1) as nat, ..old(self)@ },
                None => old(self)@.pc >= old(self)@.program.len()
                    && final(self)@ == old(self)@,
            },
    {
        if self.pc < self.program.len() {
            let opcode = self.program[self.pc];
            self.pc = self.pc + 1;
            proof {
                assert(final(self)@ =~= VmModel { pc: (old(self)@.pc + 1) as nat, ..old(self)@ });
            }
            Some(opcode)
        } else {
            None
        }
    }

    fn fetch_i64(&mut self) -> (r: Option<i64>)
        ensures
            match r {
                Some(v) => old(self)@.pc + 8 <= old(self)@.program.len()
                    && v == spec_i64_from_le_bytes(
                        old(self)@.program.subrange(old(self)@.pc as int, old(self)@.pc as int + 8),
                    )
                    && final(self)@ == VmModel { pc: (old(self)@.pc + 8) as nat, ..old(self)@ },
                None => old(self)@.pc + 8 > old(self)@.program.len()
                    && final(self)@ == old(self)@,
            },
    {
        if self.pc <= self.program.len() && self.program.len() - self.pc >= 8 {
            let bytes = slice_subrange(self.program.as_slice(), self.pc, self.pc + 8);
            let v = u64_from_le_bytes(bytes) as i64;
            self.pc = self.pc + 8;
            proof {
                assert(final(self)@ =~= VmModel { pc: (old(self)@.pc + 8) as nat, ..old(self)@ });
            }
            Some(v)
        } else {
            None
        }
    }

    /// Perform one instruction. `Ok(true)` means execution goes on,
    /// `Ok(false)` that a halt instruction was reached; every error is
    /// fatal. The relation to the old state is exactly one `step`.
    pub fn execute_next(&mut self) -> (r: Result<bool, VMError>)
        ensures
            match r {
                Ok(true) => step(old(self)@) == StepResult::Next(final(self)@),
                Ok(false) => step(old(self)@) == StepResult::Halted(final(self)@),
                Err(e) => step(old(self)@) == StepResult::Fail(e, final(self)@),
            },
    {
        let opcode = match self.fetch() {
            Some(b) => b,
            None => {
                return Err(VMError::InvalidOpcode(0));
            },
        };
        let op = match Opcode::try_from(opcode) {
            Ok(op) => op,
            Err(e) => {
                return Err(e);
            },
        };
        match op {
            Opcode::Push => {
                let value = match self.fetch_i64() {
                    Some(v) => v,
                    None => {
                        return Err(VMError::InvalidOpcode(opcode));
                    },
                };
                match self.push(value) {
                    Ok(()) => {},
                    Err(e) => {
                        return Err(e);
                    },
                }
            },
            Opcode::Pop => {
                match self.pop() {
                    Ok(_) => {},
                    Err(e) => {
                        return Err(e);
                    },
                }
            },
            Opcode::Add | Opcode::Sub | Opcode::Mul
            | Opcode::Equal | Opcode::Less | Opcode::LessEqual | Opcode::GreaterEqual => {
                let b = match self.pop() {
                    Ok(v) => v,
                    Err(e) => {
                        return Err(e);
                    },
                };
                let a = match self.pop() {
                    Ok(v) => v,
                    Err(e) => {
                        return Err(e);
                    },
                };
                let v = match op {
                    Opcode::Add => a.wrapping_add(b),
                    Opcode::Sub => a.wrapping_sub(b),
                    Opcode::Mul => a.wrapping_mul(b),
                    Opcode::Equal => if a == b { 1 } else { 0 },
                    Opcode::Less => if a < b { 1 } else { 0 },
                    Opcode::LessEqual => if a <= b { 1 } else { 0 },
                    _ => if a >= b { 1 } else { 0 },
                };
                assert(v == binop_value(op, a, b));
                match self.push(v) {
                    Ok(()) => {},
                    Err(e) => {
                        return Err(e);
                    },
                }
            },
            Opcode::Div => {
                let b = match self.pop() {
                    Ok(v) => v,
                    Err(e) => {
                        return Err(e);
                    },
                };
                let a = match self.pop() {
                    Ok(v) => v,
                    Err(e) => {
                        return Err(e);
                    },
                };
                if b == 0 {
                    return Err(VMError::DivisionByZero);
                }
                let q = match a.checked_div(b) {
                    Some(q) => q,
                    None => i64::MIN,
                };
                match self.push(q) {
                    Ok(()) => {},
                    Err(e) => {
                        return Err(e);
                    },
                }
            },
            Opcode::Load => {
                let a = match self.pop() {
                    Ok(v) => v,
                    Err(e) => {
                        return Err(e);
                    },
                };
                let addr = a as usize;
                let value = match self.memory.get(&addr) {
                    Some(v) => *v,
                    None => 0,
                };
                match self.push(value) {
                    Ok(()) => {},
                    Err(e) => {
                        return Err(e);
                    },
                }
            },
            Opcode::Store => {
                let value = match self.pop() {
                    Ok(v) => v,
                    Err(e) => {
                        return Err(e);
                    },
                };
                let a = match self.pop() {
                    Ok(v) => v,
                    Err(e) => {
                        return Err(e);
                    },
                };
                let addr = a as usize;
                self.memory.insert(addr, value);
            },
            Opcode::Jump => {
                let a = match self.pop() {
                    Ok(v) => v,
                    Err(e) => {
                        return Err(e);
                    },
                };
                let addr = a as usize;
                if addr >= self.program.len() {
                    return Err(VMError::OutOfMemory(addr));
                }
                self.pc = addr;
            },
            Opcode::JumpIf => {
                let a = match self.pop() {
                    Ok(v) => v,
                    Err(e) => {
                        return Err(e);
                    },
                };
                let condition = match self.pop() {
                    Ok(v) => v,
                    Err(e) => {
                        return Err(e);
                    },
                };
                let addr = a as usize;
                if condition != 0 {
                    if addr >= self.program.len() {
                        return Err(VMError::OutOfMemory(addr));
                    }
                    self.pc = addr;
                }
            },
            Opcode::Print => {
                let value = match self.pop() {
                    Ok(v) => v,
                    Err(e) => {
                        return Err(e);
                    },
                };
                self.output.push(value);
            },
            Opcode::Halt => {
                self.running = false;
                return Ok(false);
            },
        }
        Ok(true)
    }

    /// Drive the machine until a halt instruction or a fatal error. The
    /// outcome is exactly what iterating `step` from the started state
    /// yields after some number of steps. The loop gives up after
    /// `u64::MAX` instructions, a budget no feasible execution exhausts;
    /// in that case the machine is left mid-run.
    pub fn run(&mut self) -> (r: Result<(), VMError>)
        ensures
            match r {
                Ok(()) => (exists|n: nat|
                    steps(n, start_model(old(self)@)) == StepResult::Halted(final(self)@))
                    || steps(u64::MAX as nat, start_model(old(self)@))
                        == StepResult::Next(final(self)@),
                Err(e) => exists|n: nat|
                    steps(n, start_model(old(self)@)) == StepResult::Fail(e, final(self)@),
            },
    {
        self.running = true;
        let ghost m0 = start_model(old(self)@);
        proof {
            assert(self@ =~= m0);
        }
        let mut i: u64 = 0;
        while i < u64::MAX
            invariant
                m0 == start_model(old(self)@),
                steps(i as nat, m0) == StepResult::Next(self@),
            decreases u64::MAX - i,
        {
            let r = self.execute_next();
            proof {
                lemma_steps_extend(i as nat, m0);
            }
            i = i + 1;
            match r {
                Ok(true) => {},
                Ok(false) => {
                    proof {
                        assert(steps(i as nat, start_model(old(self)@))
                            == StepResult::Halted(self@));
                    }
                    return Ok(());
                },
                Err(e) => {
                    proof {
                        assert(steps(i as nat, start_model(old(self)@))
                            == StepResult::Fail(e, self@));
                    }
                    return Err(e);
                },
            }
        }
        Ok(())
    }

    /// The operand stack, bottom first.
    pub fn get_stack(&self) -> (r: &[i64])
        ensures
            r@ == self@.stack,
    {
        self.stack.as_slice()
    }

    /// The sparse memory written so far; unset addresses read as zero.
    pub fn get_memory(&self) -> (r: &HashMap<usize, i64>)
        ensures
            r@ == self@.memory,
    {
        &self.memory
    }

    /// The values printed so far, in execution order.
    pub fn get_output(&self) -> (r: &[i64])
        ensures
            r@ == self@.output,
    {
        self.output.as_slice()
    }
}

} // verus!
