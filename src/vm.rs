use vstd::prelude::*;
use crate::registers::{RegSeq, Registers, distinct_names};
use crate::parse::{lemma_seed_distinct, lower_of, program_of, registers_of, seed, strings, split_words, subject_of, lowercase};
use crate::program::{Value, Instruction, Op, Fault, ops, resolve, advance, step, running, run, halt_at, lemma_run_distinct};

verus! {

/// Why a run failed.
#[derive(Debug)]
pub enum VmError {
    /// The instruction at `position` fits no form of the language.
    Unsupported { position: i64 },
    /// The instruction at `position` read a register that was never established.
    UnboundRegister { name: String, position: i64 },
    /// The instruction at `position` moved a register past the range of `i64`.
    Overflow { position: i64 },
    /// The run took more steps than it was allowed.
    StepLimit,
}

impl View for VmError {
    type V = Fault;

    open spec fn view(&self) -> Fault {
        match self {
            VmError::Unsupported { position } => Fault::Unsupported { position: *position as int },
            VmError::UnboundRegister { name, position } => Fault::Unbound {
                name: name@,
                position: *position as int,
            },
            VmError::Overflow { position } => Fault::Overflow { position: *position as int },
            VmError::StepLimit => Fault::StepLimit,
        }
    }
}

/// The meaning of a run's result.
pub open spec fn outcome(r: Result<Registers, VmError>) -> Result<RegSeq, Fault> {
    match r {
        Ok(regs) => Ok(regs@),
        Err(e) => Err(e@),
    }
}

/// The meaning of a fallible value.
pub open spec fn lift<T>(r: Result<T, VmError>) -> Result<T, Fault> {
    match r {
        Ok(x) => Ok(x),
        Err(e) => Err(e@),
    }
}

/// The machine: a program counter, a fixed program and a register file.
pub struct VM {
    pub stack_pointer: i64,
    pub instructions: Vec<Instruction>,
    pub registers: Registers,
}

/// The lines of a program as the machine reads them, lower-cased.
pub open spec fn lowered(program: Seq<&str>) -> Seq<Seq<char>> {
    program.map_values(|l: &str| lower_of(l@))
}

impl VM {
    /// A machine at position 0 for the program that the (lower-cased) `lines`
    /// form, with the registers they establish.
    pub fn from_lines(lines: &Vec<String>) -> (r: VM)
        ensures
            r.stack_pointer == 0,
            r.program() == program_of(strings(lines@)),
            r.registers@ == registers_of(strings(lines@)),
            distinct_names(r.registers@),
    {
        let ghost ls = strings(lines@);
        let mut instructions: Vec<Instruction> = Vec::new();
        let mut registers = Registers::new();
        let mut i: usize = 0;
        while i < lines.len()
            invariant
                ls == strings(lines@),
                0 <= i <= lines.len(),
                instructions@.len() == i,
                forall|j: int| 0 <= j < i ==> #[trigger] instructions@[j]@ == program_of(ls)[j],
                registers@ == seed(ls, i as nat),
            decreases lines.len() - i,
        {
            let toks = split_words(lines[i].as_str());
            let instr = Instruction::decode(&toks);
            let established = subject_of(&instr);
            instructions.push(instr);
            match established {
                Some(name) => registers.set(&name, 0),
                None => {},
            }
            i = i + 1;
        }
        proof {
            lemma_seed_distinct(ls, ls.len());
        }
        let r = VM { stack_pointer: 0, instructions, registers };
        assert(r.program() =~= program_of(ls));
        r
    }

    /// A machine for the program that `raw_instructions` spell, read without
    /// regard to case.
    pub fn new(raw_instructions: Vec<&str>) -> (r: VM)
        ensures
            r.stack_pointer == 0,
            r.program() == program_of(lowered(raw_instructions@)),
            r.registers@ == registers_of(lowered(raw_instructions@)),
            distinct_names(r.registers@),
    {
        let mut lines: Vec<String> = Vec::new();
        let mut i: usize = 0;
        while i < raw_instructions.len()
            invariant
                0 <= i <= raw_instructions.len(),
                strings(lines@) == lowered(raw_instructions@).subrange(0, i as int),
            decreases raw_instructions.len() - i,
        {
            let l = lowercase(raw_instructions[i]);
            let ghost before = strings(lines@);
            lines.push(l);
            assert(strings(lines@) =~= before.push(lower_of(raw_instructions@[i as int]@)));
            assert(strings(lines@) =~= lowered(raw_instructions@).subrange(0, i + 1));
            i = i + 1;
        }
        assert(lowered(raw_instructions@).subrange(0, i as int) =~= lowered(raw_instructions@));
        VM::from_lines(&lines)
    }

    /// The meaning of the machine's program.
    pub open spec fn program(&self) -> Seq<Op> {
        ops(self.instructions@)
    }

    /// Runs the machine until its counter leaves the program, taking at most
    /// `limit` steps, and returns the registers as they then stand.
    pub fn evaluate(&mut self, limit: u64) -> (r: Result<Registers, VmError>)
        ensures
            outcome(r) == run(old(self).program(), old(self).stack_pointer as int,
                old(self).registers@, limit as nat),
            final(self).instructions@ == old(self).instructions@,
            r is Ok ==> !running(final(self).program(), final(self).stack_pointer as int) && r->Ok_0@
                == final(self).registers@,
            r is Ok && distinct_names(old(self).registers@) ==> distinct_names(r->Ok_0@),
            r is Ok ==> final(self).stack_pointer == halt_at(old(self).program(), old(
                self,
            ).stack_pointer as int, old(self).registers@, limit as nat),
    {
        proof {
            if distinct_names(self.registers@) {
                lemma_run_distinct(self.program(), self.stack_pointer as int, self.registers@, limit as nat);
            }
        }
        let ghost p = self.program();
        let ghost want = run(p, self.stack_pointer as int, self.registers@, limit as nat);
        let ghost stop = halt_at(p, self.stack_pointer as int, self.registers@, limit as nat);
        let mut fuel: u64 = limit;
        while 0 <= self.stack_pointer && (self.stack_pointer as i128) < (
        self.instructions.len() as i128)
            invariant
                self.instructions@ == old(self).instructions@,
                self.program() == p,
                p == old(self).program(),
                want == run(p, old(self).stack_pointer as int, old(self).registers@, limit as nat),
                want == run(p, self.stack_pointer as int, self.registers@, fuel as nat),
                stop == halt_at(p, old(self).stack_pointer as int, old(self).registers@, limit as nat),
                stop == halt_at(p, self.stack_pointer as int, self.registers@, fuel as nat),
            decreases fuel,
        {
            assert(self.instructions@.len() == self.program().len());
            assert(running(p, self.stack_pointer as int));
            if fuel == 0 {
                return Err(VmError::StepLimit);
            }
            let instr = self.instructions[self.stack_pointer as usize].duplicate();
            match instr.evaluate(self) {
                Ok(()) => {},
                Err(e) => {
                    return Err(e);
                },
            }
            fuel = fuel - 1;
        }
        Ok(self.registers.snapshot())
    }
}

impl Value {
    /// A copy of this operand.
    pub fn duplicate(&self) -> (r: Value)
        ensures
            r@ == self@,
    {
        match self {
            Value::Number(n) => Value::Number(*n),
            Value::Register(s) => Value::Register(s.clone()),
        }
    }
}

impl Instruction {
    /// A copy of this instruction.
    pub fn duplicate(&self) -> (r: Instruction)
        ensures
            r@ == self@,
    {
        match self {
            Instruction::Mov(d, v) => Instruction::Mov(d.clone(), v.duplicate()),
            Instruction::Inc(s) => Instruction::Inc(s.clone()),
            Instruction::Dec(s) => Instruction::Dec(s.clone()),
            Instruction::Jnz(c, o) => Instruction::Jnz(c.duplicate(), o.duplicate()),
            Instruction::Unsupported => Instruction::Unsupported,
        }
    }

    /// The value of `value` under the machine's registers.
    pub fn get_value(value: &Value, vm: &VM) -> (r: Result<i64, VmError>)
        ensures
            lift(r) == resolve(value@, vm.registers@, vm.stack_pointer as int),
    {
        match value {
            Value::Number(n) => {
                Ok(*n)
            },
            Value::Register(name) => match vm.registers.read(name) {
                Some(x) => Ok(x),
                None => Err(
                    VmError::UnboundRegister { name: name.clone(), position: vm.stack_pointer },
                ),
            },
        }
    }

    /// The counter's next value, where it stays within `i64`.
    fn next_counter(pc: i64, target: i128) -> (r: Result<i64, VmError>)
        ensures
            match advance(pc as int, target as int, Seq::empty()) {
                Ok((t, _)) => r == Ok::<i64, VmError>(t as i64),
                Err(e) => r matches Err(x) && x@ == e,
            },
    {
        if target < i64::MIN as i128 || target > i64::MAX as i128 {
            Err(VmError::Overflow { position: pc })
        } else {
            Ok(target as i64)
        }
    }

    /// Performs this instruction at the machine's counter: updates
    /// the registers and moves the counter as `step` says. On an error the
    /// machine is left as it was.
    pub fn evaluate(&self, vm: &mut VM) -> (r: Result<(), VmError>)
        ensures
            final(vm).instructions@ == old(vm).instructions@,
            match step(self@, old(vm).stack_pointer as int, old(vm).registers@) {
                Ok((pc2, regs2)) => r is Ok && final(vm).registers@ == regs2
                    && final(vm).stack_pointer == pc2,
                Err(e) => r matches Err(x) && x@ == e && final(vm).registers@ == old(
                    vm,
                ).registers@ && final(vm).stack_pointer == old(vm).stack_pointer,
            },
    {
        let pc = vm.stack_pointer;
        assert(vm.instructions@.len() == vm.program().len());
        let here = pc;
        match self {
            Instruction::Mov(dest, value) => {
                let x = match Self::get_value(value, vm) {
                    Ok(x) => x,
                    Err(e) => return Err(e),
                };
                let next = match Self::next_counter(here, pc as i128 + 1) {
                    Ok(t) => t,
                    Err(e) => return Err(e),
                };
                vm.registers.set(dest, x);
                vm.stack_pointer = next;
                Ok(())
            },
            Instruction::Inc(name) => match vm.registers.read(name) {
                None => Err(VmError::UnboundRegister { name: name.clone(), position: here }),
                Some(x) => if x == i64::MAX {
                    Err(VmError::Overflow { position: here })
                } else {
                    let next = match Self::next_counter(here, pc as i128 + 1) {
                        Ok(t) => t,
                        Err(e) => return Err(e),
                    };
                    vm.registers.set(name, x + 1);
                    vm.stack_pointer = next;
                    Ok(())
                },
            },
            Instruction::Dec(name) => match vm.registers.read(name) {
                None => Err(VmError::UnboundRegister { name: name.clone(), position: here }),
                Some(x) => if x == i64::MIN {
                    Err(VmError::Overflow { position: here })
                } else {
                    let next = match Self::next_counter(here, pc as i128 + 1) {
                        Ok(t) => t,
                        Err(e) => return Err(e),
                    };
                    vm.registers.set(name, x - 1);
                    vm.stack_pointer = next;
                    Ok(())
                },
            },
            Instruction::Jnz(cond, offset) => {
                let c = match Self::get_value(cond, vm) {
                    Ok(x) => x,
                    Err(e) => return Err(e),
                };
                let o = match Self::get_value(offset, vm) {
                    Ok(x) => x,
                    Err(e) => return Err(e),
                };
                let target: i128 = if c != 0 {
                    pc as i128 + o as i128
                } else {
                    pc as i128 + 1
                };
                vm.stack_pointer = match Self::next_counter(here, target) {
                    Ok(t) => t,
                    Err(e) => return Err(e),
                };
                Ok(())
            },
            Instruction::Unsupported => Err(VmError::Unsupported { position: here }),
        }
    }
}

/// The most steps that `simple_assembler` lets a program take.
pub const STEP_LIMIT: u64 = 0xffff_ffff_ffff_ffff;

/// The outcome of running the program that (lower-cased) `lines` form, from
/// position 0 and the registers they establish, for at most `limit` steps.
pub open spec fn assembled(lines: Seq<Seq<char>>, limit: nat) -> Result<RegSeq, Fault> {
    run(program_of(lines), 0, registers_of(lines), limit)
}

/// Runs the program that the lower-cased `lines` form for at most `limit`
/// steps.
pub fn assemble_lines(lines: &Vec<String>, limit: u64) -> (r: Result<Registers, VmError>)
    ensures
        outcome(r) == assembled(strings(lines@), limit as nat),
        r is Ok ==> distinct_names(r->Ok_0@),
{
    let mut vm = VM::from_lines(lines);
    vm.evaluate(limit)
}

/// Runs `program`, read without regard to case, and returns its registers once
/// its counter leaves it.
pub fn simple_assembler(program: Vec<&str>) -> (r: Result<Registers, VmError>)
    ensures
        outcome(r) == assembled(lowered(program@), STEP_LIMIT as nat),
        r is Ok ==> distinct_names(r->Ok_0@),
{
    let mut vm = VM::new(program);
    vm.evaluate(STEP_LIMIT)
}

} // verus!
