use vstd::prelude::*;
use crate::registers::{RegSeq, lookup, assign, distinct_names, lemma_assign_distinct};

verus! {

/// An operand: a literal or a register named by its text.
#[derive(Debug)]
pub enum Value {
    Number(i64),
    Register(String),
}

/// One instruction of a program. `Unsupported` stands for a line that fits no
/// form; running it is an error.
#[derive(Debug)]
pub enum Instruction {
    Mov(String, Value),
    Inc(String),
    Dec(String),
    Jnz(Value, Value),
    Unsupported,
}

/// What an operand means: a literal or a register name.
pub enum Operand {
    Num(i64),
    Reg(Seq<char>),
}

/// What an instruction means.
pub enum Op {
    Mov(Seq<char>, Operand),
    Inc(Seq<char>),
    Dec(Seq<char>),
    Jnz(Operand, Operand),
    Unsupported,
}

impl View for Value {
    type V = Operand;

    open spec fn view(&self) -> Operand {
        match self {
            Value::Number(n) => Operand::Num(*n),
            Value::Register(r) => Operand::Reg(r@),
        }
    }
}

impl View for Instruction {
    type V = Op;

    open spec fn view(&self) -> Op {
        match self {
            Instruction::Mov(d, v) => Op::Mov(d@, v@),
            Instruction::Inc(r) => Op::Inc(r@),
            Instruction::Dec(r) => Op::Dec(r@),
            Instruction::Jnz(c, o) => Op::Jnz(c@, o@),
            Instruction::Unsupported => Op::Unsupported,
        }
    }
}

/// Why a run stopped without halting.
pub enum Fault {
    Unsupported { position: int },
    Unbound { name: Seq<char>, position: int },
    Overflow { position: int },
    StepLimit,
}

/// The program's meaning as a sequence of instructions.
pub open spec fn ops(p: Seq<Instruction>) -> Seq<Op> {
    p.map_values(|i: Instruction| i@)
}

/// The value of an operand under `regs`, or the fault of reading an
/// unestablished register at position `pc`.
pub open spec fn resolve(v: Operand, regs: RegSeq, pc: int) -> Result<i64, Fault> {
    match v {
        Operand::Num(n) => Ok(n),
        Operand::Reg(r) => match lookup(regs, r) {
            Some(x) => Ok(x),
            None => Err(Fault::Unbound { name: r, position: pc }),
        },
    }
}

/// The counter moved to `target`, with `regs`; a counter that leaves the range
/// of `i64` is an overflow of the instruction at `pc`.
pub open spec fn advance(pc: int, target: int, regs: RegSeq) -> Result<(int, RegSeq), Fault> {
    if i64::MIN <= target <= i64::MAX {
        Ok((target, regs))
    } else {
        Err(Fault::Overflow { position: pc })
    }
}

/// Register `r` moved by `delta` (1 or -1), or the fault that stops it.
pub open spec fn bump(regs: RegSeq, r: Seq<char>, delta: int, pc: int) -> Result<(int, RegSeq), Fault> {
    match lookup(regs, r) {
        None => Err(Fault::Unbound { name: r, position: pc }),
        Some(x) => if x + delta < i64::MIN || x + delta > i64::MAX {
            Err(Fault::Overflow { position: pc })
        } else {
            advance(pc, pc + 1, assign(regs, r, (x + delta) as i64))
        },
    }
}

/// One instruction's effect at position `pc`: the next counter and registers.
pub open spec fn step(op: Op, pc: int, regs: RegSeq) -> Result<(int, RegSeq), Fault> {
    match op {
        Op::Mov(d, v) => match resolve(v, regs, pc) {
            Ok(x) => advance(pc, pc + 1, assign(regs, d, x)),
            Err(e) => Err(e),
        },
        Op::Inc(r) => bump(regs, r, 1, pc),
        Op::Dec(r) => bump(regs, r, -1, pc),
        Op::Jnz(c, o) => match resolve(c, regs, pc) {
            Err(e) => Err(e),
            Ok(cv) => match resolve(o, regs, pc) {
                Err(e) => Err(e),
                Ok(ov) => if cv != 0 {
                    advance(pc, pc + ov, regs)
                } else {
                    advance(pc, pc + 1, regs)
                },
            },
        },
        Op::Unsupported => Err(Fault::Unsupported { position: pc }),
    }
}

/// Whether a counter selects an instruction of `p`.
pub open spec fn running(p: Seq<Op>, pc: int) -> bool {
    0 <= pc < p.len()
}

/// The outcome of running `p` from `pc` and `regs` for at most `fuel` steps:
/// the registers once the counter leaves the program, or the fault.
pub open spec fn run(p: Seq<Op>, pc: int, regs: RegSeq, fuel: nat) -> Result<RegSeq, Fault>
    decreases fuel,
{
    if !running(p, pc) {
        Ok(regs)
    } else if fuel == 0 {
        Err(Fault::StepLimit)
    } else {
        match step(p[pc], pc, regs) {
            Ok((pc2, regs2)) => run(p, pc2, regs2, (fuel - 1) as nat),
            Err(e) => Err(e),
        }
    }
}

/// The counter at which a run of `p` from `pc` and `regs`, for at most `fuel`
/// steps, stops: where it leaves the program, or where it fails.
pub open spec fn halt_at(p: Seq<Op>, pc: int, regs: RegSeq, fuel: nat) -> int
    decreases fuel,
{
    if !running(p, pc) || fuel == 0 {
        pc
    } else {
        match step(p[pc], pc, regs) {
            Ok((pc2, regs2)) => halt_at(p, pc2, regs2, (fuel - 1) as nat),
            Err(_) => pc,
        }
    }
}

/// A run keeps the names of the register file distinct.
pub proof fn lemma_run_distinct(p: Seq<Op>, pc: int, regs: RegSeq, fuel: nat)
    requires
        distinct_names(regs),
    ensures
        run(p, pc, regs, fuel) matches Ok(r) ==> distinct_names(r),
    decreases fuel,
{
    if running(p, pc) && fuel > 0 {
        match p[pc] {
            Op::Mov(d, v) => if let Ok(x) = resolve(v, regs, pc) {
                lemma_assign_distinct(regs, d, x);
            },
            Op::Inc(r) => if let Some(x) = lookup(regs, r) {
                lemma_assign_distinct(regs, r, (x + 1) as i64);
            },
            Op::Dec(r) => if let Some(x) = lookup(regs, r) {
                lemma_assign_distinct(regs, r, (x - 1) as i64);
            },
            _ => {},
        }
        if let Ok((pc2, regs2)) = step(p[pc], pc, regs) {
            lemma_run_distinct(p, pc2, regs2, (fuel - 1) as nat);
        }
    }
}

} // verus!
