use vstd::prelude::*;
use crate::registers::{RegSeq, lookup, assign, lemma_assign_lookup, lemma_assign_assign, lemma_assign_other};
use crate::program::{Op, Operand, Fault, resolve, step, run};
use crate::parse::{program_of, registers_of, lemma_seed_zero};
use crate::registers::lemma_find_range;
use crate::vm::{assembled, lowered, STEP_LIMIT};

verus! {

/// Whether a program holds only `mov`, `inc` and `dec`.
pub open spec fn straight_line(p: Seq<Op>) -> bool {
    forall|i: int| 0 <= i < p.len() ==> !((#[trigger] p[i]) is Jnz) && !(p[i] is Unsupported)
}

/// The effect of one `mov`, `inc` or `dec` on the registers, the instruction
/// standing at `pos`.
pub open spec fn effect(op: Op, regs: RegSeq, pos: int) -> Result<RegSeq, Fault> {
    match op {
        Op::Mov(d, Operand::Num(n)) => Ok(assign(regs, d, n)),
        Op::Mov(d, Operand::Reg(s)) => match lookup(regs, s) {
            Some(x) => Ok(assign(regs, d, x)),
            None => Err(Fault::Unbound { name: s, position: pos }),
        },
        Op::Inc(r) => match lookup(regs, r) {
            Some(x) => if x < i64::MAX {
                Ok(assign(regs, r, (x + 1) as i64))
            } else {
                Err(Fault::Overflow { position: pos })
            },
            None => Err(Fault::Unbound { name: r, position: pos }),
        },
        Op::Dec(r) => match lookup(regs, r) {
            Some(x) => if x > i64::MIN {
                Ok(assign(regs, r, (x - 1) as i64))
            } else {
                Err(Fault::Overflow { position: pos })
            },
            None => Err(Fault::Unbound { name: r, position: pos }),
        },
        _ => Err(Fault::Unsupported { position: pos }),
    }
}

/// The effects of the instructions from `i` on, applied in textual order.
pub open spec fn in_order(p: Seq<Op>, i: int, regs: RegSeq) -> Result<RegSeq, Fault>
    decreases p.len() - i,
{
    if i < 0 || i >= p.len() {
        Ok(regs)
    } else {
        match effect(p[i], regs, i) {
            Ok(r2) => in_order(p, i + 1, r2),
            Err(e) => Err(e),
        }
    }
}

proof fn lemma_run_straight(p: Seq<Op>, i: int, regs: RegSeq, fuel: nat)
    requires
        straight_line(p),
        p.len() <= i64::MAX,
        0 <= i <= p.len(),
        fuel >= p.len() - i,
    ensures
        run(p, i, regs, fuel) == in_order(p, i, regs),
    decreases p.len() - i,
{
    if i < p.len() {
        let op = p[i];
        assert(!(op is Jnz) && !(op is Unsupported));
        match step(op, i, regs) {
            Ok((pc2, r2)) => {
                assert(pc2 == i + 1);
                assert(effect(op, regs, i) == Ok::<RegSeq, Fault>(r2));
                lemma_run_straight(p, i + 1, r2, (fuel - 1) as nat);
            },
            Err(e) => {
                assert(effect(op, regs, i) == Err::<RegSeq, Fault>(e));
            },
        }
    }
}

/// A program of only `mov`, `inc` and `dec` ends with the registers that
/// applying its instructions one by one, in the order written, gives.
pub proof fn lemma_straight_line(lines: Seq<Seq<char>>)
    requires
        straight_line(program_of(lines)),
        lines.len() <= i64::MAX,
    ensures
        assembled(lines, STEP_LIMIT as nat) == in_order(program_of(lines), 0, registers_of(lines)),
{
    lemma_run_straight(program_of(lines), 0, registers_of(lines), STEP_LIMIT as nat);
}

/// Whether a straight-line program moves only literals.
pub open spec fn literal_moves(p: Seq<Op>) -> bool {
    straight_line(p) && forall|i: int| 0 <= i < p.len() ==> !((#[trigger] p[i]) matches Op::Mov(
        _,
        Operand::Reg(_),
    ))
}

/// The registers after the first `n` instructions, applied in textual order.
pub open spec fn after(p: Seq<Op>, n: int, regs: RegSeq) -> Result<RegSeq, Fault>
    decreases n,
{
    if n <= 0 {
        Ok(regs)
    } else {
        match after(p, n - 1, regs) {
            Ok(r) => effect(p[n - 1], r, n - 1),
            Err(e) => Err(e),
        }
    }
}

/// What one instruction adds to register `x`: 1 for `inc x`, -1 for `dec x`.
pub open spec fn delta(op: Op, x: Seq<char>) -> int {
    if op == Op::Inc(x) {
        1
    } else if op == Op::Dec(x) {
        -1
    } else {
        0
    }
}

/// The number of `inc x` less the number of `dec x` among positions
/// `from .. to`.
pub open spec fn net(p: Seq<Op>, x: Seq<char>, from: int, to: int) -> int
    decreases to - from,
{
    if to <= from {
        0
    } else {
        net(p, x, from, to - 1) + delta(p[to - 1], x)
    }
}

/// The position of the last `mov x` among the first `n` instructions, or -1.
pub open spec fn last_mov(p: Seq<Op>, x: Seq<char>, n: int) -> int
    decreases n,
{
    if n <= 0 {
        -1
    } else if p[n - 1] matches Op::Mov(d, _) && d == x {
        n - 1
    } else {
        last_mov(p, x, n - 1)
    }
}

/// Register `x` after the first `n` instructions, from `init`: the literal of
/// its last `mov` (or `init`), plus the `inc x` after it, less the `dec x`.
pub open spec fn counted(p: Seq<Op>, x: Seq<char>, n: int, init: int) -> int {
    let k = last_mov(p, x, n);
    if k >= 0 {
        (p[k]->Mov_1->Num_0) + net(p, x, k + 1, n)
    } else {
        init + net(p, x, 0, n)
    }
}

proof fn lemma_last_mov_range(p: Seq<Op>, x: Seq<char>, n: int)
    requires
        n >= 0,
    ensures
        last_mov(p, x, n) < n,
        last_mov(p, x, n) >= -1,
    decreases n,
{
    if n > 0 {
        lemma_last_mov_range(p, x, n - 1);
    }
}

proof fn lemma_after_err(p: Seq<Op>, i: int, m: int, regs: RegSeq)
    requires
        0 <= i <= m,
        after(p, i, regs) is Err,
    ensures
        after(p, m, regs) == after(p, i, regs),
    decreases m - i,
{
    if m > i {
        lemma_after_err(p, i, m - 1, regs);
    }
}

proof fn lemma_in_order_after(p: Seq<Op>, i: int, regs: RegSeq)
    requires
        0 <= i <= p.len(),
        after(p, i, regs) is Ok,
    ensures
        in_order(p, i, after(p, i, regs)->Ok_0) == after(p, p.len() as int, regs),
    decreases p.len() - i,
{
    if i < p.len() {
        let r = after(p, i, regs)->Ok_0;
        assert(after(p, i + 1, regs) == effect(p[i], r, i));
        if effect(p[i], r, i) is Ok {
            lemma_in_order_after(p, i + 1, regs);
        } else {
            lemma_after_err(p, i + 1, p.len() as int, regs);
        }
    }
}

proof fn lemma_counted(p: Seq<Op>, x: Seq<char>, n: int, regs: RegSeq, init: i64)
    requires
        literal_moves(p),
        0 <= n <= p.len(),
        lookup(regs, x) == Some(init),
        after(p, n, regs) is Ok,
    ensures
        lookup(after(p, n, regs)->Ok_0, x) matches Some(v) && v == counted(p, x, n, init as int),
    decreases n,
{
    if n > 0 {
        if after(p, n - 1, regs) is Err {
            lemma_after_err(p, n - 1, n, regs);
        }
        lemma_counted(p, x, n - 1, regs, init);
        lemma_last_mov_range(p, x, n - 1);
        let r = after(p, n - 1, regs)->Ok_0;
        let op = p[n - 1];
        assert(!(op is Jnz) && !(op is Unsupported));
        assert(!(op matches Op::Mov(_, Operand::Reg(_))));
        match op {
            Op::Mov(d, Operand::Num(m)) => {
                if d == x {
                    lemma_assign_lookup(r, d, m);
                } else {
                    lemma_assign_other(r, d, m, x);
                }
            },
            Op::Inc(d) => {
                let v = lookup(r, d)->Some_0;
                if d == x {
                    lemma_assign_lookup(r, d, (v + 1) as i64);
                } else {
                    lemma_assign_other(r, d, (v + 1) as i64, x);
                }
            },
            Op::Dec(d) => {
                let v = lookup(r, d)->Some_0;
                if d == x {
                    lemma_assign_lookup(r, d, (v - 1) as i64);
                } else {
                    lemma_assign_other(r, d, (v - 1) as i64, x);
                }
            },
            _ => {},
        }
    }
}

/// In a run of only `mov` of literals, `inc` and `dec` that ends normally,
/// each established register ends at the literal of its last `mov` (or at 0
/// when there is none), plus the number of `inc` of it
/// after that `mov`, less the number of `dec` of it after that `mov`.
pub proof fn lemma_straight_line_counts(lines: Seq<Seq<char>>, x: Seq<char>)
    requires
        literal_moves(program_of(lines)),
        lines.len() <= i64::MAX,
        assembled(lines, STEP_LIMIT as nat) is Ok,
        lookup(registers_of(lines), x) is Some,
    ensures
        lookup(assembled(lines, STEP_LIMIT as nat)->Ok_0, x) matches Some(v) && v == counted(
            program_of(lines),
            x,
            lines.len() as int,
            0,
        ),
{
    let p = program_of(lines);
    let regs = registers_of(lines);
    lemma_seed_zero(lines, lines.len());
    lemma_find_range(regs, x);
    lemma_straight_line(lines);
    lemma_in_order_after(p, 0, regs);
    lemma_counted(p, x, p.len() as int, regs, lookup(regs, x)->Some_0);
}

/// Running a program text depends on nothing but that text: two texts with
/// the same lines give the same outcome.
pub proof fn lemma_same_text_same_outcome(a: Seq<&str>, b: Seq<&str>, limit: nat)
    requires
        a.len() == b.len(),
        forall|i: int| 0 <= i < a.len() ==> (#[trigger] a[i])@ == b[i]@,
    ensures
        assembled(lowered(a), limit) == assembled(lowered(b), limit),
{
    assert(lowered(a) =~= lowered(b));
}

/// A `dec r` followed by `jnz r -1`, entered with `r` at `n >= 1`, runs
/// `2 * n` steps and leaves with `r` at 0, at the instruction after the loop.
pub proof fn lemma_countdown(
    p: Seq<Op>,
    k: int,
    r: Seq<char>,
    regs: RegSeq,
    n: int,
    fuel: nat,
)
    requires
        0 <= k,
        k + 1 < p.len(),
        p.len() <= i64::MAX,
        p[k] == Op::Dec(r),
        p[k + 1] == Op::Jnz(Operand::Reg(r), Operand::Num(-1i64)),
        1 <= n <= i64::MAX,
        lookup(regs, r) == Some(n as i64),
    ensures
        run(p, k, regs, fuel + 2 * n as nat) == run(p, k + 2, assign(regs, r, 0), fuel),
    decreases n,
{
    let regs1 = assign(regs, r, (n - 1) as i64);
    lemma_assign_lookup(regs, r, (n - 1) as i64);
    assert(step(p[k], k, regs) == Ok::<(int, RegSeq), Fault>((k + 1, regs1)));
    let f1 = (fuel + 2 * n - 1) as nat;
    assert(run(p, k, regs, fuel + 2 * n as nat) == run(p, k + 1, regs1, f1));
    if n == 1 {
        assert(step(p[k + 1], k + 1, regs1) == Ok::<(int, RegSeq), Fault>((k + 2, regs1)));
        assert(regs1 == assign(regs, r, 0));
        assert(run(p, k + 1, regs1, f1) == run(p, k + 2, regs1, fuel));
    } else {
        assert(step(p[k + 1], k + 1, regs1) == Ok::<(int, RegSeq), Fault>((k, regs1)));
        assert(run(p, k + 1, regs1, f1) == run(p, k, regs1, (fuel + 2 * (n - 1)) as nat));
        lemma_countdown(p, k, r, regs1, n - 1, fuel);
        lemma_assign_assign(regs, r, (n - 1) as i64, 0);
    }
}

/// A taken `jnz` that leaves the program at the end halts at once, with the
/// registers unchanged.
pub proof fn lemma_jump_past_end(p: Seq<Op>, pc: int, regs: RegSeq, c: Operand, o: Operand, fuel: nat)
    requires
        0 <= pc < p.len(),
        p.len() <= i64::MAX,
        p[pc] == Op::Jnz(c, o),
        resolve(c, regs, pc) matches Ok(cv) && cv != 0,
        resolve(o, regs, pc) matches Ok(ov) && p.len() <= pc + ov <= i64::MAX,
    ensures
        run(p, pc, regs, fuel + 1) == Ok::<RegSeq, Fault>(regs),
{
    let cv = resolve(c, regs, pc)->Ok_0;
    let ov = resolve(o, regs, pc)->Ok_0;
    assert(step(p[pc], pc, regs) == Ok::<(int, RegSeq), Fault>((pc + ov, regs)));
    assert(run(p, pc + ov, regs, fuel) == Ok::<RegSeq, Fault>(regs));
}

/// A taken `jnz` that moves the counter below 0 halts at once, with the
/// registers unchanged.
pub proof fn lemma_jump_before_start(
    p: Seq<Op>,
    pc: int,
    regs: RegSeq,
    c: Operand,
    o: Operand,
    fuel: nat,
)
    requires
        0 <= pc < p.len(),
        p.len() <= i64::MAX,
        p[pc] == Op::Jnz(c, o),
        resolve(c, regs, pc) matches Ok(cv) && cv != 0,
        resolve(o, regs, pc) matches Ok(ov) && pc + ov < 0,
    ensures
        run(p, pc, regs, fuel + 1) == Ok::<RegSeq, Fault>(regs),
{
    let cv = resolve(c, regs, pc)->Ok_0;
    let ov = resolve(o, regs, pc)->Ok_0;
    assert(step(p[pc], pc, regs) == Ok::<(int, RegSeq), Fault>((pc + ov, regs)));
    assert(run(p, pc + ov, regs, fuel) == Ok::<RegSeq, Fault>(regs));
}

} // verus!
