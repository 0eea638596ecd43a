use vstd::prelude::*;
use vstd::string::*;
use crate::registers::{RegSeq, assign, find, lemma_find_range, distinct_names, lemma_assign_distinct};
use crate::program::{Value, Instruction, Operand, Op};

verus! {

/// What `str::to_lowercase` makes of a text.
pub uninterp spec fn lower_of(s: Seq<char>) -> Seq<char>;

/// Relies on `str::to_lowercase`: its result depends on the text alone.
#[verifier::external_body]
pub(crate) fn lowercase(s: &str) -> (r: String)
    ensures
        r@ == lower_of(s@),
{
    s.to_lowercase()
}

/// ASCII whitespace, as `char::is_ascii_whitespace` defines it.
pub open spec fn is_blank(c: char) -> bool {
    c == ' ' || c == '\t' || c == '\n' || c == '\x0C' || c == '\r'
}

/// The finished words and the word under way after the first `n` characters.
pub open spec fn scan(s: Seq<char>, n: nat) -> (Seq<Seq<char>>, Seq<char>)
    decreases n,
{
    if n == 0 {
        (Seq::empty(), Seq::empty())
    } else {
        let (w, cur) = scan(s, (n - 1) as nat);
        let c = s[n - 1];
        if is_blank(c) {
            if cur.len() > 0 {
                (w.push(cur), Seq::empty())
            } else {
                (w, cur)
            }
        } else {
            (w, cur.push(c))
        }
    }
}

/// The maximal runs of non-blank characters of `s`, in order.
pub open spec fn words(s: Seq<char>) -> Seq<Seq<char>> {
    let (w, cur) = scan(s, s.len());
    if cur.len() > 0 {
        w.push(cur)
    } else {
        w
    }
}

pub open spec fn is_digit(c: char) -> bool {
    '0' <= c <= '9'
}

pub open spec fn all_digits(s: Seq<char>) -> bool {
    forall|i: int| 0 <= i < s.len() ==> is_digit(#[trigger] s[i])
}

/// The number that a string of decimal digits spells.
pub open spec fn digits_val(s: Seq<char>) -> int
    decreases s.len(),
{
    if s.len() == 0 {
        0
    } else {
        digits_val(s.drop_last()) * 10 + (s.last() as int - '0' as int)
    }
}

/// Whether a literal starts with a sign.
pub open spec fn signed(s: Seq<char>) -> bool {
    s.len() > 0 && (s[0] == '-' || s[0] == '+')
}

/// The digits of a literal, after its sign.
pub open spec fn unsigned_part(s: Seq<char>) -> Seq<char> {
    if signed(s) {
        s.subrange(1, s.len() as int)
    } else {
        s
    }
}

/// The base-10 signed 64-bit integer that `s` spells: an optional `+` or `-`,
/// then one or more digits, with a value in range.
pub open spec fn int_literal(s: Seq<char>) -> Option<i64> {
    let body = unsigned_part(s);
    if body.len() == 0 || !all_digits(body) {
        None
    } else {
        let v = if s[0] == '-' {
            -digits_val(body)
        } else {
            digits_val(body)
        };
        if i64::MIN <= v <= i64::MAX {
            Some(v as i64)
        } else {
            None
        }
    }
}

/// A token as an operand: a literal where it spells one, else a register.
pub open spec fn operand(t: Seq<char>) -> Operand {
    match int_literal(t) {
        Some(n) => Operand::Num(n),
        None => Operand::Reg(t),
    }
}

/// The instruction that a line's words form.
pub open spec fn decode(t: Seq<Seq<char>>) -> Op {
    if t.len() == 3 && t[0] == seq!['m', 'o', 'v'] {
        Op::Mov(t[1], operand(t[2]))
    } else if t.len() == 2 && t[0] == seq!['i', 'n', 'c'] {
        Op::Inc(t[1])
    } else if t.len() == 2 && t[0] == seq!['d', 'e', 'c'] {
        Op::Dec(t[1])
    } else if t.len() == 3 && t[0] == seq!['j', 'n', 'z'] {
        Op::Jnz(operand(t[1]), operand(t[2]))
    } else {
        Op::Unsupported
    }
}

/// The register that an instruction establishes: the target of a `mov`,
/// `inc` or `dec`, unless that word spells an integer.
pub open spec fn subject(op: Op) -> Option<Seq<char>> {
    match op {
        Op::Mov(d, _) => if int_literal(d) is None {
            Some(d)
        } else {
            None
        },
        Op::Inc(d) => if int_literal(d) is None {
            Some(d)
        } else {
            None
        },
        Op::Dec(d) => if int_literal(d) is None {
            Some(d)
        } else {
            None
        },
        _ => None,
    }
}

/// The program that lines of text form.
pub open spec fn program_of(lines: Seq<Seq<char>>) -> Seq<Op> {
    lines.map_values(|l: Seq<char>| decode(words(l)))
}

/// The registers that the first `n` lines establish, each at 0, in order of
/// first mention.
pub open spec fn seed(lines: Seq<Seq<char>>, n: nat) -> RegSeq
    decreases n,
{
    if n == 0 {
        Seq::empty()
    } else {
        let s = seed(lines, (n - 1) as nat);
        match subject(decode(words(lines[n - 1]))) {
            Some(name) => assign(s, name, 0),
            None => s,
        }
    }
}

/// Discovery establishes each name once.
pub proof fn lemma_seed_distinct(lines: Seq<Seq<char>>, n: nat)
    ensures
        distinct_names(seed(lines, n)),
    decreases n,
{
    if n > 0 {
        lemma_seed_distinct(lines, (n - 1) as nat);
        if let Some(name) = subject(decode(words(lines[n - 1]))) {
            lemma_assign_distinct(seed(lines, (n - 1) as nat), name, 0);
        }
    }
}

/// Discovery establishes every register at 0.
pub proof fn lemma_seed_zero(lines: Seq<Seq<char>>, n: nat)
    ensures
        forall|i: int| 0 <= i < seed(lines, n).len() ==> (#[trigger] seed(lines, n)[i]).1 == 0,
    decreases n,
{
    if n > 0 {
        let prev = seed(lines, (n - 1) as nat);
        lemma_seed_zero(lines, (n - 1) as nat);
        if let Some(name) = subject(decode(words(lines[n - 1]))) {
            lemma_find_range(prev, name);
            let t = assign(prev, name, 0);
            assert forall|i: int| 0 <= i < t.len() implies (#[trigger] t[i]).1 == 0 by {
                if i < prev.len() && i != find(prev, name) {
                    assert(t[i] == prev[i]);
                }
            }
        }
    }
}

/// The registers that all of `lines` establish.
pub open spec fn registers_of(lines: Seq<Seq<char>>) -> RegSeq {
    seed(lines, lines.len())
}

pub open spec fn strings(v: Seq<String>) -> Seq<Seq<char>> {
    v.map_values(|s: String| s@)
}

/// Splits a line into its words.
pub fn split_words(line: &str) -> (r: Vec<String>)
    ensures
        strings(r@) == words(line@),
{
    let n = line.unicode_len();
    let mut out: Vec<String> = Vec::new();
    let mut start: usize = 0;
    let mut i: usize = 0;
    while i < n
        invariant
            n == line@.len(),
            start <= i <= n,
            scan(line@, i as nat) == (strings(out@), line@.subrange(start as int, i as int)),
        decreases n - i,
    {
        let c = line.get_char(i);
        let ghost (w, cur) = scan(line@, i as nat);
        if c == ' ' || c == '\t' || c == '\n' || c == '\x0C' || c == '\r' {
            if start < i {
                let word = line.substring_char(start, i).to_owned();
                out.push(word);
                assert(strings(out@) =~= w.push(cur));
            }
            start = i + 1;
            assert(line@.subrange(start as int, (i + 1) as int) =~= Seq::<char>::empty());
        } else {
            assert(line@.subrange(start as int, (i + 1) as int) =~= cur.push(c));
        }
        i = i + 1;
    }
    if start < n {
        let word = line.substring_char(start, n).to_owned();
        let ghost w = strings(out@);
        out.push(word);
        assert(strings(out@) =~= w.push(line@.subrange(start as int, n as int)));
    }
    out
}

proof fn lemma_digits_nonneg(t: Seq<char>)
    requires
        all_digits(t),
    ensures
        digits_val(t) >= 0,
    decreases t.len(),
{
    if t.len() > 0 {
        assert(is_digit(t[t.len() - 1]));
        lemma_digits_nonneg(t.drop_last());
    }
}

proof fn lemma_digits_prefix(t: Seq<char>, k: int)
    requires
        all_digits(t),
        0 <= k <= t.len(),
    ensures
        digits_val(t.subrange(0, k)) <= digits_val(t),
    decreases t.len(),
{
    if k < t.len() {
        let d = t.drop_last();
        assert(is_digit(t[t.len() - 1]));
        lemma_digits_prefix(d, k);
        lemma_digits_nonneg(d);
        assert(d.subrange(0, k) =~= t.subrange(0, k));
    } else {
        assert(t.subrange(0, k) =~= t);
    }
}

/// Reads a base-10 signed 64-bit integer literal, as `i64::from_str` does.
pub fn parse_integer(tok: &str) -> (r: Option<i64>)
    ensures
        r == int_literal(tok@),
{
    let n = tok.unicode_len();
    let ghost s = tok@;
    let mut start: usize = 0;
    let mut neg = false;
    if n > 0 {
        let c0 = tok.get_char(0);
        if c0 == '-' {
            neg = true;
            start = 1;
        } else if c0 == '+' {
            start = 1;
        }
    }
    let ghost body = unsigned_part(s);
    assert(body =~= s.subrange(start as int, n as int));
    if start == n {
        return None;
    }
    let limit: u128 = 0x8000_0000_0000_0000;
    let mut acc: u128 = 0;
    let mut i: usize = start;
    while i < n
        invariant
            n == s.len(),
            s == tok@,
            body == s.subrange(start as int, n as int),
            body == unsigned_part(s),
            neg == (s.len() > 0 && s[0] == '-'),
            start <= i <= n,
            limit == 0x8000_0000_0000_0000u128,
            acc <= limit,
            all_digits(body.subrange(0, i - start)),
            acc == digits_val(body.subrange(0, i - start)),
        decreases n - i,
    {
        let c = tok.get_char(i);
        if !('0' <= c && c <= '9') {
            assert(body[i - start] == c);
            assert(!is_digit(body[i - start]));
            assert(!all_digits(body));
            return None;
        }
        let d = (c as u32 - '0' as u32) as u128;
        let ghost pre = body.subrange(0, i - start);
        let ghost next = body.subrange(0, i + 1 - start);
        assert(next.drop_last() =~= pre);
        assert(all_digits(next)) by {
            assert forall|j: int| 0 <= j < next.len() implies is_digit(#[trigger] next[j]) by {
                if j < pre.len() {
                    assert(next[j] == pre[j]);
                }
            }
        }
        assert(acc * 10 + d <= 0x8000_0000_0000_0000 * 10 + 9) by (nonlinear_arith)
            requires
                acc <= 0x8000_0000_0000_0000u128,
                d <= 9,
        ;
        let v = acc * 10 + d;
        if v > limit {
            proof {
                if all_digits(body) {
                    lemma_digits_prefix(body, i + 1 - start);
                }
            }
            return None;
        }
        acc = v;
        i = i + 1;
    }
    assert(body.subrange(0, n - start) =~= body);
    if neg {
        if acc == limit {
            Some(i64::MIN)
        } else {
            Some(-(acc as i64))
        }
    } else if acc < limit {
        Some(acc as i64)
    } else {
        None
    }
}

/// Whether `tok` is the three-letter word `a b c`.
fn spelled(tok: &String, a: char, b: char, c: char) -> (r: bool)
    ensures
        r == (tok@ == seq![a, b, c]),
{
    let t = tok.as_str();
    if t.unicode_len() != 3 {
        return false;
    }
    let r = t.get_char(0) == a && t.get_char(1) == b && t.get_char(2) == c;
    if r {
        assert(tok@ =~= seq![a, b, c]);
    }
    r
}

impl Value {
    /// A token as an operand: a literal where it spells an integer, else a
    /// register of that name.
    pub fn from_token(tok: &String) -> (r: Value)
        ensures
            r@ == operand(tok@),
    {
        match parse_integer(tok.as_str()) {
            Some(n) => Value::Number(n),
            None => Value::Register(tok.clone()),
        }
    }
}

impl Instruction {
    /// The instruction that a line's words form; `Unsupported` where they fit
    /// no form.
    pub fn decode(toks: &Vec<String>) -> (r: Instruction)
        ensures
            r@ == decode(strings(toks@)),
    {
        let ghost t = strings(toks@);
        let n = toks.len();
        if n == 3 && spelled(&toks[0], 'm', 'o', 'v') {
            Instruction::Mov(toks[1].clone(), Value::from_token(&toks[2]))
        } else if n == 2 && spelled(&toks[0], 'i', 'n', 'c') {
            Instruction::Inc(toks[1].clone())
        } else if n == 2 && spelled(&toks[0], 'd', 'e', 'c') {
            Instruction::Dec(toks[1].clone())
        } else if n == 3 && spelled(&toks[0], 'j', 'n', 'z') {
            Instruction::Jnz(Value::from_token(&toks[1]), Value::from_token(&toks[2]))
        } else {
            Instruction::Unsupported
        }
    }
}

/// The register that an instruction establishes, if any.
pub fn subject_of(instr: &Instruction) -> (r: Option<String>)
    ensures
        match r {
            Some(name) => subject(instr@) == Some(name@),
            None => subject(instr@) is None,
        },
{
    let target = match instr {
        Instruction::Mov(d, _) => d,
        Instruction::Inc(d) => d,
        Instruction::Dec(d) => d,
        _ => return None,
    };
    if parse_integer(target.as_str()).is_none() {
        Some(target.clone())
    } else {
        None
    }
}

} // verus!
