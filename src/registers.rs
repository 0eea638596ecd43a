use vstd::prelude::*;

verus! {

/// The register file as a sequence of (name, value) pairs, in the order in
/// which names were first established.
pub type RegSeq = Seq<(Seq<char>, i64)>;

/// Index of the first entry at or after `i` named `k`, or -1.
pub open spec fn find_from(s: RegSeq, k: Seq<char>, i: int) -> int
    decreases s.len() - i,
{
    if i < 0 || i >= s.len() {
        -1
    } else if s[i].0 == k {
        i
    } else {
        find_from(s, k, i + 1)
    }
}

/// Index of the entry named `k`, or -1 when there is none.
pub open spec fn find(s: RegSeq, k: Seq<char>) -> int {
    find_from(s, k, 0)
}

/// The value of register `k`, if it is established.
pub open spec fn lookup(s: RegSeq, k: Seq<char>) -> Option<i64> {
    let i = find(s, k);
    if i >= 0 {
        Some(s[i].1)
    } else {
        None
    }
}

/// `s` with register `k` set to `v`: an existing entry keeps its place, a new
/// name goes at the end.
pub open spec fn assign(s: RegSeq, k: Seq<char>, v: i64) -> RegSeq {
    let i = find(s, k);
    if i >= 0 {
        s.update(i, (k, v))
    } else {
        s.push((k, v))
    }
}

pub proof fn lemma_find_from_range(s: RegSeq, k: Seq<char>, i: int)
    requires
        0 <= i,
    ensures
        find_from(s, k, i) == -1 || (i <= find_from(s, k, i) < s.len() && s[find_from(s, k, i)].0
            == k),
    decreases s.len() - i,
{
    if i < s.len() && s[i].0 != k {
        lemma_find_from_range(s, k, i + 1);
    }
}

pub proof fn lemma_find_range(s: RegSeq, k: Seq<char>)
    ensures
        find(s, k) == -1 || (0 <= find(s, k) < s.len() && s[find(s, k)].0 == k),
{
    lemma_find_from_range(s, k, 0);
}

/// Finding a name only looks at names.
pub proof fn lemma_find_same_names(s: RegSeq, t: RegSeq, k: Seq<char>, i: int)
    requires
        0 <= i,
        s.len() == t.len(),
        forall|j: int| 0 <= j < s.len() ==> (#[trigger] s[j]).0 == t[j].0,
    ensures
        find_from(s, k, i) == find_from(t, k, i),
    decreases s.len() - i,
{
    if i < s.len() {
        lemma_find_same_names(s, t, k, i + 1);
    }
}

proof fn lemma_find_push(s: RegSeq, e: (Seq<char>, i64), k: Seq<char>, i: int)
    requires
        0 <= i <= s.len(),
        find_from(s, k, i) == -1,
    ensures
        find_from(s.push(e), k, i) == if e.0 == k {
            s.len() as int
        } else {
            -1
        },
    decreases s.len() - i,
{
    if i < s.len() {
        assert(s.push(e)[i] == s[i]);
        lemma_find_push(s, e, k, i + 1);
    } else {
        assert(s.push(e)[i] == e);
        assert(find_from(s.push(e), k, i + 1) == -1);
    }
}

/// Setting a register and then reading it gives the value set.
pub proof fn lemma_assign_lookup(s: RegSeq, k: Seq<char>, v: i64)
    ensures
        lookup(assign(s, k, v), k) == Some(v),
        find(assign(s, k, v), k) >= 0,
{
    lemma_find_range(s, k);
    let i = find(s, k);
    if i >= 0 {
        let t = s.update(i, (k, v));
        lemma_find_same_names(s, t, k, 0);
    } else {
        lemma_find_push(s, (k, v), k, 0);
    }
}

/// Setting a register twice leaves only the second value.
pub proof fn lemma_assign_assign(s: RegSeq, k: Seq<char>, v: i64, w: i64)
    ensures
        assign(assign(s, k, v), k, w) == assign(s, k, w),
{
    lemma_find_range(s, k);
    lemma_assign_lookup(s, k, v);
    let i = find(s, k);
    if i >= 0 {
        let t = s.update(i, (k, v));
        lemma_find_same_names(s, t, k, 0);
        assert(assign(t, k, w) =~= assign(s, k, w));
    } else {
        lemma_find_push(s, (k, v), k, 0);
        assert(assign(s.push((k, v)), k, w) =~= s.push((k, w)));
    }
}

proof fn lemma_find_push_found(s: RegSeq, e: (Seq<char>, i64), k: Seq<char>, i: int)
    requires
        0 <= i,
        find_from(s, k, i) >= 0,
    ensures
        find_from(s.push(e), k, i) == find_from(s, k, i),
    decreases s.len() - i,
{
    if i < s.len() {
        assert(s.push(e)[i] == s[i]);
        if s[i].0 != k {
            lemma_find_push_found(s, e, k, i + 1);
        }
    }
}

/// Setting one register leaves every other register as it was.
pub proof fn lemma_assign_other(s: RegSeq, k: Seq<char>, v: i64, x: Seq<char>)
    requires
        x != k,
    ensures
        lookup(assign(s, k, v), x) == lookup(s, x),
{
    lemma_find_range(s, k);
    lemma_find_range(s, x);
    let i = find(s, k);
    if i >= 0 {
        let t = s.update(i, (k, v));
        lemma_find_same_names(s, t, x, 0);
    } else if find(s, x) >= 0 {
        lemma_find_push_found(s, (k, v), x, 0);
    } else {
        lemma_find_push(s, (k, v), x, 0);
    }
}

/// No two entries share a name.
pub open spec fn distinct_names(s: RegSeq) -> bool {
    forall|i: int, j: int| 0 <= i < j < s.len() ==> (#[trigger] s[i]).0 != (#[trigger] s[j]).0
}

proof fn lemma_find_absent(s: RegSeq, k: Seq<char>, i: int)
    requires
        0 <= i,
        find_from(s, k, i) == -1,
    ensures
        forall|j: int| i <= j < s.len() ==> (#[trigger] s[j]).0 != k,
    decreases s.len() - i,
{
    if i < s.len() {
        lemma_find_absent(s, k, i + 1);
    }
}

/// Setting a register keeps names distinct.
pub proof fn lemma_assign_distinct(s: RegSeq, k: Seq<char>, v: i64)
    requires
        distinct_names(s),
    ensures
        distinct_names(assign(s, k, v)),
{
    lemma_find_range(s, k);
    let t = assign(s, k, v);
    if find(s, k) >= 0 {
        assert forall|i: int, j: int| 0 <= i < j < t.len() implies (#[trigger] t[i]).0 != (
        #[trigger] t[j]).0 by {
            assert(s[i].0 == t[i].0 && s[j].0 == t[j].0);
        }
    } else {
        lemma_find_absent(s, k, 0);
        assert forall|i: int, j: int| 0 <= i < j < t.len() implies (#[trigger] t[i]).0 != (
        #[trigger] t[j]).0 by {
            if j == s.len() {
                assert(t[i] == s[i]);
            } else {
                assert(t[i] == s[i] && t[j] == s[j]);
            }
        }
    }
}

/// A register file: named signed 64-bit registers in order of establishment.
#[derive(Debug)]
pub struct Registers {
    entries: Vec<(String, i64)>,
}

impl View for Registers {
    type V = RegSeq;

    closed spec fn view(&self) -> RegSeq {
        self.entries@.map_values(|e: (String, i64)| (e.0@, e.1))
    }
}

impl Registers {
    /// An empty register file.
    pub fn new() -> (r: Registers)
        ensures
            r@ == Seq::<(Seq<char>, i64)>::empty(),
            distinct_names(r@),
    {
        let r = Registers { entries: Vec::new() };
        assert(r@ =~= Seq::<(Seq<char>, i64)>::empty());
        r
    }

    fn position(&self, name: &String) -> (r: Option<usize>)
        ensures
            match r {
                Some(i) => find(self@, name@) == i as int,
                None => find(self@, name@) == -1,
            },
    {
        let mut i: usize = 0;
        while i < self.entries.len()
            invariant
                0 <= i <= self.entries.len(),
                find(self@, name@) == find_from(self@, name@, i as int),
            decreases self.entries.len() - i,
        {
            if self.entries[i].0 == *name {
                return Some(i);
            }
            i = i + 1;
        }
        None
    }

    /// The value of the register called `name`, if established.
    pub fn get(&self, name: &str) -> (r: Option<i64>)
        ensures
            r == lookup(self@, name@),
    {
        let key = name.to_owned();
        proof {
            lemma_find_range(self@, name@);
        }
        match self.position(&key) {
            Some(i) => Some(self.entries[i].1),
            None => None,
        }
    }

    /// The value of the register called `name`, if established.
    pub fn read(&self, name: &String) -> (r: Option<i64>)
        ensures
            r == lookup(self@, name@),
    {
        proof {
            lemma_find_range(self@, name@);
        }
        match self.position(name) {
            Some(i) => Some(self.entries[i].1),
            None => None,
        }
    }

    /// Sets register `name` to `value`, establishing it if needed.
    pub fn set(&mut self, name: &String, value: i64)
        ensures
            final(self)@ == assign(old(self)@, name@, value),
            distinct_names(old(self)@) ==> distinct_names(final(self)@),
    {
        proof {
            if distinct_names(self@) {
                lemma_assign_distinct(self@, name@, value);
            }
        }
        proof {
            lemma_find_range(self@, name@);
        }
        let ghost before = self@;
        match self.position(name) {
            Some(i) => {
                self.entries.set(i, (name.clone(), value));
                assert(self@ =~= before.update(i as int, (name@, value)));
            },
            None => {
                self.entries.push((name.clone(), value));
                assert(self@ =~= before.push((name@, value)));
            },
        }
    }

    /// An independent copy of this register file.
    pub fn snapshot(&self) -> (r: Registers)
        ensures
            r@ == self@,
    {
        let mut entries: Vec<(String, i64)> = Vec::new();
        let mut i: usize = 0;
        while i < self.entries.len()
            invariant
                0 <= i <= self.entries.len(),
                entries@.len() == i,
                forall|j: int| 0 <= j < i ==> entries@[j].0@ == self.entries@[j].0@ && entries@[j].1
                    == self.entries@[j].1,
            decreases self.entries.len() - i,
        {
            let e = &self.entries[i];
            entries.push((e.0.clone(), e.1));
            i = i + 1;
        }
        let r = Registers { entries };
        assert(r@ =~= self@);
        r
    }

    /// Number of established registers.
    pub fn len(&self) -> (r: usize)
        ensures
            r == self@.len(),
    {
        self.entries.len()
    }

    /// The name and value of the `i`-th established register.
    pub fn entry(&self, i: usize) -> (r: (String, i64))
        requires
            i < self@.len(),
        ensures
            r.0@ == self@[i as int].0,
            r.1 == self@[i as int].1,
    {
        let e = &self.entries[i];
        (e.0.clone(), e.1)
    }
}

} // verus!
