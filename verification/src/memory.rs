//! Sparse memory: a mapping from 36-bit addresses to values.
//!
//! The memory is modelled as a sequence of `(address, value)` entries in
//! which every address occurs at most once; `assoc_put` is the mathematical
//! write and `sum_values` the mathematical sum of the stored values.

use vstd::prelude::*;

verus! {

/// The entry sequence after writing `v` to address `a`: the first entry for
/// `a` is replaced, or a fresh entry is appended.
pub open spec fn assoc_put(m: Seq<(u64, u64)>, a: u64, v: u64) -> Seq<(u64, u64)>
    decreases m.len(),
{
    if m.len() == 0 {
        seq![(a, v)]
    } else if m[0].0 == a {
        seq![(a, v)] + m.drop_first()
    } else {
        seq![m[0]] + assoc_put(m.drop_first(), a, v)
    }
}

/// The value stored at address `a`, if any.
pub open spec fn assoc_get(m: Seq<(u64, u64)>, a: u64) -> Option<u64>
    decreases m.len(),
{
    if m.len() == 0 {
        None
    } else if m[0].0 == a {
        Some(m[0].1)
    } else {
        assoc_get(m.drop_first(), a)
    }
}

/// The mathematical sum of all stored values.
pub open spec fn sum_values(m: Seq<(u64, u64)>) -> int
    decreases m.len(),
{
    if m.len() == 0 {
        0
    } else {
        sum_values(m.drop_last()) + m.last().1
    }
}

/// Reading after a write sees the written value at the written address and
/// the old value anywhere else.
pub proof fn lemma_assoc_get_put(m: Seq<(u64, u64)>, a: u64, v: u64, b: u64)
    ensures
        assoc_get(assoc_put(m, a, v), b) == if b == a {
            Some(v)
        } else {
            assoc_get(m, b)
        },
    decreases m.len(),
{
    reveal_with_fuel(assoc_get, 3);
    if m.len() == 0 {
        assert(assoc_put(m, a, v) =~= seq![(a, v)]);
    } else if m[0].0 == a {
        assert(assoc_put(m, a, v)[0] == (a, v));
        assert(assoc_put(m, a, v).drop_first() =~= m.drop_first());
    } else {
        lemma_assoc_get_put(m.drop_first(), a, v, b);
        assert(assoc_put(m, a, v)[0] == m[0]);
        assert(assoc_put(m, a, v).drop_first() =~= assoc_put(m.drop_first(), a, v));
    }
}

/// Writing a value that the address already holds changes nothing.
pub proof fn lemma_assoc_put_same(m: Seq<(u64, u64)>, a: u64, v: u64)
    requires
        assoc_get(m, a) == Some(v),
    ensures
        assoc_put(m, a, v) == m,
    decreases m.len(),
{
    if m.len() == 0 {
    } else if m[0].0 == a {
        assert(assoc_put(m, a, v) =~= m);
    } else {
        lemma_assoc_put_same(m.drop_first(), a, v);
        assert(assoc_put(m, a, v) =~= m);
    }
}

/// Writing the same address and value twice is the same as writing it once.
pub proof fn lemma_assoc_put_put_same(m: Seq<(u64, u64)>, a: u64, v: u64)
    ensures
        assoc_put(assoc_put(m, a, v), a, v) == assoc_put(m, a, v),
{
    lemma_assoc_get_put(m, a, v, a);
    lemma_assoc_put_same(assoc_put(m, a, v), a, v);
}

/// The sum of stored values is never negative.
pub proof fn lemma_sum_values_nonneg(m: Seq<(u64, u64)>)
    ensures
        sum_values(m) >= 0,
    decreases m.len(),
{
    if m.len() > 0 {
        lemma_sum_values_nonneg(m.drop_last());
    }
}

/// Sparse memory, keyed by 36-bit addresses.
pub struct Memory {
    entries: Vec<(u64, u64)>,
}

impl View for Memory {
    type V = Seq<(u64, u64)>;

    closed spec fn view(&self) -> Seq<(u64, u64)> {
        self.entries@
    }
}

/// Replacing the first entry for `a` in place realises `assoc_put`.
proof fn lemma_put_is_update(m: Seq<(u64, u64)>, a: u64, v: u64, i: int)
    requires
        0 <= i < m.len(),
        m[i].0 == a,
        forall|j: int| 0 <= j < i ==> m[j].0 != a,
    ensures
        assoc_put(m, a, v) == m.update(i, (a, v)),
    decreases m.len(),
{
    if i == 0 {
        assert(assoc_put(m, a, v) =~= m.update(0, (a, v)));
    } else {
        lemma_put_is_update(m.drop_first(), a, v, i - 1);
        assert(m.drop_first()[i - 1].0 == a);
        assert(assoc_put(m, a, v) =~= m.update(i, (a, v)));
    }
}

/// Appending a fresh entry realises `assoc_put` when `a` is absent.
proof fn lemma_put_is_push(m: Seq<(u64, u64)>, a: u64, v: u64)
    requires
        forall|j: int| 0 <= j < m.len() ==> m[j].0 != a,
    ensures
        assoc_put(m, a, v) == m.push((a, v)),
    decreases m.len(),
{
    if m.len() == 0 {
        assert(assoc_put(m, a, v) =~= m.push((a, v)));
    } else {
        lemma_put_is_push(m.drop_first(), a, v);
        assert(assoc_put(m, a, v) =~= m.push((a, v)));
    }
}

impl Memory {
    /// A memory with nothing written yet.
    pub fn new() -> (r: Memory)
        ensures
            r@ == Seq::<(u64, u64)>::empty(),
    {
        Memory { entries: Vec::new() }
    }

    /// The number of addresses holding a value.
    pub fn len(&self) -> (r: usize)
        ensures
            r == self@.len(),
    {
        self.entries.len()
    }

    /// The value stored at address `a`, if any.
    pub fn get(&self, a: u64) -> (r: Option<u64>)
        ensures
            r == assoc_get(self@, a),
    {
        let mut i: usize = 0;
        proof {
            assert(self@.skip(0) =~= self@);
        }
        while i < self.entries.len()
            invariant
                i <= self@.len(),
                forall|j: int| 0 <= j < i ==> self@[j].0 != a,
                assoc_get(self@, a) == assoc_get(self@.skip(i as int), a),
            decreases self@.len() - i,
        {
            proof {
                assert(self@.skip(i as int)[0] == self@[i as int]);
                assert(self@.skip(i as int).drop_first() =~= self@.skip(i + 1));
            }
            if self.entries[i].0 == a {
                return Some(self.entries[i].1);
            }
            i = i + 1;
        }
        proof {
            assert(self@.skip(i as int).len() == 0);
        }
        None
    }

    /// The position of the entry for `a`, if one exists.
    fn find_index(&self, a: u64) -> (r: Option<usize>)
        ensures
            match r {
                Some(i) => i < self@.len() && self@[i as int].0 == a && forall|j: int|
                    0 <= j < i ==> self@[j].0 != a,
                None => forall|j: int| 0 <= j < self@.len() ==> self@[j].0 != a,
            },
    {
        let mut i: usize = 0;
        while i < self.entries.len()
            invariant
                i <= self@.len(),
                forall|j: int| 0 <= j < i ==> self@[j].0 != a,
            decreases self@.len() - i,
        {
            if self.entries[i].0 == a {
                return Some(i);
            }
            i = i + 1;
        }
        None
    }

    /// Write `v` to address `a`, overwriting any earlier value there.
    pub fn write(&mut self, a: u64, v: u64)
        ensures
            final(self)@ == assoc_put(old(self)@, a, v),
    {
        let ghost m = self@;
        match self.find_index(a) {
            Some(i) => {
                self.entries.set(i, (a, v));
                proof {
                    lemma_put_is_update(m, a, v, i as int);
                }
            },
            None => {
                self.entries.push((a, v));
                proof {
                    lemma_put_is_push(m, a, v);
                }
            },
        }
    }

    /// The sum of all stored values, reduced modulo `2^64`.
    pub fn wrapped_sum(&self) -> (r: u64)
        ensures
            r as int == sum_values(self@) % 0x1_0000_0000_0000_0000,
            sum_values(self@) <= u64::MAX ==> r == sum_values(self@),
    {
        proof {
            lemma_sum_values_nonneg(self@);
        }
        let mut total: u128 = 0;
        let mut i: usize = 0;
        while i < self.entries.len()
            invariant
                i <= self@.len(),
                total == sum_values(self@.take(i as int)),
                total <= i * 0xffff_ffff_ffff_ffff,
            decreases self@.len() - i,
        {
            proof {
                assert(self@.take(i + 1).drop_last() =~= self@.take(i as int));
                assert(self@.take(i + 1).last() == self@[i as int]);
                assert((i + 1) * 0xffff_ffff_ffff_ffff == i * 0xffff_ffff_ffff_ffff
                    + 0xffff_ffff_ffff_ffff) by (nonlinear_arith);
                assert(i * 0xffff_ffff_ffff_ffff <= 0xffff_ffff_ffff_ffff
                    * 0xffff_ffff_ffff_ffff) by (nonlinear_arith)
                    requires
                        0 <= i <= 0xffff_ffff_ffff_ffff,
                ;
            }
            total = total + self.entries[i].1 as u128;
            i = i + 1;
        }
        proof {
            assert(self@.take(self@.len() as int) =~= self@);
        }
        (total % 0x1_0000_0000_0000_0000u128) as u64
    }
}

} // verus!
