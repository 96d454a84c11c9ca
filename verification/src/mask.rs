//! The 36-character mask pattern and the bitmasks derived from it.
//!
//! A pattern character at index `i` (counted from the left) governs bit
//! `35 - i` of a 36-bit word.  A `'1'` forces the bit on, a `'0'` forces it
//! off, and an `'X'` leaves it floating.

use vstd::prelude::*;

verus! {

/// One character of a mask pattern.
#[derive(Clone, Copy, PartialEq, Eq, Structural, Debug)]
pub enum MaskBit {
    /// The pattern character `'0'`.
    Zero,
    /// The pattern character `'1'`.
    One,
    /// The pattern character `'X'`.
    Floating,
}

/// A parsed mask pattern: exactly 36 symbols, leftmost first.
pub struct MaskPattern {
    pub bits: Vec<MaskBit>,
}

impl View for MaskPattern {
    type V = Seq<MaskBit>;

    open spec fn view(&self) -> Seq<MaskBit> {
        self.bits@
    }
}

/// The bitmask with a 1 exactly where a prefix of a 36-symbol pattern has a
/// `One`.  The last symbol of a prefix of length `n` sits at index `n - 1`
/// and so governs bit `35 - (n - 1) == 36 - n`.
pub open spec fn true_mask_of(p: Seq<MaskBit>) -> u64
    decreases p.len(),
{
    if p.len() == 0 {
        0u64
    } else {
        true_mask_of(p.drop_last()) | (if p.last() is One {
            1u64 << (36 - p.len()) as u64
        } else {
            0u64
        })
    }
}

/// The bitmask with a 1 exactly where a prefix of a 36-symbol pattern has a
/// `Zero`, positioned as in `true_mask_of`.
pub open spec fn false_mask_of(p: Seq<MaskBit>) -> u64
    decreases p.len(),
{
    if p.len() == 0 {
        0u64
    } else {
        false_mask_of(p.drop_last()) | (if p.last() is Zero {
            1u64 << (36 - p.len()) as u64
        } else {
            0u64
        })
    }
}

/// The bit positions of the `Floating` symbols of a prefix of a 36-symbol
/// pattern, in pattern order (so strictly decreasing).
pub open spec fn floating_of(p: Seq<MaskBit>) -> Seq<u64>
    decreases p.len(),
{
    if p.len() == 0 {
        Seq::empty()
    } else {
        floating_of(p.drop_last()) + (if p.last() is Floating {
            seq![(36 - p.len()) as u64]
        } else {
            Seq::<u64>::empty()
        })
    }
}

/// The floating positions of a pattern prefix: at most one per symbol, all
/// below 36 and at or above `36 - len`, and strictly decreasing (so no
/// position repeats).
pub proof fn lemma_floating_of_wf(p: Seq<MaskBit>)
    requires
        p.len() <= 36,
    ensures
        floating_of(p).len() <= p.len(),
        forall|k: int|
            0 <= k < floating_of(p).len() ==> 36 - p.len() <= #[trigger] floating_of(p)[k] < 36,
        forall|a: int, b: int|
            0 <= a < b < floating_of(p).len() ==> floating_of(p)[a] > floating_of(p)[b],
    decreases p.len(),
{
    if p.len() > 0 {
        lemma_floating_of_wf(p.drop_last());
        let rest = floating_of(p.drop_last());
        if p.last() is Floating {
            assert(floating_of(p) =~= rest.push((36 - p.len()) as u64));
        } else {
            assert(floating_of(p) =~= rest);
        }
    }
}

/// Bitwise-or with zero changes nothing.
pub proof fn lemma_u64_or_zero(x: u64)
    ensures
        x | 0u64 == x,
{
    assert(x | 0u64 == x) by (bit_vector);
}

/// The bit of `m` at position `pos`, as 0 or 1.
pub open spec fn bit_of(m: u64, pos: u64) -> u64 {
    (m >> pos) & 1
}

/// Setting one bit changes exactly that position.
proof fn lemma_or_bit(x: u64, q: u64, pos: u64)
    requires
        q < 64,
        pos < 64,
    ensures
        ((x | (1u64 << q)) >> pos) & 1 == (if pos == q {
            1u64
        } else {
            (x >> pos) & 1
        }),
{
    assert(((x | (1u64 << q)) >> pos) & 1 == (if pos == q {
        1u64
    } else {
        (x >> pos) & 1
    })) by (bit_vector)
        requires
            q < 64,
            pos < 64,
    ;
}

/// Where each bit of the two value masks of a pattern prefix comes from:
/// symbol `i` governs bit `35 - i`, and positions below the prefix's reach
/// are still clear.
proof fn lemma_mask_prefix_bits(p: Seq<MaskBit>)
    requires
        p.len() <= 36,
    ensures
        forall|i: int|
            0 <= i < p.len() ==> bit_of(true_mask_of(p), (35 - i) as u64) == (if p[i] is One {
                1u64
            } else {
                0u64
            }),
        forall|i: int|
            0 <= i < p.len() ==> bit_of(false_mask_of(p), (35 - i) as u64) == (if p[i] is Zero {
                1u64
            } else {
                0u64
            }),
        forall|pos: u64| pos < 36 - p.len() ==> bit_of(true_mask_of(p), pos) == 0,
        forall|pos: u64| pos < 36 - p.len() ==> bit_of(false_mask_of(p), pos) == 0,
    decreases p.len(),
{
    if p.len() == 0 {
        assert forall|pos: u64| pos < 36 implies bit_of(0u64, pos) == 0 by {
            assert((0u64 >> pos) & 1 == 0) by (bit_vector);
        }
    } else {
        lemma_mask_prefix_bits(p.drop_last());
        let q = (36 - p.len()) as u64;
        let t0 = true_mask_of(p.drop_last());
        let f0 = false_mask_of(p.drop_last());
        assert forall|pos: u64| pos < 64 implies ((t0 | (1u64 << q)) >> pos) & 1 == (if pos == q {
            1u64
        } else {
            (t0 >> pos) & 1
        }) by {
            lemma_or_bit(t0, q, pos);
        }
        assert forall|pos: u64| pos < 64 implies ((f0 | (1u64 << q)) >> pos) & 1 == (if pos == q {
            1u64
        } else {
            (f0 >> pos) & 1
        }) by {
            lemma_or_bit(f0, q, pos);
        }
        lemma_u64_or_zero(t0);
        lemma_u64_or_zero(f0);
        assert(p.drop_last().len() == p.len() - 1);
        assert forall|pos: u64| pos < 36 - p.len() implies bit_of(true_mask_of(p), pos) == 0 by {
            if p.last() is One {
                lemma_or_bit(t0, q, pos);
            }
            assert(bit_of(t0, pos) == 0);
        }
        assert forall|pos: u64| pos < 36 - p.len() implies bit_of(false_mask_of(p), pos) == 0 by {
            if p.last() is Zero {
                lemma_or_bit(f0, q, pos);
            }
            assert(bit_of(f0, pos) == 0);
        }
        assert forall|i: int| 0 <= i < p.len() implies bit_of(true_mask_of(p), (35 - i) as u64)
            == (if p[i] is One {
            1u64
        } else {
            0u64
        }) by {
            if i < p.len() - 1 {
                assert(p.drop_last()[i] == p[i]);
                assert((35 - i) as u64 != q);
            } else {
                assert(p.last() == p[i]);
                assert((35 - i) as u64 == q);
                assert(bit_of(t0, q) == 0);
            }
        }
        assert forall|i: int| 0 <= i < p.len() implies bit_of(false_mask_of(p), (35 - i) as u64)
            == (if p[i] is Zero {
            1u64
        } else {
            0u64
        }) by {
            if i < p.len() - 1 {
                assert(p.drop_last()[i] == p[i]);
                assert((35 - i) as u64 != q);
            } else {
                assert(p.last() == p[i]);
                assert((35 - i) as u64 == q);
                assert(bit_of(f0, q) == 0);
            }
        }
    }
}

/// The floating list of a pattern prefix holds exactly the positions of its
/// `Floating` symbols.
proof fn lemma_floating_contains(p: Seq<MaskBit>)
    requires
        p.len() <= 36,
    ensures
        forall|i: int|
            0 <= i < p.len() ==> (floating_of(p).contains((35 - i) as u64) <==> p[i] is Floating),
    decreases p.len(),
{
    if p.len() > 0 {
        lemma_floating_contains(p.drop_last());
        lemma_floating_of_wf(p.drop_last());
        let rest = floating_of(p.drop_last());
        let q = (36 - p.len()) as u64;
        if p.last() is Floating {
            let fl = rest.push(q);
            assert(floating_of(p) =~= fl);
            assert forall|i: int| 0 <= i < p.len() implies (fl.contains((35 - i) as u64)
                <==> p[i] is Floating) by {
                if i == p.len() - 1 {
                    assert(fl[rest.len() as int] == q);
                    assert(fl.contains(q));
                } else {
                    assert(p.drop_last()[i] == p[i]);
                    if p[i] is Floating {
                        let k = choose|k: int|
                            0 <= k < rest.len() && rest[k] == (35 - i) as u64;
                        assert(fl[k] == (35 - i) as u64);
                        assert(fl.contains((35 - i) as u64));
                    } else {
                        if fl.contains((35 - i) as u64) {
                            let k = choose|k: int|
                                0 <= k < fl.len() && fl[k] == (35 - i) as u64;
                            if k < rest.len() {
                                assert(rest[k] == (35 - i) as u64);
                                assert(rest.contains((35 - i) as u64));
                            } else {
                                assert(fl[k] == q);
                            }
                        }
                    }
                }
            }
        } else {
            assert(floating_of(p) =~= rest);
            assert forall|i: int| 0 <= i < p.len() implies (rest.contains((35 - i) as u64)
                <==> p[i] is Floating) by {
                if i == p.len() - 1 {
                    if rest.contains(q) {
                        let k = choose|k: int| 0 <= k < rest.len() && rest[k] == q;
                        assert(rest[k] >= 36 - p.drop_last().len());
                    }
                } else {
                    assert(p.drop_last()[i] == p[i]);
                }
            }
        }
    }
}

/// Law: a mask pattern's symbol at index `i` (counted from the left)
/// governs exactly bit `35 - i`: that bit is set in the forced-on mask when
/// the symbol is `'1'`, set in the forced-off mask when it is `'0'`, and the
/// position floats when it is `'X'`.
pub proof fn lemma_pattern_positions(bits: Seq<MaskBit>)
    requires
        bits.len() == 36,
    ensures
        forall|i: int|
            0 <= i < 36 ==> bit_of(true_mask_of(bits), (35 - i) as u64) == (if bits[i] is One {
                1u64
            } else {
                0u64
            }),
        forall|i: int|
            0 <= i < 36 ==> bit_of(false_mask_of(bits), (35 - i) as u64) == (if bits[i] is Zero {
                1u64
            } else {
                0u64
            }),
        forall|i: int|
            0 <= i < 36 ==> (floating_of(bits).contains((35 - i) as u64) <==> bits[i] is Floating),
{
    lemma_mask_prefix_bits(bits);
    lemma_floating_contains(bits);
}

impl MaskPattern {
    /// A pattern is well formed when it holds exactly 36 symbols.
    pub open spec fn wf(&self) -> bool {
        self@.len() == 36
    }

    /// The two value masks of the first decoder: bits forced on and bits
    /// forced off.
    pub fn part1_masks(&self) -> (r: (u64, u64))
        requires
            self.wf(),
        ensures
            r.0 == true_mask_of(self@),
            r.1 == false_mask_of(self@),
    {
        let mut true_mask: u64 = 0;
        let mut false_mask: u64 = 0;
        let mut i: usize = 0;
        while i < 36
            invariant
                self.wf(),
                i <= 36,
                true_mask == true_mask_of(self@.take(i as int)),
                false_mask == false_mask_of(self@.take(i as int)),
            decreases 36 - i,
        {
            proof {
                assert(self@.take(i + 1).drop_last() =~= self@.take(i as int));
                assert(self@.take(i + 1).last() == self@[i as int]);
            }
            match self.bits[i] {
                MaskBit::One => {
                    true_mask = true_mask | (1u64 << (35 - i) as u64);
                    proof {
                        lemma_u64_or_zero(false_mask);
                    }
                },
                MaskBit::Zero => {
                    false_mask = false_mask | (1u64 << (35 - i) as u64);
                    proof {
                        lemma_u64_or_zero(true_mask);
                    }
                },
                MaskBit::Floating => {
                    proof {
                        lemma_u64_or_zero(true_mask);
                        lemma_u64_or_zero(false_mask);
                    }
                },
            }
            i = i + 1;
        }
        proof {
            assert(self@.take(36) =~= self@);
        }
        (true_mask, false_mask)
    }

    /// The mask of the second decoder: bits forced on, and the floating bit
    /// positions in pattern order.
    pub fn part2_masks(&self) -> (r: (u64, Vec<u64>))
        requires
            self.wf(),
        ensures
            r.0 == true_mask_of(self@),
            r.1@ == floating_of(self@),
    {
        let mut true_mask: u64 = 0;
        let mut floating: Vec<u64> = Vec::new();
        let mut i: usize = 0;
        while i < 36
            invariant
                self.wf(),
                i <= 36,
                true_mask == true_mask_of(self@.take(i as int)),
                floating@ == floating_of(self@.take(i as int)),
            decreases 36 - i,
        {
            proof {
                assert(self@.take(i + 1).drop_last() =~= self@.take(i as int));
                assert(self@.take(i + 1).last() == self@[i as int]);
            }
            match self.bits[i] {
                MaskBit::One => {
                    true_mask = true_mask | (1u64 << (35 - i) as u64);
                    proof {
                        assert(floating_of(self@.take(i + 1)) =~= floating@);
                    }
                },
                MaskBit::Zero => {
                    proof {
                        lemma_u64_or_zero(true_mask);
                        assert(floating_of(self@.take(i + 1)) =~= floating@);
                    }
                },
                MaskBit::Floating => {
                    floating.push((35 - i) as u64);
                    proof {
                        lemma_u64_or_zero(true_mask);
                        assert(floating_of(self@.take(i + 1)) =~= floating@);
                    }
                },
            }
            i = i + 1;
        }
        proof {
            assert(self@.take(36) =~= self@);
        }
        (true_mask, floating)
    }
}

} // verus!
