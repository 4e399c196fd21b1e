//! A set of indices below 64, kept in one machine word.

use vstd::prelude::*;
use crate::words::{
    binary_digits, count_bits, greatest, has_bit, is_subword, lemma_bit_ops, lemma_count_bound,
    lemma_count_members, lemma_empty_word, lemma_greatest, lemma_insert_word, lemma_low_word,
    lemma_members_injective, lemma_minus_word, lemma_next_subword, lemma_remove_word,
    lemma_single_word, lemma_subset_word, lemma_take_bit, lemma_union_word, lemma_witness,
    lemma_word_order, members, members_below, subwords, words_below,
};

verus! {

/// A subset of the indices `0..64`. Bit `i` of the word is one exactly when
/// `i` is a member, so the word is also a dense key for tables indexed by
/// subsets.
#[derive(Copy, Clone, Debug)]
pub struct BitSet64(pub u64);

impl View for BitSet64 {
    type V = Set<nat>;

    open spec fn view(&self) -> Set<nat> {
        members(self.0)
    }
}

/// `u64::count_ones`: the number of ones in the binary representation, that
/// is, among the 64 bits of the word.
pub assume_specification[ u64::count_ones ](v: u64) -> (r: u32)
    ensures
        r == count_bits(v, 64),
;

/// `format!` with `{:b}`: the word as a binary numeral.
#[verifier::external_body]
fn format_binary(v: u64) -> (s: String)
    ensures
        s@ == binary_digits(v),
{
    format!("{:b}", v)
}

impl BitSet64 {
    /// The set with no member.
    pub fn empty_set() -> (r: BitSet64)
        ensures
            r.0 == 0,
            r@ == Set::<nat>::empty(),
    {
        proof {
            lemma_empty_word();
        }
        BitSet64(0)
    }

    /// The set of all indices below `n`.
    pub fn full_set(n: u64) -> (r: BitSet64)
        requires
            n < 64,
        ensures
            r.0 == (1u64 << n) - 1,
            r@ == Set::new(|i: nat| i < n),
    {
        proof {
            lemma_low_word(n);
        }
        BitSet64((1u64 << n) - 1)
    }

    /// The set that holds `x` alone.
    pub fn singleton(x: u64) -> (r: BitSet64)
        requires
            x < 64,
        ensures
            r.0 == 1u64 << x,
            r@ == set![x as nat],
    {
        proof {
            lemma_single_word(x);
        }
        BitSet64(1u64 << x)
    }

    /// The set with `idx` added.
    pub fn insert(&self, idx: u64) -> (r: BitSet64)
        requires
            idx < 64,
        ensures
            r.0 == self.0 | (1u64 << idx),
            r@ == self@.insert(idx as nat),
    {
        proof {
            lemma_insert_word(self.0, idx);
        }
        BitSet64(self.0 | 1u64 << idx)
    }

    /// The set with `idx` taken out.
    pub fn remove(&self, idx: u64) -> (r: BitSet64)
        requires
            idx < 64,
        ensures
            r.0 == self.0 & !(1u64 << idx),
            r@ == self@.remove(idx as nat),
    {
        proof {
            lemma_remove_word(self.0, idx);
        }
        BitSet64(self.0 & !(1u64 << idx))
    }

    /// The set in which `idx` is a member exactly when it is none of `self`.
    pub fn toggle(&self, idx: u64) -> (r: BitSet64)
        requires
            idx < 64,
        ensures
            r.0 == self.0 ^ (1u64 << idx),
            r@ == if self@.contains(idx as nat) {
                self@.remove(idx as nat)
            } else {
                self@.insert(idx as nat)
            },
    {
        let r = BitSet64(self.0 ^ (1u64 << idx));
        proof {
            assert forall|i: nat| r@.contains(i) == (self@.contains(i) != (i == idx)) by {
                if i < 64 {
                    lemma_bit_ops(self.0, 1u64 << idx, idx, i as u64);
                }
            }
            if self@.contains(idx as nat) {
                assert(r@ =~= self@.remove(idx as nat));
            } else {
                assert(r@ =~= self@.insert(idx as nat));
            }
        }
        r
    }

    /// The members of either set.
    pub fn union(&self, other: BitSet64) -> (r: BitSet64)
        ensures
            r.0 == self.0 | other.0,
            r@ == self@.union(other@),
    {
        proof {
            lemma_union_word(self.0, other.0);
        }
        BitSet64(self.0 | other.0)
    }

    /// The members of `self` that are none of `other`.
    pub fn minus(&self, other: BitSet64) -> (r: BitSet64)
        ensures
            r.0 == self.0 & !other.0,
            r@ == self@.difference(other@),
    {
        proof {
            lemma_minus_word(self.0, other.0);
        }
        BitSet64(self.0 & !other.0)
    }

    /// Whether `idx` is a member.
    pub fn contains(&self, idx: u64) -> (r: bool)
        requires
            idx < 64,
        ensures
            r == self@.contains(idx as nat),
    {
        proof {
            lemma_bit_ops(self.0, 0, idx, idx);
        }
        self.0 & (1u64 << idx) != 0
    }

    /// The least member, if there is any.
    pub fn min(&self) -> (r: Option<u64>)
        ensures
            r is None <==> self@ == Set::<nat>::empty(),
            r is None <==> self.0 == 0,
            r matches Some(m) ==> m < 64 && self@.contains(m as nat) && forall|i: nat|
                self@.contains(i) ==> m <= i,
    {
        if self.0 == 0 {
            proof {
                lemma_empty_word();
            }
            None
        } else {
            let m = self.0.trailing_zeros() as u64;
            proof {
                lemma_witness(self.0);
                assert(self@.contains(m as nat));
                assert forall|i: nat| self@.contains(i) implies m <= i by {
                    if i < m {
                        assert(!has_bit(self.0, i as u64));
                    }
                }
            }
            Some(m)
        }
    }

    /// The greatest member, if there is any.
    pub fn max(&self) -> (r: Option<u64>)
        ensures
            r is None <==> self@ == Set::<nat>::empty(),
            r is None <==> self.0 == 0,
            r matches Some(m) ==> m < 64 && m == greatest(self.0) && self@.contains(m as nat)
                && forall|i: nat| self@.contains(i) ==> i <= m,
    {
        if self.0 == 0 {
            proof {
                lemma_empty_word();
            }
            None
        } else {
            proof {
                lemma_greatest(self.0);
            }
            let zeros = self.0.leading_zeros() as u64;
            Some(63 - zeros)
        }
    }

    /// Takes the greatest member out of the set and returns it, if there is
    /// any.
    pub fn take_max(&mut self) -> (r: Option<u64>)
        ensures
            r is None <==> old(self)@ == Set::<nat>::empty(),
            r is None <==> old(self).0 == 0,
            r is None ==> *final(self) == *old(self),
            r matches Some(m) ==> m < 64 && m == greatest(old(self).0) && old(self)@.contains(
                m as nat,
            ) && (forall|i: nat|
                old(self)@.contains(i) ==> i <= m) && final(self)@ == old(self)@.remove(m as nat)
                && final(self).0 < old(self).0,
    {
        match self.max() {
            None => None,
            Some(max) => {
                proof {
                    lemma_take_bit(self.0, max);
                }
                *self = self.remove(max);
                Some(max)
            },
        }
    }

    /// The number of members.
    pub fn size(&self) -> (r: u32)
        ensures
            self@.finite(),
            r == self@.len(),
            r <= 64,
    {
        proof {
            lemma_count_members(self.0, 64);
            assert(members_below(self.0, 64) =~= self@);
            lemma_count_bound(self.0, 64);
        }
        self.0.count_ones()
    }

    /// Walks over every subset of the indices below `n`, as words in
    /// ascending order: a set comes after each of its proper subsets.
    pub fn enumerate(n: u64) -> (r: Enumerate)
        requires
            n < 64,
        ensures
            r.remaining() == words_below(1u64 << n),
    {
        let full = BitSet64::full_set(n);
        let r = Enumerate { cur: 0, end: full.0 + 1 };
        assert(r.remaining() =~= words_below(1u64 << n));
        r
    }

    /// Walks over the members, in ascending order.
    pub fn elements(&self) -> (r: Elements)
        ensures
            r.remaining() == self@,
    {
        let r = match (self.min(), self.max()) {
            (Some(min), Some(max)) => Elements { set: *self, cur: min, max: max, done: false },
            _ => Elements { set: *self, cur: 0, max: 0, done: true },
        };
        assert(r.remaining() =~= self@);
        r
    }

    /// Walks over every subset, the empty set first and the set itself last.
    pub fn subsets(&self) -> (r: Subsets)
        ensures
            r.remaining() == subwords(self.0),
    {
        proof {
            lemma_empty_word();
            lemma_subset_word(0, self.0);
        }
        let r = Subsets { set: *self, cur: BitSet64::empty_set(), done: false };
        assert(r.remaining() =~= subwords(self.0));
        r
    }

    /// The set as a binary numeral: the digit of the greatest member first.
    pub fn to_string(&self) -> (s: String)
        ensures
            s@ == binary_digits(self.0),
    {
        format_binary(self.0)
    }
}

/// A set with `x` put in holds `x`, and where it did not hold `x` before,
/// taking `x` out again gives the first set back.
pub proof fn lemma_insert_round_trip(s: BitSet64, x: u64)
    requires
        x < 64,
    ensures
        BitSet64(s.0 | (1u64 << x))@.contains(x as nat),
        !s@.contains(x as nat) ==> BitSet64((s.0 | (1u64 << x)) & !(1u64 << x)) == s,
{
    lemma_insert_word(s.0, x);
    lemma_remove_word(s.0 | (1u64 << x), x);
    if !s@.contains(x as nat) {
        assert(members((s.0 | (1u64 << x)) & !(1u64 << x)) =~= members(s.0));
        lemma_members_injective((s.0 | (1u64 << x)) & !(1u64 << x), s.0);
    }
}

/// The walk over all words below a bound, in ascending order.
pub struct Enumerate {
    cur: u64,
    end: u64,
}

impl Enumerate {
    #[verifier::type_invariant]
    spec fn inv(self) -> bool {
        self.cur <= self.end
    }

    /// The words that the walk has still to yield.
    pub closed spec fn remaining(&self) -> Set<u64> {
        Set::new(|v: u64| self.cur <= v < self.end)
    }

    /// Yields the least word that remains, if any remains.
    pub fn next(&mut self) -> (r: Option<BitSet64>)
        ensures
            r is None <==> old(self).remaining() == Set::<u64>::empty(),
            r is None ==> final(self).remaining() == old(self).remaining(),
            r matches Some(b) ==> old(self).remaining().contains(b.0) && (forall|v: u64|
                old(self).remaining().contains(v) ==> b.0 <= v) && final(self).remaining() == old(
                self,
            ).remaining().remove(b.0),
    {
        proof {
            use_type_invariant(&*self);
        }
        if self.cur < self.end {
            let v = self.cur;
            self.cur = v + 1;
            assert(self.remaining() =~= old(self).remaining().remove(v));
            Some(BitSet64(v))
        } else {
            assert(self.remaining() =~= Set::<u64>::empty());
            None
        }
    }
}

/// The walk over the members of a set, in ascending order.
pub struct Elements {
    set: BitSet64,
    cur: u64,
    max: u64,
    done: bool,
}

impl Elements {
    #[verifier::type_invariant]
    spec fn inv(self) -> bool {
        !self.done ==> {
            &&& self.cur <= self.max < 64
            &&& self.set@.contains(self.cur as nat)
            &&& self.set@.contains(self.max as nat)
            &&& forall|i: nat| self.set@.contains(i) ==> i <= self.max
        }
    }

    /// The members that the walk has still to yield.
    pub closed spec fn remaining(&self) -> Set<nat> {
        if self.done {
            Set::empty()
        } else {
            Set::new(|i: nat| self.set@.contains(i) && i >= self.cur)
        }
    }

    /// Yields the least member that remains, if any remains.
    pub fn next(&mut self) -> (r: Option<u64>)
        ensures
            r is None <==> old(self).remaining() == Set::<nat>::empty(),
            r is None ==> final(self).remaining() == old(self).remaining(),
            r matches Some(x) ==> x < 64 && old(self).remaining().contains(x as nat) && (forall|
                i: nat,
            |
                old(self).remaining().contains(i) ==> x <= i) && final(self).remaining() == old(
                self,
            ).remaining().remove(x as nat),
    {
        proof {
            use_type_invariant(&*self);
        }
        if self.done {
            return None;
        }
        let ret = self.cur;
        if self.cur == self.max {
            self.done = true;
            assert(old(self).remaining() =~= set![ret as nat]);
            assert(self.remaining() =~= old(self).remaining().remove(ret as nat));
        } else {
            let rest = self.set.minus(BitSet64::full_set(ret + 1));
            assert(rest@.contains(self.max as nat));
            proof {
                assert(rest.0 != 0) by {
                    if rest.0 == 0 {
                        lemma_bit_ops(0, 0, 0, self.max);
                    }
                }
                let w = lemma_witness(rest.0);
                assert(rest@.contains(w as nat));
                assert forall|i: nat| rest@.contains(i) implies w <= i by {
                    if i < w {
                        assert(!has_bit(rest.0, i as u64));
                    }
                }
            }
            let next = rest.0.trailing_zeros() as u64;
            self.cur = next;
            proof {
                assert forall|i: nat| self.set@.contains(i) && i > ret implies next <= i by {
                    assert(rest@.contains(i));
                }
                assert(self.remaining() =~= old(self).remaining().remove(ret as nat));
            }
        }
        Some(ret)
    }
}

/// The walk over the subsets of a set, as words in ascending order.
pub struct Subsets {
    set: BitSet64,
    cur: BitSet64,
    done: bool,
}

impl Subsets {
    #[verifier::type_invariant]
    spec fn inv(self) -> bool {
        !self.done ==> is_subword(self.cur.0, self.set.0)
    }

    /// The words that the walk has still to yield.
    pub closed spec fn remaining(&self) -> Set<u64> {
        if self.done {
            Set::empty()
        } else {
            Set::new(|t: u64| is_subword(t, self.set.0) && t >= self.cur.0)
        }
    }

    /// Yields the least subset that remains, if any remains.
    pub fn next(&mut self) -> (r: Option<BitSet64>)
        ensures
            r is None <==> old(self).remaining() == Set::<u64>::empty(),
            r is None ==> final(self).remaining() == old(self).remaining(),
            r matches Some(b) ==> old(self).remaining().contains(b.0) && (forall|t: u64|
                old(self).remaining().contains(t) ==> b.0 <= t) && final(self).remaining() == old(
                self,
            ).remaining().remove(b.0),
    {
        proof {
            use_type_invariant(&*self);
        }
        if self.done {
            return None;
        }
        let ret = self.cur;
        let set = self.set;
        proof {
            lemma_word_order(ret.0, set.0, 0);
        }
        if ret.0 == set.0 {
            self.done = true;
            proof {
                assert forall|t: u64| old(self).remaining().contains(t) implies t == ret.0 by {
                    lemma_word_order(t, set.0, 0);
                }
                assert(old(self).remaining() =~= set![ret.0]);
                assert(self.remaining() =~= old(self).remaining().remove(ret.0));
            }
        } else {
            let next = BitSet64(set.0 & ret.0.wrapping_sub(set.0));
            proof {
                let d = ret.0.wrapping_sub(set.0);
                lemma_next_subword(set.0, ret.0, d, 0);
                assert forall|t: u64| is_subword(t, set.0) && ret.0 < t implies next.0 <= t by {
                    lemma_next_subword(set.0, ret.0, d, t);
                }
            }
            self.cur = next;
            assert(self.remaining() =~= old(self).remaining().remove(ret.0));
        }
        assert(old(self).remaining().contains(ret.0));
        Some(ret)
    }
}

} // verus!
