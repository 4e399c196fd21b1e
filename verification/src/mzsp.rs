//! Splitting a list of signed values into as many zero-sum blocks as
//! possible, by dynamic programming over all subsets of the positions.

use vstd::prelude::*;
use crate::bitset::BitSet64;
use crate::partition::{
    blocks_of, covers, entry_ok, lemma_rest, top_first, is_candidate, is_greatest_split, is_zero_sum_family,
    is_zero_sum_partition, lemma_candidate_join, lemma_candidate_shrinks, lemma_candidate_split,
    lemma_count_is_greatest, lemma_picked_gap, lemma_sum_bound, lemma_sum_empty, lemma_sum_insert,
    lemma_tables_extend, lemma_top, lemma_walk, lemma_walk_covers, picked, positions, subset_sum,
    tables_ok, word_ok,
};
use crate::words::{
    greatest, is_subword, lemma_below_word, lemma_empty_word, lemma_insert_word, lemma_low_word,
    lemma_members_injective, lemma_minus_word, lemma_subset_word, members, members_from,
    words_between,
};

verus! {

/// The two tables of the dynamic program, each indexed by the word of a
/// subset of the positions: the sum of the subset's values, and the greatest
/// number of zero-sum blocks into which the subset can be split, with the
/// block that holds the subset's greatest position.
pub struct MemoTables {
    mzsp_table: Vec<(usize, BitSet64)>,
    sum_table: Vec<i128>,
}

impl MemoTables {
    /// The table of counts and blocks.
    pub closed spec fn entries(&self) -> Seq<(usize, BitSet64)> {
        self.mzsp_table@
    }

    /// The table of sums.
    pub closed spec fn sums(&self) -> Seq<i128> {
        self.sum_table@
    }

    /// The tables are those of `values`: they hold every subset of the
    /// positions of `values`, and hold of each what they must.
    pub open spec fn wf(&self, values: Seq<isize>) -> bool {
        &&& values.len() < 64
        &&& self.entries().len() == (1u64 << (values.len() as u64))
        &&& self.sums().len() == (1u64 << (values.len() as u64))
        &&& tables_ok(values, self.entries(), self.sums(), self.entries().len() as int)
    }

    /// Fills both tables for `values`, word by word in ascending order, so
    /// that every subset finds the entries of its proper subsets.
    #[verifier::rlimit(50)]
    pub fn new(values: &[isize]) -> (tables: MemoTables)
        requires
            values.len() < 64,
        ensures
            tables.wf(values@),
    {
        let mut tables = MemoTables { mzsp_table: Vec::new(), sum_table: Vec::new() };
        let n = values.len() as u64;
        let mut it = BitSet64::enumerate(n);
        let mut done = false;
        let ghost mut len: u64 = 0;
        proof {
            lemma_low_word(n);
        }
        while !done
            invariant
                n == values.len(),
                n < 64,
                tables.mzsp_table@.len() == len,
                tables.sum_table@.len() == len,
                len <= (1u64 << n),
                !done ==> it.remaining() == words_between(len, 1u64 << n),
                done ==> len == (1u64 << n),
                tables_ok(values@, tables.entries(), tables.sums(), len as int),
            decreases
                    (if done {
                        0
                    } else {
                        (1u64 << n) + 1 - len
                    }),
        {
            match it.next() {
                None => {
                    proof {
                        if len < (1u64 << n) {
                            assert(words_between(len, 1u64 << n).contains(len));
                        }
                    }
                    done = true;
                },
                Some(word) => {
                    let mut set = word;
                    proof {
                        assert(words_between(len, 1u64 << n).contains(word.0));
                        assert(words_between(len, 1u64 << n).contains(len));
                        assert(word.0 == len);
                        lemma_below_word(word.0, n);
                    }
                    match set.take_max() {
                        None => {
                            proof {
                                lemma_empty_word();
                                lemma_sum_empty(values@, values@.len());
                                lemma_tables_extend(
                                    values@,
                                    tables.entries(),
                                    tables.sums(),
                                    len,
                                    (0usize, BitSet64(0)),
                                    0i128,
                                );
                            }
                            tables.sum_table.push(0);
                            tables.mzsp_table.push((0, BitSet64::empty_set()));
                        },
                        Some(max) => {
                            proof {
                                assert(word@.contains(max as nat));
                                assert(set@ == members(set.0));
                                lemma_sum_bound(values@, set@, values@.len());
                                lemma_sum_insert(values@, set@, max as nat, values@.len());
                                assert(word@ =~= set@.insert(max as nat));
                                lemma_insert_word(set.0, max);
                                lemma_members_injective(set.0 | (1u64 << max), word.0);
                                assert(word_ok(values@, tables.entries(), tables.sums(), set.0));
                            }
                            let sum = values[max as usize] as i128 + tables.get_sum(set);
                            let mzsp = max_zero_sum_partitions(&tables, values, set, max);
                            proof {
                                lemma_tables_extend(
                                    values@,
                                    tables.entries(),
                                    tables.sums(),
                                    len,
                                    mzsp,
                                    sum,
                                );
                            }
                            tables.sum_table.push(sum);
                            tables.mzsp_table.push(mzsp);
                        },
                    }
                    proof {
                        len = (len + 1) as u64;
                        assert(it.remaining() =~= words_between(len, 1u64 << n));
                    }
                },
            }
        }
        tables
    }

    /// The count and the block of a subset. A word that is the place of an
    /// entry is below the greatest length that a table can have.
    pub fn get_mzsp(&self, subset: BitSet64) -> (r: (usize, BitSet64))
        requires
            subset.0 < self.entries().len(),
        ensures
            r == self.entries()[subset.0 as int],
            subset.0 < usize::MAX,
    {
        assert(self.mzsp_table@.len() == self.mzsp_table.len());
        self.mzsp_table[subset.0 as usize]
    }

    /// The sum of the values of a subset.
    pub fn get_sum(&self, subset: BitSet64) -> (r: i128)
        requires
            subset.0 < self.sums().len(),
        ensures
            r == self.sums()[subset.0 as int],
    {
        assert(self.sum_table@.len() == self.sum_table.len());
        self.sum_table[subset.0 as usize]
    }
}

/// The entry of the set `set` with `x` added, where `x` is above every
/// member of `set`: the greatest number of zero-sum blocks that the tables
/// reach for it, and the block among them that holds `x`.
#[verifier::rlimit(50)]
pub fn max_zero_sum_partitions(memo: &MemoTables, values: &[isize], set: BitSet64, x: u64) -> (r: (
    usize,
    BitSet64,
))
    requires
        x < 64,
        x < values.len(),
        forall|i: nat| set@.contains(i) ==> i < x,
        tables_ok(values@, memo.entries(), memo.sums(), set.0 + 1),
    ensures
        entry_ok(values@, memo.entries(), set.0 | (1u64 << x), r),
        r.0 == 0 ==> r.1.0 == 1u64 << x,
        r.1.0 != 0,
{
    let mut best: (usize, BitSet64) = (0, BitSet64::empty_set());
    let neg_val: i128 = -(values[x as usize] as i128);
    let mut it = set.subsets();
    let ghost entries = memo.entries();
    let ghost mut lo: int = 0;
    let mut done = false;
    while !done
        invariant
            x < 64,
            x < values.len(),
            forall|i: nat| set@.contains(i) ==> i < x,
            entries == memo.entries(),
            tables_ok(values@, entries, memo.sums(), set.0 + 1),
            neg_val == -values@[x as int],
            0 <= lo <= set.0 + 1,
            forall|t: u64| it.remaining().contains(t) ==> #[trigger] is_subword(t, set.0) && t >= lo,
            done ==> it.remaining() == Set::<u64>::empty(),
            forall|t: u64|
                #[trigger] is_subword(t, set.0) && !it.remaining().contains(t) && subset_sum(
                    values@,
                    members(t),
                ) == neg_val ==> best.0 >= entries[(set.0 & !t) as int].0 + 1,
            best.0 <= set.0 + 1,
            best.0 == 0 ==> best.1.0 == 0,
            best.0 > 0 ==> is_subword(best.1.0, set.0) && subset_sum(values@, members(best.1.0))
                == neg_val && best.0 == entries[(set.0 & !best.1.0) as int].0 + 1,
        decreases
                (if done {
                    0
                } else {
                    set.0 + 2 - lo
                }),
    {
        match it.next() {
            None => {
                done = true;
            },
            Some(i) => {
                proof {
                    assert(is_subword(i.0, set.0));
                    lemma_subset_word(i.0, set.0);
                    lemma_minus_word(set.0, i.0);
                    lemma_subset_word(set.0 & !i.0, set.0);
                    assert(word_ok(values@, entries, memo.sums(), i.0));
                    assert(word_ok(values@, entries, memo.sums(), set.0 & !i.0));
                    lo = i.0 + 1;
                }
                if memo.get_sum(i) == neg_val {
                    let remainder = set.minus(i);
                    let rem_mzsp = memo.get_mzsp(remainder);
                    if rem_mzsp.0 >= best.0 {
                        best = (rem_mzsp.0 + 1, i);
                    }
                }
            },
        }
    }
    proof {
        let whole = set.0 | (1u64 << x);
        let b = best.1.0 | (1u64 << x);
        assert(set@ == members(set.0));
        lemma_top(set.0, x);
        assert forall|c: u64| #[trigger] is_candidate(values@, c, whole) implies best.0
            >= entries[(whole & !c) as int].0 + 1 by {
            lemma_candidate_split(values@, set.0, x, c);
            let t = c & !(1u64 << x);
            assert(is_subword(t, set.0));
        }
        if best.0 > 0 {
            lemma_candidate_join(values@, set.0, x, best.1.0);
        }
        lemma_insert_word(best.1.0, x);
        assert(0u64 | (1u64 << x) == 1u64 << x) by (bit_vector);
        assert(whole != 0) by {
            if whole == 0 {
                lemma_empty_word();
            }
        }
        if b == 0 {
            lemma_empty_word();
            assert(members(b).contains(x as nat));
        }
    }
    (best.0, best.1.insert(x))
}

/// The walk over the blocks of a greatest split of a list of values. Each
/// block is yielded once; to walk again, compute again.
pub struct MZSP {
    memo: MemoTables,
    remainder: BitSet64,
    values: Ghost<Seq<isize>>,
}

impl MZSP {
    #[verifier::type_invariant]
    spec fn inv(self) -> bool {
        &&& self.memo.wf(self.values@)
        &&& self.remainder.0 < self.memo.entries().len()
    }

    /// The blocks that the walk has still to yield, in order.
    pub closed spec fn blocks(&self) -> Seq<BitSet64> {
        blocks_of(self.memo.entries(), self.remainder.0)
    }

    /// The positions that the blocks yielded so far have left.
    pub closed spec fn remainder(&self) -> BitSet64 {
        self.remainder
    }

    /// The values that the walk splits.
    pub closed spec fn values(&self) -> Seq<isize> {
        self.values@
    }

    /// The blocks still to come split the positions left: they are zero-sum
    /// blocks of them, each holds the greatest position that the blocks
    /// before it leave, and where the values at the positions left sum to
    /// zero, they leave none over.
    pub open spec fn rest_is_split(&self) -> bool {
        &&& is_zero_sum_family(self.values(), self.blocks(), self.remainder())
        &&& top_first(self.blocks(), self.remainder().0)
        &&& subset_sum(self.values(), self.remainder()@) == 0 ==> covers(
            self.blocks(),
            self.remainder(),
        )
    }

    /// Finds a greatest split of `values` into zero-sum blocks. The walk
    /// starts with all positions left.
    pub fn compute(values: &[isize]) -> (r: MZSP)
        requires
            values.len() < 64,
        ensures
            is_greatest_split(values@, r.blocks()),
            r.remainder() == positions(values@),
            r.values() == values@,
            r.rest_is_split(),
    {
        let memo = MemoTables::new(values);
        let set = BitSet64::full_set(values.len() as u64);
        proof {
            let n = values.len() as u64;
            lemma_low_word(n);
            assert(set == positions(values@));
            let entries = memo.entries();
            let sums = memo.sums();
            lemma_walk(values@, entries, sums, set.0);
            if subset_sum(values@, set@) == 0 {
                lemma_walk_covers(values@, entries, sums, set.0);
            }
            assert forall|q: Seq<BitSet64>| #[trigger]
                is_zero_sum_partition(values@, q, set) implies q.len() <= blocks_of(
                entries,
                set.0,
            ).len() by {
                lemma_count_is_greatest(values@, entries, sums, set.0, q);
            }
        }
        MZSP { memo: memo, remainder: set, values: Ghost(values@) }
    }

    /// How many blocks the walk has still to yield.
    pub fn len(&self) -> (r: usize)
        ensures
            r == self.blocks().len(),
    {
        proof {
            use_type_invariant(self);
            lemma_walk(
                self.values@,
                self.memo.entries(),
                self.memo.sums(),
                self.remainder.0,
            );
        }
        self.memo.get_mzsp(self.remainder).0
    }

    /// Yields the next block, if any remains: a block of the positions
    /// left that holds the greatest of them. The block leaves the positions
    /// left.
    pub fn next(&mut self) -> (r: Option<BitSet64>)
        ensures
            r is None <==> old(self).blocks().len() == 0,
            r is None ==> final(self).blocks() == old(self).blocks() && final(self).remainder()
                == old(self).remainder(),
            r matches Some(b) ==> b == old(self).blocks()[0] && final(self).blocks() == old(
                self,
            ).blocks().drop_first(),
            r matches Some(b) ==> b.0 != 0 && b@.subset_of(old(self).remainder()@) && b@.contains(
                greatest(old(self).remainder().0),
            ) && final(self).remainder() == BitSet64(old(self).remainder().0 & !b.0),
            final(self).values() == old(self).values(),
            final(self).rest_is_split(),
    {
        proof {
            use_type_invariant(&*self);
            assert(word_ok(
                self.values@,
                self.memo.entries(),
                self.memo.sums(),
                self.remainder.0,
            ));
        }
        let (count, block) = self.memo.get_mzsp(self.remainder);
        if count == 0 {
            proof {
                lemma_rest(self.values@, self.memo.entries(), self.memo.sums(), self.remainder.0);
            }
            None
        } else {
            proof {
                lemma_candidate_shrinks(self.values@, block.0, self.remainder.0);
                if block.0 == 0 {
                    lemma_empty_word();
                }
                let rest = blocks_of(self.memo.entries(), self.remainder.0 & !block.0);
                assert(self.blocks() == seq![block] + rest);
                assert((seq![block] + rest).drop_first() =~= rest);
            }
            self.remainder = self.remainder.minus(block);
            proof {
                lemma_rest(self.values@, self.memo.entries(), self.memo.sums(), self.remainder.0);
            }
            Some(block)
        }
    }
}

/// The values at the positions of `block`, in ascending order of the
/// position.
pub fn block_values(values: &[isize], block: BitSet64) -> (r: Vec<isize>)
    requires
        forall|i: nat| block@.contains(i) ==> i < values.len(),
    ensures
        r@ == picked(values@, block@, values@.len()),
{
    let mut out: Vec<isize> = Vec::new();
    let mut it = block.elements();
    let ghost mut lo: nat = 0;
    let mut done = false;
    while !done
        invariant
            forall|i: nat| block@.contains(i) ==> i < values.len(),
            lo <= values.len(),
            !done ==> it.remaining() == members_from(block@, lo),
            done ==> forall|i: nat| block@.contains(i) ==> i < lo,
            out@ == picked(values@, block@, lo),
        decreases
                (if done {
                    0
                } else {
                    values.len() + 1 - lo
                }),
    {
        match it.next() {
            None => {
                proof {
                    assert forall|i: nat| block@.contains(i) implies i < lo by {
                        if i >= lo {
                            assert(members_from(block@, lo).contains(i));
                        }
                    }
                }
                done = true;
            },
            Some(idx) => {
                proof {
                    assert(members_from(block@, lo).contains(idx as nat));
                    assert forall|i: nat| lo <= i < idx implies !block@.contains(i) by {
                        if block@.contains(i) {
                            assert(members_from(block@, lo).contains(i));
                        }
                    }
                    lemma_picked_gap(values@, block@, lo, idx as nat);
                }
                out.push(values[idx as usize]);
                proof {
                    lo = (idx + 1) as nat;
                    assert(it.remaining() =~= members_from(block@, lo));
                }
            },
        }
    }
    proof {
        lemma_picked_gap(values@, block@, lo, values@.len());
    }
    out
}

/// A greatest split of `values` into zero-sum groups: the values of each
/// block, block by block.
pub fn mzsp(values: &[isize]) -> (r: Vec<Vec<isize>>)
    requires
        values.len() < 64,
    ensures
        exists|parts: Seq<BitSet64>|
            {
                &&& is_greatest_split(values@, parts)
                &&& r.len() == parts.len()
                &&& forall|i: int|
                    0 <= i < r.len() ==> (#[trigger] r[i])@ == picked(
                        values@,
                        parts[i]@,
                        values@.len(),
                    )
            },
{
    let mut walk = MZSP::compute(values);
    let ghost parts = walk.blocks();
    let mut out: Vec<Vec<isize>> = Vec::new();
    let mut done = false;
    proof {
        let n = values.len() as u64;
        lemma_low_word(n);
        lemma_below_word(positions(values@).0, n);
    }
    while !done
        invariant
            is_zero_sum_family(values@, parts, positions(values@)),
            forall|i: nat| positions(values@)@.contains(i) ==> i < values.len(),
            out.len() <= parts.len(),
            walk.blocks() == parts.skip(out.len() as int),
            done ==> out.len() == parts.len(),
            forall|i: int|
                0 <= i < out.len() ==> (#[trigger] out[i])@ == picked(
                    values@,
                    parts[i]@,
                    values@.len(),
                ),
        decreases
                (if done {
                    0
                } else {
                    parts.len() + 1 - out.len()
                }),
    {
        match walk.next() {
            None => {
                done = true;
            },
            Some(block) => {
                let ghost k = out.len() as int;
                proof {
                    assert(block == parts[k]);
                    assert(parts[k]@.subset_of(positions(values@)@));
                    assert(parts.skip(k).drop_first() =~= parts.skip(k + 1));
                }
                let group = block_values(values, block);
                out.push(group);
            },
        }
    }
    out
}

} // verus!
