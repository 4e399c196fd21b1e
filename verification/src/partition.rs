//! Zero-sum partitions of a list of signed values: what they are, what the
//! tables of the dynamic program must hold, and why the walk through the
//! tables yields a partition that no other outnumbers.

use vstd::prelude::*;
use crate::bitset::BitSet64;
use crate::words::{
    greatest, is_subword, lemma_empty_word, lemma_greatest, lemma_insert_word, lemma_low_word,
    lemma_members_injective, lemma_minus_word, lemma_remove_word, lemma_subset_word, members,
};

verus! {

/// The sum of the values at the positions below `k` that are in `s`.
pub open spec fn partial_sum(values: Seq<isize>, s: Set<nat>, k: nat) -> int
    decreases k,
{
    if k == 0 {
        0
    } else {
        partial_sum(values, s, (k - 1) as nat) + if s.contains((k - 1) as nat) {
            values[k - 1] as int
        } else {
            0
        }
    }
}

/// The sum of the values at the positions in `s`.
pub open spec fn subset_sum(values: Seq<isize>, s: Set<nat>) -> int {
    partial_sum(values, s, values.len())
}

/// The values at the positions below `k` that are in `s`, in ascending order
/// of the position.
pub open spec fn picked(values: Seq<isize>, s: Set<nat>, k: nat) -> Seq<isize>
    decreases k,
{
    if k == 0 {
        Seq::empty()
    } else if s.contains((k - 1) as nat) {
        picked(values, s, (k - 1) as nat).push(values[k - 1])
    } else {
        picked(values, s, (k - 1) as nat)
    }
}

/// `parts` are blocks of `whole`: each is a non-empty subset of it whose
/// values sum to zero, and no two of them share a position.
pub open spec fn is_zero_sum_family(values: Seq<isize>, parts: Seq<BitSet64>, whole: BitSet64)
    -> bool {
    &&& forall|i: int|
        0 <= i < parts.len() ==> {
            &&& (#[trigger] parts[i]).0 != 0
            &&& parts[i]@.subset_of(whole@)
            &&& subset_sum(values, parts[i]@) == 0
        }
    &&& forall|i: int, j: int|
        0 <= i < j < parts.len() ==> (#[trigger] parts[i])@.disjoint((#[trigger] parts[j])@)
}

/// Every position of `whole` lies in one of `parts`.
pub open spec fn covers(parts: Seq<BitSet64>, whole: BitSet64) -> bool {
    forall|x: nat|
        whole@.contains(x) ==> exists|i: int| 0 <= i < parts.len() && (#[trigger] parts[i])@.contains(x)
}

/// `parts` split `whole` into zero-sum blocks and leave nothing over.
pub open spec fn is_zero_sum_partition(values: Seq<isize>, parts: Seq<BitSet64>, whole: BitSet64)
    -> bool {
    is_zero_sum_family(values, parts, whole) && covers(parts, whole)
}

/// Whether `b` can be the block of `v` that holds the greatest position of
/// `v`: a subset of `v` with that position, whose values sum to zero.
pub open spec fn is_candidate(values: Seq<isize>, b: u64, v: u64) -> bool {
    &&& v != 0
    &&& is_subword(b, v)
    &&& members(b).contains(greatest(v))
    &&& subset_sum(values, members(b)) == 0
}

/// What the entry of the word `v` must be, given the entries of all smaller
/// words: a count that no candidate block of `v` beats, and, where the count
/// is not zero, a candidate block that reaches it. With a count of zero the
/// empty set has the empty set, and any other set the set of its greatest
/// member alone.
pub open spec fn entry_ok(
    values: Seq<isize>,
    entries: Seq<(usize, BitSet64)>,
    v: u64,
    e: (usize, BitSet64),
) -> bool {
    &&& e.0 <= v
    &&& forall|b: u64| #[trigger]
        is_candidate(values, b, v) ==> e.0 >= entries[(v & !b) as int].0 + 1
    &&& e.0 > 0 ==> is_candidate(values, e.1.0, v) && e.0 == entries[(v & !e.1.0) as int].0 + 1
    &&& e.0 == 0 ==> e.1.0 == if v == 0 {
        0u64
    } else {
        1u64 << (greatest(v) as u64)
    }
}

/// Both tables hold for the word `v` what they must.
pub open spec fn word_ok(
    values: Seq<isize>,
    entries: Seq<(usize, BitSet64)>,
    sums: Seq<i128>,
    v: u64,
) -> bool {
    &&& sums[v as int] == subset_sum(values, members(v))
    &&& entry_ok(values, entries, v, entries[v as int])
}

/// The first `len` entries of both tables are what they must be.
pub open spec fn tables_ok(
    values: Seq<isize>,
    entries: Seq<(usize, BitSet64)>,
    sums: Seq<i128>,
    len: int,
) -> bool {
    &&& len <= entries.len()
    &&& len <= sums.len()
    &&& forall|v: u64| v < len ==> #[trigger] word_ok(values, entries, sums, v)
}

/// The blocks met on a walk of `k` steps from the word `v`: the block of the
/// word, then those met from what is left of it.
pub open spec fn walk(entries: Seq<(usize, BitSet64)>, v: u64, k: nat) -> Seq<BitSet64>
    decreases k,
{
    if k == 0 {
        Seq::empty()
    } else {
        let b = entries[v as int].1;
        seq![b] + walk(entries, v & !b.0, (k - 1) as nat)
    }
}

/// What a walk of `k` steps from the word `v` leaves of it.
pub open spec fn left_over(entries: Seq<(usize, BitSet64)>, v: u64, k: nat) -> u64
    decreases k,
{
    if k == 0 {
        v
    } else {
        left_over(entries, v & !entries[v as int].1.0, (k - 1) as nat)
    }
}

/// The blocks into which the tables split the word `v`.
pub open spec fn blocks_of(entries: Seq<(usize, BitSet64)>, v: u64) -> Seq<BitSet64> {
    walk(entries, v, entries[v as int].0 as nat)
}

/// The set of all positions of `values`.
pub open spec fn positions(values: Seq<isize>) -> BitSet64 {
    BitSet64(((1u64 << (values.len() as u64)) - 1) as u64)
}

/// Each of `parts` holds the greatest member of what the parts before it
/// leave of the word `whole`.
pub open spec fn top_first(parts: Seq<BitSet64>, whole: u64) -> bool
    decreases parts.len(),
{
    parts.len() == 0 || (parts[0]@.contains(greatest(whole)) && top_first(
        parts.drop_first(),
        whole & !parts[0].0,
    ))
}

/// `parts` split the positions of `values` into zero-sum blocks and no
/// partition into such blocks has more of them. Where the values sum to
/// zero, `parts` leave no position over. The blocks come in the order in
/// which each holds the greatest position that the blocks before it leave.
pub open spec fn is_greatest_split(values: Seq<isize>, parts: Seq<BitSet64>) -> bool {
    &&& is_zero_sum_family(values, parts, positions(values))
    &&& top_first(parts, positions(values).0)
    &&& subset_sum(values, positions(values)@) == 0 ==> covers(parts, positions(values))
    &&& forall|q: Seq<BitSet64>| #[trigger]
        is_zero_sum_partition(values, q, positions(values)) ==> q.len() <= parts.len()
}

/// A sum of `k` values is within `k` times the range of a value.
pub(crate) proof fn lemma_sum_bound(values: Seq<isize>, s: Set<nat>, k: nat)
    requires
        k <= values.len(),
    ensures
        -k * 0x8000_0000_0000_0000 <= partial_sum(values, s, k) <= k * 0x8000_0000_0000_0000,
    decreases k,
{
    if k > 0 {
        lemma_sum_bound(values, s, (k - 1) as nat);
    }
}

/// A position that comes into a set brings its value into the sum.
pub(crate) proof fn lemma_sum_insert(values: Seq<isize>, s: Set<nat>, x: nat, k: nat)
    requires
        !s.contains(x),
    ensures
        partial_sum(values, s.insert(x), k) == partial_sum(values, s, k) + if x < k {
            values[x as int] as int
        } else {
            0
        },
    decreases k,
{
    if k > 0 {
        lemma_sum_insert(values, s, x, (k - 1) as nat);
    }
}

/// A subset that leaves a set takes its sum out of the sum.
pub(crate) proof fn lemma_sum_difference(values: Seq<isize>, s: Set<nat>, b: Set<nat>, k: nat)
    requires
        b.subset_of(s),
    ensures
        partial_sum(values, s.difference(b), k) == partial_sum(values, s, k) - partial_sum(
            values,
            b,
            k,
        ),
    decreases k,
{
    if k > 0 {
        lemma_sum_difference(values, s, b, (k - 1) as nat);
    }
}

/// The values of no positions sum to zero.
pub(crate) proof fn lemma_sum_empty(values: Seq<isize>, k: nat)
    ensures
        partial_sum(values, Set::empty(), k) == 0,
    decreases k,
{
    if k > 0 {
        lemma_sum_empty(values, (k - 1) as nat);
    }
}

/// Taking a candidate block out of a word leaves a smaller word.
pub(crate) proof fn lemma_candidate_shrinks(values: Seq<isize>, b: u64, v: u64)
    requires
        is_candidate(values, b, v),
    ensures
        v & !b < v,
        is_subword(v & !b, v),
        members(v & !b) == members(v).difference(members(b)),
        members(b).subset_of(members(v)),
{
    lemma_minus_word(v, b);
    lemma_subset_word(v & !b, v);
    lemma_subset_word(b, v);
    lemma_greatest(v);
    if v & !b == v {
        assert(members(v & !b).contains(greatest(v)));
    }
}

/// No split of a word into zero-sum blocks has more blocks than the word's
/// entry counts.
#[verifier::rlimit(50)]
pub proof fn lemma_count_is_greatest(
    values: Seq<isize>,
    entries: Seq<(usize, BitSet64)>,
    sums: Seq<i128>,
    v: u64,
    parts: Seq<BitSet64>,
)
    requires
        tables_ok(values, entries, sums, v + 1),
        is_zero_sum_partition(values, parts, BitSet64(v)),
    ensures
        parts.len() <= entries[v as int].0,
    decreases v,
{
    if parts.len() > 0 {
        let whole = BitSet64(v);
        assert(v != 0) by {
            lemma_subset_word(parts[0].0, v);
            assert(parts[0].0 != 0);
            assert(is_subword(parts[0].0, v));
            if v == 0 {
                lemma_empty_word();
                assert(parts[0]@ =~= members(0));
                lemma_members_injective(parts[0].0, 0);
            }
        }
        lemma_greatest(v);
        let x = greatest(v);
        assert(whole@.contains(x));
        let j = choose|j: int| 0 <= j < parts.len() && (#[trigger] parts[j])@.contains(x);
        let b = parts[j].0;
        lemma_subset_word(b, v);
        assert(is_candidate(values, b, v));
        lemma_candidate_shrinks(values, b, v);
        let rest = BitSet64(v & !b);
        let others = parts.remove(j);
        assert forall|i: int| 0 <= i < others.len() implies {
            &&& (#[trigger] others[i]).0 != 0
            &&& others[i]@.subset_of(rest@)
            &&& subset_sum(values, others[i]@) == 0
        } by {
            let k = if i < j {
                i
            } else {
                i + 1
            };
            assert(others[i] == parts[k]);
            if k < j {
                assert(parts[k]@.disjoint(parts[j]@));
            } else {
                assert(parts[j]@.disjoint(parts[k]@));
            }
        }
        assert forall|i: int, k: int| 0 <= i < k < others.len() implies (#[trigger] others[i])@.disjoint(
            (#[trigger] others[k])@,
        ) by {
            let i2 = if i < j {
                i
            } else {
                i + 1
            };
            let k2 = if k < j {
                k
            } else {
                k + 1
            };
            assert(others[i] == parts[i2]);
            assert(others[k] == parts[k2]);
        }
        assert forall|y: nat| rest@.contains(y) implies exists|i: int|
            0 <= i < others.len() && (#[trigger] others[i])@.contains(y) by {
            assert(whole@.contains(y));
            let k = choose|k: int| 0 <= k < parts.len() && (#[trigger] parts[k])@.contains(y);
            assert(k != j);
            let i = if k < j {
                k
            } else {
                k - 1
            };
            assert(others[i] == parts[k]);
        }
        lemma_count_is_greatest(values, entries, sums, v & !b, others);
        assert(word_ok(values, entries, sums, v));
    }
}

/// The walk from a word yields as many blocks as the word's entry counts;
/// they are zero-sum blocks of the word, and what they leave over has the
/// sum of the whole word and no block of its own.
#[verifier::rlimit(50)]
pub proof fn lemma_walk(
    values: Seq<isize>,
    entries: Seq<(usize, BitSet64)>,
    sums: Seq<i128>,
    v: u64,
)
    requires
        tables_ok(values, entries, sums, v + 1),
    ensures
        blocks_of(entries, v).len() == entries[v as int].0,
        is_zero_sum_family(values, blocks_of(entries, v), BitSet64(v)),
        top_first(blocks_of(entries, v), v),
        left_over(entries, v, entries[v as int].0 as nat) <= v,
        members(left_over(entries, v, entries[v as int].0 as nat)).subset_of(members(v)),
        entries[left_over(entries, v, entries[v as int].0 as nat) as int].0 == 0,
        subset_sum(values, members(left_over(entries, v, entries[v as int].0 as nat)))
            == subset_sum(values, members(v)),
        forall|y: nat|
            members(v).contains(y) ==> members(
                left_over(entries, v, entries[v as int].0 as nat),
            ).contains(y) || exists|i: int|
                0 <= i < blocks_of(entries, v).len() && (#[trigger] blocks_of(entries, v)[i])@.contains(
                    y,
                ),
    decreases v,
{
    assert(word_ok(values, entries, sums, v));
    let k = entries[v as int].0 as nat;
    if k > 0 {
        let b = entries[v as int].1;
        let rest = v & !b.0;
        lemma_candidate_shrinks(values, b.0, v);
        lemma_walk(values, entries, sums, rest);
        lemma_greatest(v);
        let inner = blocks_of(entries, rest);
        let all = blocks_of(entries, v);
        assert(all == seq![b] + inner);
        assert(all.drop_first() =~= inner);
        lemma_sum_difference(values, members(v), members(b.0), values.len());
        if b.0 == 0 {
            lemma_empty_word();
        }
        assert forall|i: int| 0 <= i < all.len() implies {
            &&& (#[trigger] all[i]).0 != 0
            &&& all[i]@.subset_of(BitSet64(v)@)
            &&& subset_sum(values, all[i]@) == 0
        } by {
            if i > 0 {
                assert(all[i] == inner[i - 1]);
            }
        }
        assert forall|i: int, j: int| 0 <= i < j < all.len() implies (#[trigger] all[i])@.disjoint(
            (#[trigger] all[j])@,
        ) by {
            assert(all[j] == inner[j - 1]);
            if i > 0 {
                assert(all[i] == inner[i - 1]);
            }
        }
        let r = left_over(entries, v, k);
        assert forall|y: nat| members(v).contains(y) implies members(r).contains(y) || exists|
            i: int,
        |
            0 <= i < all.len() && (#[trigger] all[i])@.contains(y) by {
            if members(b.0).contains(y) {
                assert(all[0]@.contains(y));
            } else {
                assert(members(rest).contains(y));
                if !members(r).contains(y) {
                    let i = choose|i: int|
                        0 <= i < inner.len() && (#[trigger] inner[i])@.contains(y);
                    assert(all[i + 1] == inner[i]);
                }
            }
        }
    }
}

/// Where the values of a word sum to zero, the walk from it leaves nothing
/// over: its blocks are a partition of the word.
pub proof fn lemma_walk_covers(
    values: Seq<isize>,
    entries: Seq<(usize, BitSet64)>,
    sums: Seq<i128>,
    v: u64,
)
    requires
        tables_ok(values, entries, sums, v + 1),
        subset_sum(values, members(v)) == 0,
    ensures
        is_zero_sum_partition(values, blocks_of(entries, v), BitSet64(v)),
{
    lemma_walk(values, entries, sums, v);
    let r = left_over(entries, v, entries[v as int].0 as nat);
    if r != 0 {
        assert(word_ok(values, entries, sums, r));
        lemma_greatest(r);
        lemma_subset_word(r, r);
        assert(is_candidate(values, r, r));
    }
    lemma_empty_word();
}

/// The word of a set whose members are all below `x`, with `x` added: it
/// is greater, and `x` is its greatest member.
pub(crate) proof fn lemma_top(set: u64, x: u64)
    requires
        x < 64,
        forall|i: nat| members(set).contains(i) ==> i < x,
    ensures
        set < set | (1u64 << x),
        greatest(set | (1u64 << x)) == x,
        members(set | (1u64 << x)) == members(set).insert(x as nat),
        !members(set).contains(x as nat),
{
    let whole = set | (1u64 << x);
    lemma_insert_word(set, x);
    lemma_subset_word(set, whole);
    assert(members(whole).contains(x as nat));
    if whole == 0 {
        lemma_empty_word();
    }
    lemma_greatest(whole);
}

/// A candidate block of `set` with `x` is a subset of `set` whose values sum
/// to the opposite of the value at `x`, with `x` added.
pub(crate) proof fn lemma_candidate_split(values: Seq<isize>, set: u64, x: u64, b: u64)
    requires
        x < 64,
        x < values.len(),
        forall|i: nat| members(set).contains(i) ==> i < x,
        is_candidate(values, b, set | (1u64 << x)),
    ensures
        is_subword(b & !(1u64 << x), set),
        subset_sum(values, members(b & !(1u64 << x))) == -values[x as int],
        (set | (1u64 << x)) & !b == set & !(b & !(1u64 << x)),
{
    let whole = set | (1u64 << x);
    let i = b & !(1u64 << x);
    lemma_top(set, x);
    lemma_remove_word(b, x);
    lemma_subset_word(b, whole);
    lemma_subset_word(i, set);
    assert(members(i).subset_of(members(set)));
    assert(members(b) =~= members(i).insert(x as nat));
    lemma_sum_insert(values, members(i), x as nat, values.len());
    lemma_minus_word(whole, b);
    lemma_minus_word(set, i);
    assert(members(whole & !b) =~= members(set & !i));
    lemma_members_injective(whole & !b, set & !i);
}

/// The converse: such a subset with `x` added is a candidate block.
pub(crate) proof fn lemma_candidate_join(values: Seq<isize>, set: u64, x: u64, i: u64)
    requires
        x < 64,
        x < values.len(),
        forall|k: nat| members(set).contains(k) ==> k < x,
        is_subword(i, set),
        subset_sum(values, members(i)) == -values[x as int],
    ensures
        is_candidate(values, i | (1u64 << x), set | (1u64 << x)),
        (set | (1u64 << x)) & !(i | (1u64 << x)) == set & !i,
{
    let whole = set | (1u64 << x);
    let b = i | (1u64 << x);
    lemma_top(set, x);
    lemma_insert_word(i, x);
    lemma_subset_word(i, set);
    lemma_subset_word(b, whole);
    lemma_sum_insert(values, members(i), x as nat, values.len());
    lemma_minus_word(whole, b);
    lemma_minus_word(set, i);
    assert(members(whole & !b) =~= members(set & !i));
    lemma_members_injective(whole & !b, set & !i);
}

/// Tables that hold for the first `len` words what they must, still do so
/// with the entries of the word `len` appended.
pub(crate) proof fn lemma_tables_extend(
    values: Seq<isize>,
    entries: Seq<(usize, BitSet64)>,
    sums: Seq<i128>,
    len: u64,
    e: (usize, BitSet64),
    s: i128,
)
    requires
        tables_ok(values, entries, sums, len as int),
        entries.len() == len,
        sums.len() == len,
        s == subset_sum(values, members(len)),
        entry_ok(values, entries, len, e),
    ensures
        tables_ok(values, entries.push(e), sums.push(s), len + 1),
{
    let entries2 = entries.push(e);
    let sums2 = sums.push(s);
    assert forall|w: u64| w < len + 1 implies #[trigger] word_ok(values, entries2, sums2, w) by {
        if w < len {
            assert(word_ok(values, entries, sums, w));
        }
        assert forall|b: u64| #[trigger] is_candidate(values, b, w) implies entries2[(w
            & !b) as int] == entries[(w & !b) as int] by {
            lemma_candidate_shrinks(values, b, w);
        }
    }
}

/// Positions that the set does not hold add nothing to the picked values.
pub(crate) proof fn lemma_picked_gap(values: Seq<isize>, s: Set<nat>, a: nat, b: nat)
    requires
        a <= b,
        forall|i: nat| a <= i < b ==> !s.contains(i),
    ensures
        picked(values, s, b) == picked(values, s, a),
    decreases b - a,
{
    if a < b {
        lemma_picked_gap(values, s, a, (b - 1) as nat);
    }
}

/// A greatest split of no values has no block; one of values that sum to
/// zero has at least one block.
pub proof fn lemma_split_count(values: Seq<isize>, parts: Seq<BitSet64>)
    requires
        values.len() < 64,
        is_greatest_split(values, parts),
    ensures
        values.len() == 0 ==> parts.len() == 0,
        values.len() > 0 && subset_sum(values, positions(values)@) == 0 ==> parts.len() >= 1,
{
    lemma_low_word(values.len() as u64);
    if values.len() == 0 {
        if parts.len() > 0 {
            lemma_empty_word();
            assert(parts[0]@ =~= members(0));
            lemma_members_injective(parts[0].0, 0);
        }
    } else if subset_sum(values, positions(values)@) == 0 {
        assert(positions(values)@.contains(0nat));
    }
}

/// The blocks that the tables hold for a word split it: they are zero-sum
/// blocks of it, each holds the greatest member that the blocks before it
/// leave, and where the values of the word sum to zero, they leave none
/// over.
pub proof fn lemma_rest(
    values: Seq<isize>,
    entries: Seq<(usize, BitSet64)>,
    sums: Seq<i128>,
    v: u64,
)
    requires
        tables_ok(values, entries, sums, v + 1),
    ensures
        is_zero_sum_family(values, blocks_of(entries, v), BitSet64(v)),
        top_first(blocks_of(entries, v), v),
        subset_sum(values, members(v)) == 0 ==> covers(blocks_of(entries, v), BitSet64(v)),
{
    lemma_walk(values, entries, sums, v);
    if subset_sum(values, members(v)) == 0 {
        lemma_walk_covers(values, entries, sums, v);
    }
}

/// All but the last of a family of blocks are a family of blocks.
pub proof fn lemma_family_front(values: Seq<isize>, parts: Seq<BitSet64>, whole: BitSet64)
    requires
        is_zero_sum_family(values, parts, whole),
        parts.len() > 0,
    ensures
        is_zero_sum_family(values, parts.drop_last(), whole),
{
    let front = parts.drop_last();
    assert forall|i: int| 0 <= i < front.len() implies {
        &&& (#[trigger] front[i]).0 != 0
        &&& front[i]@.subset_of(whole@)
        &&& subset_sum(values, front[i]@) == 0
    } by {
        assert(front[i] == parts[i]);
    }
    assert forall|i: int, j: int| 0 <= i < j < front.len() implies (#[trigger] front[i])@.disjoint(
        (#[trigger] front[j])@,
    ) by {
        assert(front[i] == parts[i] && front[j] == parts[j]);
    }
}

/// The first block of a greatest split holds the last position.
pub proof fn lemma_first_block(values: Seq<isize>, parts: Seq<BitSet64>)
    requires
        values.len() < 64,
        is_greatest_split(values, parts),
        parts.len() > 0,
    ensures
        values.len() > 0,
        parts[0]@.contains((values.len() - 1) as nat),
{
    let n = values.len();
    let whole = positions(values).0;
    lemma_low_word(n as u64);
    lemma_split_count(values, parts);
    assert(members(whole).contains((n - 1) as nat));
    if whole == 0 {
        lemma_empty_word();
    }
    lemma_greatest(whole);
}

} // verus!
