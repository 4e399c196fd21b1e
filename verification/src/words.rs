//! Machine words read as sets of indices: which indices a word holds, how the
//! bitwise operators act on them, and how sets compare as numbers.

use vstd::arithmetic::power2::{lemma2_to64, lemma_pow2_unfold, pow2};
use vstd::bits::{lemma_u64_pow2_no_overflow, lemma_u64_shl_is_mul};
use vstd::prelude::*;
use vstd::relations::injective_on;
use vstd::set_lib::{lemma_map_size, lemma_set_disjoint_lens};
use vstd::std_specs::bits::u64_leading_zeros;
use vstd::std_specs::bits::u64_trailing_zeros;

verus! {

/// Whether bit `i` of the word `v` is one.
pub open spec fn has_bit(v: u64, i: u64) -> bool {
    (v >> i) & 1 == 1
}

/// The indices that a word holds, read as a set.
pub open spec fn members(v: u64) -> Set<nat> {
    Set::new(|i: nat| i < 64 && has_bit(v, i as u64))
}

/// The greatest member of a word that is not zero.
pub open spec fn greatest(v: u64) -> nat {
    (63 - u64_leading_zeros(v)) as nat
}

/// How many of the bits below `k` of the word `v` are one.
pub open spec fn count_bits(v: u64, k: nat) -> nat
    decreases k,
{
    if k == 0 {
        0
    } else {
        count_bits(v, (k - 1) as nat) + if has_bit(v, (k - 1) as u64) {
            1nat
        } else {
            0nat
        }
    }
}

/// The members of a word that are below `k`.
pub open spec fn members_below(v: u64, k: nat) -> Set<nat> {
    Set::new(|i: nat| i < k && members(v).contains(i))
}

/// The words below `k`.
pub open spec fn words_below(k: u64) -> Set<u64> {
    Set::new(|v: u64| v < k)
}

/// The words from `lo` up that are below `hi`.
pub open spec fn words_between(lo: u64, hi: u64) -> Set<u64> {
    Set::new(|v: u64| lo <= v < hi)
}

/// The members of `s` from `lo` up.
pub open spec fn members_from(s: Set<nat>, lo: nat) -> Set<nat> {
    Set::new(|i: nat| s.contains(i) && i >= lo)
}

/// Whether the word `t` has no bit outside the word `s`: whether its members
/// are a subset of those of `s`.
pub open spec fn is_subword(t: u64, s: u64) -> bool {
    t & !s == 0
}

/// The words of the subsets of the set of the word `s`.
pub open spec fn subwords(s: u64) -> Set<u64> {
    Set::new(|t: u64| is_subword(t, s))
}

/// The binary numeral of a word, without leading zeros.
pub open spec fn binary_digits(v: u64) -> Seq<char>
    decreases v,
{
    if v < 2 {
        seq![if v == 0 { '0' } else { '1' }]
    } else {
        binary_digits(v / 2).push(if v % 2 == 0 { '0' } else { '1' })
    }
}

/// How the bits of words made by the bitwise operators come from the bits
/// of the words they are made of.
pub(crate) proof fn lemma_bit_ops(a: u64, b: u64, x: u64, i: u64)
    by (bit_vector)
    requires
        x < 64,
        i < 64,
    ensures
        !has_bit(0, i),
        has_bit(1u64 << x, i) == (i == x),
        has_bit(a | b, i) == (has_bit(a, i) || has_bit(b, i)),
        has_bit(a & b, i) == (has_bit(a, i) && has_bit(b, i)),
        has_bit(a ^ b, i) == (has_bit(a, i) != has_bit(b, i)),
        has_bit(!a, i) == !has_bit(a, i),
        (a & (1u64 << x) != 0) == has_bit(a, x),
        has_bit(((1u64 << x) - 1) as u64, i) == (i < x),
        (a & 1 != 0) == (a & 1 == 1),
{
}

/// A word without a bit outside another is not the greater number, a word is
/// below `2^n` exactly when it has no bit from `n` up, and two words that
/// differ nowhere are equal.
pub(crate) proof fn lemma_word_order(a: u64, b: u64, n: u64)
    by (bit_vector)
    requires
        n < 64,
    ensures
        a & !b == 0 ==> a <= b,
        (a < (1u64 << n)) == (a & !(((1u64 << n) - 1) as u64) == 0),
        a ^ a == 0,
        (a ^ b == 0) ==> a == b,
{
}

/// A word that is not zero has a member: the count of its trailing zeros.
pub(crate) proof fn lemma_witness(v: u64) -> (i: u64)
    requires
        v != 0,
    ensures
        i < 64,
        has_bit(v, i),
        i == u64_trailing_zeros(v),
        forall|j: u64| j < i ==> !has_bit(v, j),
{
    let i = u64_trailing_zeros(v) as u64;
    assert forall|j: u64| j < i implies !has_bit(v, j) by {
        assert((v >> j) & 1u64 == 0u64);
    }
    i
}

/// The word zero has no member.
pub proof fn lemma_empty_word()
    ensures
        members(0) == Set::<nat>::empty(),
{
    assert forall|i: nat| !members(0).contains(i) by {
        if i < 64 {
            lemma_bit_ops(0, 0, 0, i as u64);
        }
    }
    assert(members(0) =~= Set::<nat>::empty());
}

/// The word below `2^n` that has every bit below `n`: its members are the
/// indices below `n`.
pub proof fn lemma_low_word(n: u64)
    requires
        n < 64,
    ensures
        (1u64 << n) >= 1,
        members(((1u64 << n) - 1) as u64) == Set::new(|i: nat| i < n),
{
    assert(1u64 << n >= 1) by (bit_vector)
        requires
            n < 64,
    ;
    let v = ((1u64 << n) - 1) as u64;
    assert forall|i: nat| members(v).contains(i) == (i < n) by {
        if i < 64 {
            lemma_bit_ops(0, 0, n, i as u64);
        }
    }
    assert(members(v) =~= Set::new(|i: nat| i < n));
}

/// A word that is not zero holds its greatest member, and no greater one.
pub proof fn lemma_greatest(v: u64)
    requires
        v != 0,
    ensures
        greatest(v) < 64,
        members(v).contains(greatest(v)),
        forall|i: nat| members(v).contains(i) ==> i <= greatest(v),
{
    let m = (63 - u64_leading_zeros(v)) as u64;
    assert((v >> m) & 1u64 != 0u64);
    lemma_bit_ops(v >> m, 0, 0, 0);
    assert(has_bit(v, m));
    assert forall|i: nat| members(v).contains(i) implies i <= m by {
        if i > m {
            assert((v >> (i as u64)) & 1u64 == 0u64);
        }
    }
}

/// The members of a word without those of another.
pub proof fn lemma_minus_word(a: u64, b: u64)
    ensures
        members(a & !b) == members(a).difference(members(b)),
        is_subword(a & !b, a),
{
    assert forall|i: nat| members(a & !b).contains(i) == (members(a).contains(i) && !members(
        b,
    ).contains(i)) by {
        if i < 64 {
            lemma_bit_ops(a, !b, 0, i as u64);
            lemma_bit_ops(b, 0, 0, i as u64);
        }
    }
    assert(members(a & !b) =~= members(a).difference(members(b)));
    lemma_subset_word(a & !b, a);
}

/// The members of a word with the bit of `x` set.
pub proof fn lemma_insert_word(v: u64, x: u64)
    requires
        x < 64,
    ensures
        members(v | (1u64 << x)) == members(v).insert(x as nat),
{
    assert forall|i: nat| #[trigger]
        members(v | (1u64 << x)).contains(i) == (members(v).contains(i) || i == x) by {
        if i < 64 {
            lemma_bit_ops(v, 1u64 << x, x, i as u64);
        }
    }
    assert(members(v | (1u64 << x)) =~= members(v).insert(x as nat));
}

/// The members of a word with the bit of `x` cleared.
pub proof fn lemma_remove_word(v: u64, x: u64)
    requires
        x < 64,
    ensures
        members(v & !(1u64 << x)) == members(v).remove(x as nat),
{
    assert forall|i: nat| #[trigger]
        members(v & !(1u64 << x)).contains(i) == (members(v).contains(i) && i != x) by {
        if i < 64 {
            lemma_bit_ops(v, !(1u64 << x), x, i as u64);
            lemma_bit_ops(1u64 << x, 0, x, i as u64);
        }
    }
    assert(members(v & !(1u64 << x)) =~= members(v).remove(x as nat));
}

/// The members of either of two words.
pub proof fn lemma_union_word(a: u64, b: u64)
    ensures
        members(a | b) == members(a).union(members(b)),
{
    assert forall|i: nat| #[trigger]
        members(a | b).contains(i) == (members(a).contains(i) || members(b).contains(i)) by {
        if i < 64 {
            lemma_bit_ops(a, b, 0, i as u64);
        }
    }
    assert(members(a | b) =~= members(a).union(members(b)));
}

/// The members of the word with the bit of `x` alone.
pub proof fn lemma_single_word(x: u64)
    requires
        x < 64,
    ensures
        members(1u64 << x) == set![x as nat],
{
    assert forall|i: nat| #[trigger] members(1u64 << x).contains(i) == (i == x) by {
        if i < 64 {
            lemma_bit_ops(0, 0, x, i as u64);
        }
    }
    assert(members(1u64 << x) =~= set![x as nat]);
}

/// Two words with the same members are the same word.
pub proof fn lemma_members_injective(a: u64, b: u64)
    requires
        members(a) == members(b),
    ensures
        a == b,
{
    if a ^ b != 0 {
        let i = lemma_witness(a ^ b);
        lemma_bit_ops(a, b, 0, i);
        assert(members(a).contains(i as nat) == has_bit(a, i));
        assert(members(b).contains(i as nat) == has_bit(b, i));
    }
    lemma_word_order(a, b, 0);
}

/// One word's members are among another's exactly when it has no bit
/// outside the other; it is then not the greater number.
pub proof fn lemma_subset_word(a: u64, b: u64)
    ensures
        members(a).subset_of(members(b)) <==> a & !b == 0,
        members(a).subset_of(members(b)) ==> a <= b,
{
    if a & !b == 0 {
        assert forall|i: nat| members(a).contains(i) implies members(b).contains(i) by {
            lemma_bit_ops(a, !b, 0, i as u64);
            lemma_bit_ops(b, 0, 0, i as u64);
        }
    } else {
        let i = lemma_witness(a & !b);
        lemma_bit_ops(a, !b, 0, i);
        lemma_bit_ops(b, 0, 0, i);
        assert(members(a).contains(i as nat));
        assert(!members(b).contains(i as nat));
    }
    lemma_word_order(a, b, 0);
}

/// A word is below `2^n` exactly when all its members are below `n`.
pub proof fn lemma_below_word(v: u64, n: u64)
    requires
        n < 64,
    ensures
        v < (1u64 << n) <==> (forall|i: nat| members(v).contains(i) ==> i < n),
{
    let low = ((1u64 << n) - 1) as u64;
    lemma_word_order(v, 0, n);
    if v & !low == 0 {
        assert forall|i: nat| members(v).contains(i) implies i < n by {
            lemma_bit_ops(v, !low, n, i as u64);
            lemma_bit_ops(low, 0, n, i as u64);
        }
    } else {
        let i = lemma_witness(v & !low);
        lemma_bit_ops(v, !low, n, i);
        lemma_bit_ops(low, 0, n, i);
        assert(members(v).contains(i as nat));
    }
}

/// Clearing a bit that is set makes the word smaller by the value of the
/// bit.
pub(crate) proof fn lemma_take_bit(v: u64, x: u64)
    by (bit_vector)
    requires
        x < 64,
        has_bit(v, x),
    ensures
        v & !(1u64 << x) < v,
        v & !(1u64 << x) == v - (1u64 << x),
{
}

/// The members below `k` are as many as the ones among the bits below `k`.
pub proof fn lemma_count_members(v: u64, k: nat)
    requires
        k <= 64,
    ensures
        members_below(v, k).finite(),
        members_below(v, k).len() == count_bits(v, k),
    decreases k,
{
    if k == 0 {
        assert(members_below(v, 0) =~= Set::<nat>::empty());
    } else {
        let j = (k - 1) as nat;
        lemma_count_members(v, j);
        if has_bit(v, j as u64) {
            assert(members_below(v, k) =~= members_below(v, j).insert(j));
        } else {
            assert(members_below(v, k) =~= members_below(v, j));
        }
    }
}

/// No more than `k` of the bits below `k` are one.
pub(crate) proof fn lemma_count_bound(v: u64, k: nat)
    ensures
        count_bits(v, k) <= k,
    decreases k,
{
    if k > 0 {
        lemma_count_bound(v, (k - 1) as nat);
    }
}

/// There are `k` words below `k`.
pub(crate) proof fn lemma_words_below(k: u64)
    ensures
        words_below(k).finite(),
        words_below(k).len() == k,
    decreases k,
{
    if k == 0 {
        assert(words_below(0) =~= Set::<u64>::empty());
    } else {
        lemma_words_below((k - 1) as u64);
        assert(words_below(k) =~= words_below((k - 1) as u64).insert((k - 1) as u64));
    }
}

/// The walk over the subsets of the indices below `n` has `2^n` words to
/// yield, each below `2^n`.
pub proof fn lemma_enumerate_count(n: u64)
    requires
        n < 64,
    ensures
        words_below(1u64 << n).finite(),
        words_below(1u64 << n).len() == pow2(n as nat),
        forall|v: u64| words_below(1u64 << n).contains(v) ==> v < pow2(n as nat),
{
    lemma_words_below(1u64 << n);
    lemma_u64_pow2_no_overflow(n as nat);
    lemma_u64_shl_is_mul(1, n);
}

/// The step from one subset word `c` of `s` to the next: with `d` the
/// difference `c - s` modulo `2^64`, the word `s & d` is a subset word of
/// `s` above `c`, and no subset word of `s` lies between the two.
pub(crate) proof fn lemma_next_subword(s: u64, c: u64, d: u64, t: u64)
    by (bit_vector)
    requires
        c & !s == 0,
        c != s,
        d + s == c + 0x1_0000_0000_0000_0000,
    ensures
        c < s & d,
        (s & d) & !s == 0,
        t & !s == 0 && c < t ==> s & d <= t,
{
}

/// A set of `k` members has `2^k` subsets. The empty set is the least of
/// them as a word and the set itself the greatest.
#[verifier::rlimit(50)]
pub proof fn lemma_subsets_count(s: u64)
    ensures
        members(s).finite(),
        subwords(s).finite(),
        subwords(s).len() == pow2(members(s).len()),
        subwords(s).contains(0),
        subwords(s).contains(s),
        forall|t: u64| subwords(s).contains(t) ==> t <= s && members(t).subset_of(members(s)),
    decreases s,
{
    lemma_count_members(s, 64);
    assert(members_below(s, 64) =~= members(s));
    lemma_empty_word();
    lemma_subset_word(0, s);
    lemma_subset_word(s, s);
    assert forall|t: u64| subwords(s).contains(t) implies t <= s && members(t).subset_of(
        members(s),
    ) by {
        lemma_subset_word(t, s);
    }
    if s == 0 {
        assert(subwords(0) =~= set![0u64]);
        lemma2_to64();
    } else {
        lemma_greatest(s);
        let x = greatest(s) as u64;
        let bit = 1u64 << x;
        let rest = s & !bit;
        lemma_remove_word(s, x);
        lemma_take_bit(s, x);
        lemma_subsets_count(rest);
        let f = |t: u64| t | bit;
        let a = subwords(rest);
        let b = a.map(f);
        assert forall|t: u64| a.contains(t) implies !members(t).contains(x as nat) && members(
            #[trigger] f(t),
        ) == members(t).insert(x as nat) by {
            lemma_subset_word(t, rest);
            lemma_insert_word(t, x);
        }
        assert(injective_on(f, a)) by {
            assert forall|t1: u64, t2: u64|
                a.contains(t1) && a.contains(t2) && #[trigger] f(t1) == #[trigger] f(
                    t2,
                ) implies t1 == t2 by {
                assert(members(t1) =~= members(f(t1)).remove(x as nat));
                assert(members(t2) =~= members(f(t2)).remove(x as nat));
                lemma_members_injective(t1, t2);
            }
        }
        assert forall|t: u64| subwords(s).contains(t) == (a.contains(t) || b.contains(t)) by {
            lemma_subset_word(t, s);
            lemma_subset_word(t, rest);
            if subwords(s).contains(t) && !a.contains(t) {
                let low = t & !bit;
                lemma_remove_word(t, x);
                lemma_insert_word(low, x);
                lemma_subset_word(low, rest);
                assert(members(low | bit) =~= members(t));
                lemma_members_injective(low | bit, t);
                assert(a.contains(low) && t == f(low));
            }
            if b.contains(t) {
                let low = choose|low: u64| a.contains(low) && t == f(low);
                assert(members(f(low)) == members(low).insert(x as nat));
                lemma_subset_word(low, rest);
            }
        }
        assert(subwords(s) =~= a + b);
        assert(a.disjoint(b)) by {
            assert forall|t: u64| a.contains(t) implies !b.contains(t) by {
                if b.contains(t) {
                    let low = choose|low: u64| a.contains(low) && t == f(low);
                    assert(members(f(low)) == members(low).insert(x as nat));
                }
            }
        }
        lemma_map_size(a, b, f);
        lemma_set_disjoint_lens(a, b);
        assert(members(s) =~= members(rest).insert(x as nat));
        lemma_pow2_unfold(members(s).len());
    }
}

} // verus!
