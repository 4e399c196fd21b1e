use debtor::bitset::BitSet64;
use debtor::mzsp::{block_values, max_zero_sum_partitions, mzsp, MemoTables, MZSP};

#[test]
fn test() {
    let partitionable = vec![10, -10, 15, -15];
    let unpartitionable = vec![10, 20, -15, -15];

    assert_eq!(MZSP::compute(&partitionable).len(), 2);
    assert_eq!(MZSP::compute(&unpartitionable).len(), 1);

    assert_eq!(mzsp(&partitionable), vec![vec![15, -15], vec![10, -10]]);
    assert_eq!(mzsp(&unpartitionable), vec![vec![10, 20, -15, -15]]);
}

fn blocks_of(values: &[isize]) -> Vec<u64> {
    let mut walk = MZSP::compute(values);
    let mut out = Vec::new();
    while let Some(block) = walk.next() {
        out.push(block.0);
    }
    out
}

fn check_partition(values: &[isize]) -> usize {
    let blocks = blocks_of(values);
    let mut seen = 0u64;
    for b in &blocks {
        assert_ne!(*b, 0);
        assert_eq!(seen & b, 0);
        seen |= b;
        let sum: isize = (0..values.len()).filter(|i| b & (1u64 << i) != 0).map(|i| values[i]).sum();
        assert_eq!(sum, 0);
    }
    assert_eq!(seen, (1u64 << values.len()) - 1);
    blocks.len()
}

#[test]
fn blocks_partition_a_zero_sum_input() {
    assert_eq!(check_partition(&[10, -10, 15, -15]), 2);
    assert_eq!(check_partition(&[10, 20, -15, -15]), 1);
    assert_eq!(check_partition(&[1, -1, 2, -2, 3, -3]), 3);
    assert_eq!(check_partition(&[1, 2, -3, 4, 5, -9, 7, -7]), 3);
    assert_eq!(check_partition(&[5, -2, -3, 0, 6, -1, -5, 8, -8, 0, 2, -2]), 6);
    assert_eq!(check_partition(&[0]), 1);
}

#[test]
fn empty_input_has_no_block() {
    let mut walk = MZSP::compute(&[]);
    assert_eq!(walk.len(), 0);
    assert!(walk.next().is_none());
    assert_eq!(mzsp(&[]), Vec::<Vec<isize>>::new());
}

#[test]
fn walk_counts_down_and_ends() {
    let values = [10, -10, 15, -15];
    let mut walk = MZSP::compute(&values);
    assert_eq!(walk.len(), 2);
    assert_eq!(walk.next().map(|b| b.0), Some(0b1100));
    assert_eq!(walk.len(), 1);
    assert_eq!(walk.next().map(|b| b.0), Some(0b0011));
    assert_eq!(walk.len(), 0);
    assert!(walk.next().is_none());
    assert!(walk.next().is_none());
}

#[test]
fn input_that_does_not_sum_to_zero() {
    assert_eq!(blocks_of(&[5]), Vec::<u64>::new());
    assert_eq!(blocks_of(&[1, -1, 5]), Vec::<u64>::new());
    assert_eq!(blocks_of(&[5, 1, -1]), vec![0b110]);
}

#[test]
fn tables_hold_sums_and_counts() {
    let values = [10, -10, 15, -15];
    let tables = MemoTables::new(&values);
    assert_eq!(tables.get_sum(BitSet64(0)), 0);
    assert_eq!(tables.get_sum(BitSet64(0b0101)), 25);
    assert_eq!(tables.get_sum(BitSet64(0b1111)), 0);
    assert_eq!(tables.get_mzsp(BitSet64(0)).0, 0);
    assert_eq!(tables.get_mzsp(BitSet64(0b0011)).0, 1);
    assert_eq!(tables.get_mzsp(BitSet64(0b0011)).1 .0, 0b0011);
    assert_eq!(tables.get_mzsp(BitSet64(0b0111)).0, 0);
    assert_eq!(tables.get_mzsp(BitSet64(0b1111)).0, 2);
    let top = max_zero_sum_partitions(&tables, &values, BitSet64(0b0111), 3);
    assert_eq!(top.0, 2);
    assert_eq!(top.1 .0, 0b1100);
}

#[test]
fn extreme_values_do_not_overflow() {
    let values = [isize::MAX, isize::MAX, isize::MIN, isize::MIN, 1, 1];
    assert_eq!(check_partition(&values), 2);
    assert_eq!(blocks_of(&[isize::MIN, isize::MIN]), Vec::<u64>::new());
}

#[test]
fn values_of_a_block() {
    assert_eq!(block_values(&[7, 8, 9, 10], BitSet64(0b1010)), vec![8, 10]);
    assert_eq!(block_values(&[7, 8, 9, 10], BitSet64(0)), Vec::<isize>::new());
}

fn next_random(state: &mut u64) -> u64 {
    *state = state.wrapping_mul(6364136223846793005).wrapping_add(1442695040888963407);
    *state >> 33
}

fn zero_sum_values(state: &mut u64, len: usize) -> Vec<isize> {
    let mut values: Vec<isize> = Vec::new();
    for _ in 1..len {
        values.push((next_random(state) % 13) as isize - 6);
    }
    if len > 0 {
        let sum: isize = values.iter().sum();
        values.push(-sum);
    }
    values
}

// The greatest number of zero-sum blocks into which the positions of `rest`
// can be split, found by trying every block that holds the lowest position.
fn most_blocks(values: &[isize], rest: u64) -> usize {
    if rest == 0 {
        return 0;
    }
    let low = rest & rest.wrapping_neg();
    let others = rest & !low;
    let mut best = 0;
    let mut sub = others;
    loop {
        let block = sub | low;
        let sum: isize =
            (0..values.len()).filter(|i| block & (1u64 << i) != 0).map(|i| values[i]).sum();
        if sum == 0 {
            let tail = rest & !block;
            if tail == 0 {
                best = best.max(1);
            } else {
                let more = most_blocks(values, tail);
                if more > 0 {
                    best = best.max(more + 1);
                }
            }
        }
        if sub == 0 {
            break;
        }
        sub = (sub - 1) & others;
    }
    best
}

#[test]
fn blocks_partition_random_zero_sum_inputs() {
    let mut state = 7u64;
    for round in 0..60 {
        let values = zero_sum_values(&mut state, round % 11);
        let blocks = check_partition(&values);
        if values.is_empty() {
            assert_eq!(blocks, 0);
        } else {
            assert!(blocks >= 1);
        }
    }
}

#[test]
fn no_split_has_more_blocks() {
    let mut state = 11u64;
    for round in 0..40 {
        let values = zero_sum_values(&mut state, 1 + round % 8);
        let blocks = check_partition(&values);
        assert_eq!(blocks, most_blocks(&values, (1u64 << values.len()) - 1));
    }
}

#[test]
fn entries_with_a_count_of_zero() {
    let values = [10, -10, 15, -15];
    let tables = MemoTables::new(&values);
    let empty = tables.get_mzsp(BitSet64(0));
    assert_eq!((empty.0, empty.1 .0), (0, 0));
    let stuck = tables.get_mzsp(BitSet64(0b0111));
    assert_eq!((stuck.0, stuck.1 .0), (0, 0b0100));
    let tables = MemoTables::new(&[]);
    let only = tables.get_mzsp(BitSet64(0));
    assert_eq!((only.0, only.1 .0), (0, 0));
}

#[test]
fn each_block_holds_the_greatest_position_left() {
    let values = [1, 2, -1, 3, -2, -3, 0];
    let mut walk = MZSP::compute(&values);
    let mut left = (1u64 << values.len()) - 1;
    let mut seen = Vec::new();
    while let Some(block) = walk.next() {
        assert_ne!(block.0, 0);
        assert_eq!(block.0 & !left, 0);
        assert!(block.contains(BitSet64(left).max().unwrap()));
        left &= !block.0;
        seen.push(block.0);
    }
    assert_eq!(seen, vec![0b1000000, 0b0101000, 0b0010010, 0b0000101]);
    assert_eq!(left, 0);
}
