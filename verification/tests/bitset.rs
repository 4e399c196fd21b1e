use debtor::bitset::BitSet64;

#[test]
fn test_bitset64() {
    let set = BitSet64::empty_set().insert(2).insert(5).insert(6).insert(8);
    assert_eq!(set.min(), Some(2));
    assert_eq!(set.max(), Some(8));
    assert_eq!(format!("{}", set.to_string()), "101100100");
    println!("> {:>10}", set.to_string());
    let mut subsets = set.subsets();
    while let Some(i) = subsets.next() {
        println!("# {:>10}", i.to_string());
    }
    println!("> {:>10}", set.to_string());
    let mut elements = set.elements();
    while let Some(i) = elements.next() {
        println!("# {}", i);
    }
}

#[test]
fn test_bitset64_empty() {
    let set = BitSet64::empty_set();
    println!("{:?} {:?}", set.min(), set.max());
    println!("> {}", set.to_string());
    let mut subsets = set.subsets();
    while let Some(i) = subsets.next() {
        println!("# {}", i.to_string());
    }
}

#[test]
fn test_bitset64_full() {
    let set = BitSet64::full_set(3);
    println!("{:?} {:?}", set.min(), set.max());
    println!("> {}", set.to_string());
    let mut subsets = set.subsets();
    while let Some(i) = subsets.next() {
        println!("# {}", i.to_string());
    }
}

fn collect_subsets(set: BitSet64) -> Vec<u64> {
    let mut out = Vec::new();
    let mut walk = set.subsets();
    while let Some(s) = walk.next() {
        out.push(s.0);
    }
    out
}

fn collect_elements(set: BitSet64) -> Vec<u64> {
    let mut out = Vec::new();
    let mut walk = set.elements();
    while let Some(i) = walk.next() {
        out.push(i);
    }
    out
}

#[test]
fn insert_then_contains_for_every_index() {
    for x in 0..64u64 {
        let set = BitSet64::empty_set().insert(x);
        assert!(set.contains(x));
        assert_eq!(set.0, 1u64 << x);
        assert_eq!(set.remove(x).0, BitSet64::empty_set().0);
    }
}

#[test]
fn empty_and_full_sets() {
    assert_eq!(BitSet64::empty_set().0, 0);
    assert_eq!(BitSet64::full_set(0).0, 0);
    assert_eq!(BitSet64::full_set(3).0, 0b111);
    assert_eq!(BitSet64::full_set(63).0, u64::MAX >> 1);
    assert_eq!(BitSet64::singleton(63).0, 1u64 << 63);
}

#[test]
fn toggle_union_and_minus() {
    let set = BitSet64(0b1010);
    assert_eq!(set.toggle(1).0, 0b1000);
    assert_eq!(set.toggle(0).0, 0b1011);
    assert_eq!(set.union(BitSet64(0b0110)).0, 0b1110);
    assert_eq!(set.minus(BitSet64(0b0110)).0, 0b1000);
    assert_eq!(set.minus(set).0, 0);
}

#[test]
fn size_counts_the_members() {
    assert_eq!(BitSet64::empty_set().size(), 0);
    assert_eq!(BitSet64(0b101100100).size(), 4);
    assert_eq!(BitSet64(u64::MAX).size(), 64);
}

#[test]
fn min_and_max_of_edge_sets() {
    assert_eq!(BitSet64::empty_set().min(), None);
    assert_eq!(BitSet64::empty_set().max(), None);
    assert_eq!(BitSet64(u64::MAX).min(), Some(0));
    assert_eq!(BitSet64(u64::MAX).max(), Some(63));
    assert_eq!(BitSet64::singleton(63).min(), Some(63));
    assert_eq!(BitSet64::singleton(0).max(), Some(0));
}

#[test]
fn take_max_removes_the_greatest() {
    let mut set = BitSet64(0b101100100);
    assert_eq!(set.take_max(), Some(8));
    assert_eq!(set.0, 0b001100100);
    assert_eq!(set.take_max(), Some(6));
    assert_eq!(set.take_max(), Some(5));
    assert_eq!(set.take_max(), Some(2));
    assert_eq!(set.take_max(), None);
    assert_eq!(set.0, 0);
}

#[test]
fn enumerate_yields_every_word_in_order() {
    let mut walk = BitSet64::enumerate(4);
    let mut seen = Vec::new();
    while let Some(s) = walk.next() {
        seen.push(s.0);
    }
    assert_eq!(seen, (0..16u64).collect::<Vec<u64>>());
    let mut none = BitSet64::enumerate(0);
    assert_eq!(none.next().map(|s| s.0), Some(0));
    assert!(none.next().is_none());
}

#[test]
fn subsets_are_all_there_in_ascending_order() {
    let set = BitSet64(0b101100100);
    let subsets = collect_subsets(set);
    assert_eq!(subsets.len(), 1 << set.size());
    assert_eq!(subsets[0], 0);
    assert_eq!(subsets[subsets.len() - 1], set.0);
    for pair in subsets.windows(2) {
        assert!(pair[0] < pair[1]);
    }
    for s in &subsets {
        assert_eq!(s & !set.0, 0);
    }
    assert_eq!(collect_subsets(BitSet64(0b110)), vec![0b000, 0b010, 0b100, 0b110]);
    assert_eq!(collect_subsets(BitSet64::empty_set()), vec![0]);
}

#[test]
fn subsets_of_a_set_with_the_top_index() {
    let set = BitSet64::singleton(63).insert(0);
    assert_eq!(collect_subsets(set), vec![0, 1, 1u64 << 63, (1u64 << 63) | 1]);
}

#[test]
fn a_finished_walk_stays_finished() {
    let mut walk = BitSet64(0b1).subsets();
    assert!(walk.next().is_some());
    assert!(walk.next().is_some());
    assert!(walk.next().is_none());
    assert!(walk.next().is_none());
    let mut elements = BitSet64(0b1).elements();
    assert_eq!(elements.next(), Some(0));
    assert_eq!(elements.next(), None);
    assert_eq!(elements.next(), None);
}

#[test]
fn elements_come_in_ascending_order() {
    assert_eq!(collect_elements(BitSet64(0b101100100)), vec![2, 5, 6, 8]);
    assert_eq!(collect_elements(BitSet64::empty_set()), Vec::<u64>::new());
    assert_eq!(collect_elements(BitSet64::singleton(63).insert(0).insert(62)), vec![0, 62, 63]);
    assert_eq!(collect_elements(BitSet64(u64::MAX)), (0..64u64).collect::<Vec<u64>>());
}

#[test]
fn binary_numeral_of_a_set() {
    assert_eq!(BitSet64::empty_set().to_string(), "0");
    assert_eq!(BitSet64::singleton(0).to_string(), "1");
    assert_eq!(BitSet64(0b110).to_string(), "110");
}
