use debtor::stack::Stack;

#[test]
fn push_leaves_the_old_stack_alone() {
    let empty: Stack<u32> = Stack::new();
    assert_eq!(empty.len(), 0);
    let one = empty.push(7);
    let two = one.push(8);
    let other = one.push(9);
    assert_eq!(empty.len(), 0);
    assert_eq!(one.len(), 1);
    assert_eq!(two.len(), 2);
    assert_eq!(other.len(), 2);
    let items: Vec<u32> = {
        let mut out = Vec::new();
        let mut walk = two.iter();
        while let Some(cell) = walk.next() {
            out.push(cell.1);
        }
        out
    };
    assert_eq!(items, vec![8, 7]);
    let mut walk = other.iter();
    let top = walk.next().unwrap();
    assert_eq!((top.0, top.1), (2, 9));
    let below = walk.next().unwrap();
    assert_eq!((below.0, below.1), (1, 7));
    assert!(walk.next().is_none());
    assert!(walk.next().is_none());
}

#[test]
fn clone_shares_the_cells() {
    let stack = Stack::new().push("a").push("b");
    let copy = stack.clone();
    assert_eq!(copy.len(), 2);
    let mut walk = copy.iter();
    assert_eq!(walk.next().unwrap().1, "b");
    assert_eq!(walk.next().unwrap().1, "a");
    assert!(walk.next().is_none());
}
