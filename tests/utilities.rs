use algokit::bitset::BitField;
use algokit::kmp_search::kmp_search;
use algokit::life::Board;
use algokit::list::List;
use algokit::llist::LList;

#[test]
fn bitfield_reads_initial_bytes() {
    let b = BitField::new(0b1000_0001);
    assert!(b.has(0));
    assert!(!b.has(1));
    assert!(b.has(7));
    assert!(b.has(8));
    assert!(b.has(16383));
    assert!(!b.has(16382));
}

#[test]
fn bitfield_set_touches_one_bit() {
    let mut b = BitField::new(0);
    b.set(10);
    assert!(b.has(10));
    assert!(!b.has(9));
    assert!(!b.has(11));
    b.set(16383);
    assert!(b.has(16383));
    assert!(!b.has(0));
}

#[test]
fn kmp_finds_overlapping_matches() {
    assert_eq!(kmp_search("abababa", "aba"), vec![0, 2, 4]);
    assert_eq!(kmp_search("aaaa", "aa"), vec![0, 1, 2]);
}

#[test]
fn kmp_without_match() {
    assert_eq!(kmp_search("hello world", "xyz"), Vec::<usize>::new());
    assert_eq!(kmp_search("ab", "abc"), Vec::<usize>::new());
    assert_eq!(kmp_search("", "a"), Vec::<usize>::new());
}

#[test]
fn kmp_matches_whole_and_ends() {
    assert_eq!(kmp_search("needle", "needle"), vec![0]);
    assert_eq!(kmp_search("abcxabcdabxabcdabcdabcy", "abcdabcy"), vec![15]);
    assert_eq!(kmp_search("xxab", "ab"), vec![2]);
}

fn alive(b: &Board) -> Vec<Vec<u8>> {
    let (r, c) = b.size();
    (0..r + 2).map(|i| (0..c + 2).map(|j| b.get(i, j)).collect()).collect()
}

#[test]
fn blinker_oscillates() {
    let mut b = Board::new(5, 5);
    b.set(3, 2);
    b.set(3, 3);
    b.set(3, 4);
    let horizontal = alive(&b);
    b.next();
    let mut v = Board::new(5, 5);
    v.set(2, 3);
    v.set(3, 3);
    v.set(4, 3);
    assert_eq!(alive(&b), alive(&v));
    b.next();
    assert_eq!(alive(&b), horizontal);
}

#[test]
fn lonely_cell_dies_and_block_stays() {
    let mut b = Board::new(4, 4);
    b.set(1, 1);
    b.next();
    assert_eq!(alive(&b), alive(&Board::new(4, 4)));
    let mut k = Board::new(4, 4);
    k.set(2, 2);
    k.set(2, 3);
    k.set(3, 2);
    k.set(3, 3);
    let before = alive(&k);
    k.next();
    assert_eq!(alive(&k), before);
}

fn forward(l: &mut LList<i32>) -> Vec<i32> {
    let mut out = vec![];
    l.start_ptr();
    while !l.end() {
        out.push(*l.elem());
        l.next();
    }
    out
}

fn backward(l: &mut LList<i32>) -> Vec<i32> {
    let mut out = vec![];
    l.end_ptr();
    while !l.end() {
        out.push(*l.elem());
        l.prev();
    }
    out
}

#[test]
fn llist_fill_and_walk() {
    let mut ll = LList::new(5);
    assert!(ll.empty());
    let mut x = 10;
    while !ll.full() {
        ll.add(x).unwrap();
        x += 1;
    }
    assert!(!ll.empty());
    assert_eq!(forward(&mut ll), vec![14, 13, 12, 11, 10]);
    assert_eq!(backward(&mut ll), vec![10, 11, 12, 13, 14]);
    assert!(ll.add(99).is_err());
    assert_eq!(forward(&mut ll), vec![14, 13, 12, 11, 10]);
}

#[test]
fn llist_add_after_cursor_and_delete() {
    let mut ll = LList::new(4);
    ll.add(1).unwrap();
    ll.start_ptr();
    assert_eq!(*ll.elem(), 1);
    ll.add(3).unwrap();
    ll.add(2).unwrap();
    assert_eq!(forward(&mut ll), vec![1, 2, 3]);
    ll.start_ptr();
    ll.del();
    assert_eq!(forward(&mut ll), vec![1, 3]);
    ll.start_ptr();
    ll.del();
    assert_eq!(forward(&mut ll), vec![1]);
    ll.add(7).unwrap();
    ll.add(8).unwrap();
    ll.add(9).unwrap();
    assert!(ll.full());
    assert_eq!(backward(&mut ll), vec![1, 7, 8, 9]);
}

#[test]
fn llist_with_no_room() {
    let mut ll: LList<i32> = LList::new(0);
    assert!(ll.empty());
    assert!(ll.full());
    assert!(ll.add(1).is_err());
    ll.start_ptr();
    assert!(ll.end());
}



fn items(l: &List<i32>) -> Vec<i32> {
    let mut out = vec![];
    let mut cur = l.tail();
    if let Some(x) = l.head() {
        out.push(*x);
    }
    while let Some(x) = cur.head() {
        out.push(*x);
        cur = cur.tail();
    }
    out
}

#[test]
fn persistent_list_shares_tails() {
    let empty: List<i32> = List::new();
    assert!(empty.head().is_none());
    assert!(empty.tail().head().is_none());
    let one = empty.prepend(1);
    let two = one.prepend(2);
    let three = two.prepend(3);
    assert_eq!(items(&three), vec![3, 2, 1]);
    assert_eq!(items(&two), vec![2, 1]);
    let other = two.prepend(9);
    assert_eq!(items(&other), vec![9, 2, 1]);
    assert_eq!(items(&three.tail()), vec![2, 1]);
    assert_eq!(items(&three.tail().tail().tail()), Vec::<i32>::new());
}
