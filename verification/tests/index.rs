use zsync::rcksum::map::{ZBlock, ZBlockMap};
use zsync::rcksum::types::{PartialChecksum, Rsum};

fn checksum(bytes: [u8; 16], length: usize) -> PartialChecksum {
    PartialChecksum { value: bytes.into(), length }
}

#[test]
fn sanity() {
    let mut map = ZBlockMap::new(10);
    map.insert(
        0,
        ZBlock {
            rsum: Rsum(1, 2),
            checksum: PartialChecksum {
                value: [1; 16].into(),
                length: 5,
            },
        },
    );
    map.insert(
        1,
        ZBlock {
            rsum: Rsum(1, 2),
            checksum: PartialChecksum {
                value: [2; 16].into(),
                length: 5,
            },
        },
    );
    map.insert(
        2,
        ZBlock {
            rsum: Rsum(3, 2),
            checksum: PartialChecksum {
                value: [3; 16].into(),
                length: 5,
            },
        },
    );
    map.insert(
        3,
        ZBlock {
            rsum: Rsum(1, 2),
            checksum: PartialChecksum {
                value: [1; 16].into(),
                length: 5,
            },
        },
    );

    let result = map.search_weak(Rsum(1, 2)).unwrap();
    assert!(result.len() == 2);
    assert!(
        result.get(&PartialChecksum {
            value: [1, 1, 1, 1, 1, 0, 0, 0, 0, 0, 0, 0, 0, 0, 0, 0].into(),
            length: 5
        }) == Some(&vec![0, 3])
    );
    assert!(
        result.get(&PartialChecksum {
            value: [2, 2, 2, 2, 2, 0, 0, 0, 0, 0, 0, 0, 0, 0, 0, 0].into(),
            length: 5
        }) == Some(&vec![1])
    );

    let result = map.search_weak(Rsum(3, 2)).unwrap();
    assert!(result.len() == 1);
    assert!(
        result.get(&PartialChecksum {
            value: [3, 3, 3, 3, 3, 0, 0, 0, 0, 0, 0, 0, 0, 0, 0, 0].into(),
            length: 5
        }) == Some(&vec![2])
    );

    let result = map.search_weak(Rsum(255, 2));
    assert!(result.is_none());

    map.remove_block(0);
    let result = map.search_weak(Rsum(1, 2)).unwrap();
    assert!(result.len() == 2);
    assert!(
        result.get(&PartialChecksum {
            value: [1, 1, 1, 1, 1, 0, 0, 0, 0, 0, 0, 0, 0, 0, 0, 0].into(),
            length: 5
        }) == Some(&vec![3])
    );
    assert!(
        result.get(&PartialChecksum {
            value: [2, 2, 2, 2, 2, 0, 0, 0, 0, 0, 0, 0, 0, 0, 0, 0].into(),
            length: 5
        }) == Some(&vec![1])
    );

    map.remove_block(1);
    let result = map.search_weak(Rsum(1, 2)).unwrap();
    assert!(result.len() == 1);
    assert!(
        result.get(&PartialChecksum {
            value: [1, 1, 1, 1, 1, 0, 0, 0, 0, 0, 0, 0, 0, 0, 0, 0].into(),
            length: 5
        }) == Some(&vec![3])
    );

    map.remove_block(3);
    assert!(map.search_weak(Rsum(1, 2)).is_none());

    let result = map.search_weak(Rsum(3, 2)).unwrap();
    assert!(result.len() == 1);
    assert!(
        result.get(&PartialChecksum {
            value: [3, 3, 3, 3, 3, 0, 0, 0, 0, 0, 0, 0, 0, 0, 0, 0].into(),
            length: 5
        }) == Some(&vec![2])
    );

    map.remove_block(2);
    assert!(map.search_weak(Rsum(3, 2)).is_none());
}

#[test]
fn fresh_index_looks_for_nothing() {
    let map: ZBlockMap = ZBlockMap::new(4);
    assert_eq!(map.num_blocks(), 4);
    assert!(map.search_weak(Rsum(0, 0)).is_none());
    for id in 0..4usize {
        assert!(!map.contains(id));
        let block: ZBlock = map.block(id);
        assert_eq!(block.rsum, Rsum(0, 0));
        assert_eq!(block.checksum.length, 0);
        assert_eq!(block.checksum.value.0, [0u8; 16]);
    }
    assert!(!map.contains(4));
    let empty: ZBlockMap = ZBlockMap::new(0);
    assert_eq!(empty.num_blocks(), 0);
    assert!(!empty.contains(0));
}

#[test]
fn shared_bucket_holds_exactly_its_blocks() {
    let n: usize = 20;
    let mut map: ZBlockMap = ZBlockMap::new(n);
    let block: ZBlock = ZBlock { rsum: Rsum(7, 9), checksum: checksum([4; 16], 8) };
    for id in 0..n {
        map.insert(id, block);
    }
    let expected: Vec<usize> = (0..n).collect();
    {
        let entry = map.search_weak(Rsum(7, 9)).unwrap();
        assert_eq!(entry.len(), 1);
        assert!(!entry.is_empty());
        assert_eq!(entry.get(&block.checksum), Some(&expected));
    }
    for id in 0..n {
        assert!(map.contains(id));
        assert_eq!(map.block(id).rsum, Rsum(7, 9));
    }
    // resolve all but one, in an order of its own
    let order: Vec<usize> = vec![5, 0, 19, 3, 4, 1, 2, 18, 6, 7, 8, 9, 10, 11, 13, 14, 15, 16, 17];
    for id in order.iter() {
        map.remove_block(*id);
        assert!(!map.contains(*id));
    }
    {
        let entry = map.search_weak(Rsum(7, 9)).unwrap();
        assert_eq!(entry.len(), 1);
        assert_eq!(entry.get(&block.checksum), Some(&vec![12usize]));
    }
    assert!(map.contains(12));
    map.remove_block(12);
    assert!(map.search_weak(Rsum(7, 9)).is_none());
    assert!(!map.contains(12));
}

#[test]
fn resolving_keeps_the_order_of_the_others() {
    let mut map: ZBlockMap = ZBlockMap::new(5);
    let block: ZBlock = ZBlock { rsum: Rsum(1, 1), checksum: checksum([9; 16], 16) };
    for id in [3usize, 1, 4, 0, 2].iter() {
        map.insert(*id, block);
    }
    assert_eq!(
        map.search_weak(Rsum(1, 1)).unwrap().get(&block.checksum),
        Some(&vec![3usize, 1, 4, 0, 2])
    );
    map.remove_block(4);
    assert_eq!(
        map.search_weak(Rsum(1, 1)).unwrap().get(&block.checksum),
        Some(&vec![3usize, 1, 0, 2])
    );
}

#[test]
fn registering_again_moves_the_block() {
    let mut map: ZBlockMap = ZBlockMap::new(3);
    let first: ZBlock = ZBlock { rsum: Rsum(1, 2), checksum: checksum([1; 16], 5) };
    let second: ZBlock = ZBlock { rsum: Rsum(5, 6), checksum: checksum([2; 16], 5) };
    map.insert(1, first);
    map.insert(1, second);
    assert!(map.search_weak(Rsum(1, 2)).is_none());
    assert_eq!(
        map.search_weak(Rsum(5, 6)).unwrap().get(&second.checksum),
        Some(&vec![1usize])
    );
    assert_eq!(map.block(1).rsum, Rsum(5, 6));
    // the same expectation once more: still filed once
    map.insert(1, second);
    assert_eq!(
        map.search_weak(Rsum(5, 6)).unwrap().get(&second.checksum),
        Some(&vec![1usize])
    );
    map.remove_block(1);
    assert!(map.search_weak(Rsum(5, 6)).is_none());
    assert!(!map.contains(1));
    // a resolved block can be registered afresh
    map.insert(1, first);
    assert!(map.contains(1));
}

#[test]
fn digests_beyond_the_length_share_a_bucket() {
    let mut map: ZBlockMap = ZBlockMap::new(2);
    let mut a: [u8; 16] = [7; 16];
    let mut b: [u8; 16] = [7; 16];
    a[10] = 1;
    b[10] = 2;
    map.insert(0, ZBlock { rsum: Rsum(4, 4), checksum: checksum(a, 10) });
    map.insert(1, ZBlock { rsum: Rsum(4, 4), checksum: checksum(b, 10) });
    let entry = map.search_weak(Rsum(4, 4)).unwrap();
    assert_eq!(entry.len(), 1);
    assert_eq!(entry.get(&checksum([7; 16], 10)), Some(&vec![0usize, 1]));
    assert_eq!(entry.get(&checksum([7; 16], 11)), None);
}

#[test]
fn remove_checksum_drops_a_whole_bucket() {
    let mut map: ZBlockMap = ZBlockMap::new(4);
    let one: ZBlock = ZBlock { rsum: Rsum(1, 2), checksum: checksum([1; 16], 5) };
    let two: ZBlock = ZBlock { rsum: Rsum(1, 2), checksum: checksum([2; 16], 5) };
    map.insert(0, one);
    map.insert(1, one);
    map.insert(2, two);
    map.remove_checksum(Rsum(1, 2), one.checksum);
    {
        let entry = map.search_weak(Rsum(1, 2)).unwrap();
        assert_eq!(entry.len(), 1);
        assert_eq!(entry.get(&one.checksum), None);
        assert_eq!(entry.get(&two.checksum), Some(&vec![2usize]));
    }
    assert!(!map.contains(0));
    assert!(!map.contains(1));
    assert!(map.contains(2));
    // nothing there: nothing happens
    map.remove_checksum(Rsum(1, 2), one.checksum);
    map.remove_checksum(Rsum(9, 9), one.checksum);
    assert!(map.contains(2));
    map.remove_checksum(Rsum(1, 2), two.checksum);
    assert!(map.search_weak(Rsum(1, 2)).is_none());
}

#[test]
fn checksums_do_not_collide_in_the_index() {
    let mut map: ZBlockMap = ZBlockMap::new(2);
    let c: PartialChecksum = checksum([3; 16], 4);
    map.insert(0, ZBlock { rsum: Rsum(1, 2), checksum: c });
    map.insert(1, ZBlock { rsum: Rsum(2, 1), checksum: c });
    assert_eq!(map.search_weak(Rsum(1, 2)).unwrap().get(&c), Some(&vec![0usize]));
    assert_eq!(map.search_weak(Rsum(2, 1)).unwrap().get(&c), Some(&vec![1usize]));
    assert!(map.search_weak(Rsum(0, 65538u32 as u16)).is_none());
}

#[test]
fn index_is_empty_until_a_block_is_registered() {
    let mut map: ZBlockMap = ZBlockMap::new(2);
    assert!(map.is_empty());
    map.insert(1, ZBlock { rsum: Rsum(1, 2), checksum: checksum([1; 16], 5) });
    assert!(!map.is_empty());
    map.remove_block(1);
    assert!(map.is_empty());
}
