use block_rmq::block::{Block, Max, Min, RMQBlock, RMQBlockTrait, RMQType};

#[test]
fn rmq_block_test() {
    let arr = [3, 5, 8, 4, 10, 1, 2, 9];
    let block = Block::new(&arr);
    for i in 0..8 {
        for j in i..8 {
            assert_eq!(
                block.query_unsafe(i, j),
                (*arr[i..j + 1].iter().min().unwrap(), *arr[i..j + 1].iter().max().unwrap())
            );
        }
    }
}

fn brute(arr: &[i32], l: usize, r: usize) -> (i32, i32) {
    (*arr[l..r + 1].iter().min().unwrap(), *arr[l..r + 1].iter().max().unwrap())
}

#[test]
fn block_words_follow_the_packing() {
    let arr = [3u32, 5, 8, 4, 10, 1, 2, 9];
    let min = RMQBlock::<Min>::new(&arr);
    let max = RMQBlock::<Max>::new(&arr);
    assert_eq!(*min.as_words(), [0x380, 0x381, 0x383, 0x384, 0x389, 0x380, 0x381, 0x383]);
    assert_eq!(*max.as_words(), [0x480, 0x480, 0x480, 0x481, 0x480, 0x481, 0x482, 0x484]);
}

#[test]
fn block_words_of_monotone_runs() {
    let up: Vec<u8> = (1..=16).collect();
    let down: Vec<u8> = (1..=16).rev().collect();
    assert_eq!(*RMQBlock::<Min>::new(&up).as_words(), [0x7fff; 8]);
    assert_eq!(*RMQBlock::<Max>::new(&up).as_words(), [0; 8]);
    assert_eq!(*RMQBlock::<Min>::new(&down).as_words(), [0; 8]);
    assert_eq!(*RMQBlock::<Max>::new(&down).as_words(), [0x7fff; 8]);
}

#[test]
fn block_words_of_a_short_run_point_at_its_end() {
    let one = [7i64];
    let expected = [0x4000, 0x4001, 0x4002, 0x4004, 0x4008, 0x4010, 0x4020, 0x4040];
    assert_eq!(*RMQBlock::<Min>::new(&one).as_words(), expected);
    assert_eq!(*RMQBlock::<Max>::new(&one).as_words(), expected);
    let none: [i64; 0] = [];
    assert_eq!(*RMQBlock::<Min>::new(&none).as_words(), [0; 8]);
}

#[test]
fn block_index_of_ties_is_the_last() {
    let arr = [5u16, 3, 3, 3, 5];
    let min = RMQBlock::<Min>::new(&arr);
    let max = RMQBlock::<Max>::new(&arr);
    assert_eq!(min.query(0, 4), 3);
    assert_eq!(min.query(1, 3), 3);
    assert_eq!(min.query(1, 2), 2);
    assert_eq!(max.query(0, 4), 4);
    assert_eq!(max.query(0, 3), 0);
    assert_eq!(max.query(1, 3), 3);
    assert_eq!(min.query_unsafe(0, 4), 3);
    assert_eq!(max.query_unsafe(0, 4), 4);
}

#[test]
fn block_index_checked_and_fast_agree() {
    let arr = [9i8, -3, 4, 4, -3, 7, 0, 12, -8, 5, 5, 1];
    let min = RMQBlock::<Min>::new(&arr);
    let max = RMQBlock::<Max>::new(&arr);
    for l in 0..16 {
        for r in l..16 {
            assert_eq!(min.query(l, r), min.query_unsafe(l, r));
            assert_eq!(max.query(l, r), max.query_unsafe(l, r));
            assert!(l <= min.query(l, r) && min.query(l, r) <= r);
        }
    }
}

#[test]
fn block_query_matches_brute_force_for_every_length() {
    let source = [4, -1, 7, 7, 0, -1, 3, 9, 9, 2, -6, 5, 5, -6, 8, 1];
    for len in 1..=16 {
        let arr = &source[..len];
        let block = Block::new(arr);
        for l in 0..len {
            for r in l..len {
                assert_eq!(block.query(l, r), brute(arr, l, r));
                assert_eq!(block.query_unsafe(l, r), brute(arr, l, r));
            }
        }
    }
}

#[test]
fn block_query_behind_the_run_reads_up_to_its_end() {
    let arr = [4, -1, 7, 7, 0];
    let block = Block::new(&arr);
    for l in 0..5 {
        for r in 5..16 {
            assert_eq!(block.query(l, r), brute(&arr, l, 4));
        }
    }
    assert_eq!(block.query(0, 15), (-1, 7));
}

#[test]
fn block_ties() {
    let block = Block::new(&[5u8, 3, 3, 3, 5]);
    assert_eq!(block.query(0, 4), (3, 5));
    assert_eq!(block.query(1, 3), (3, 3));
}

#[test]
fn block_get_returns_the_elements() {
    let arr = [3u64, 5, 8, 4, 10, 1, 2, 9];
    let block = Block::new(&arr);
    for i in 0..8 {
        assert_eq!(block.get(i), arr[i]);
        assert_eq!(*block.get_ref(i), arr[i]);
    }
}

#[test]
fn orientations_compare_strictly() {
    assert!(Min::cmp(&1u32, &2u32));
    assert!(!Min::cmp(&2u32, &2u32));
    assert!(!Min::cmp(&3u32, &2u32));
    assert!(Max::cmp(&3i16, &-2i16));
    assert!(!Max::cmp(&-2i16, &-2i16));
    assert!(!Max::cmp(&-3i16, &-2i16));
}

#[test]
fn block_parts() {
    let arr = [3u32, 5, 8, 4, 10, 1, 2, 9];
    let block = Block::new(&arr);
    let (min, max) = block.indexes();
    assert_eq!(*min.as_words(), [0x380, 0x381, 0x383, 0x384, 0x389, 0x380, 0x381, 0x383]);
    assert_eq!(*max.as_words(), [0x480, 0x480, 0x480, 0x481, 0x480, 0x481, 0x482, 0x484]);
    assert_eq!(&block.slots()[..8], &arr);
}
