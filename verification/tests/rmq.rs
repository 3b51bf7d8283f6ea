use block_rmq::RMQ;
use rand::Rng;

#[test]
fn rmq_rmq_unsafe_test() {
    type T = u16;
    let num = 3000;
    let mut rng = rand::thread_rng();
    let arr = (&mut rng)
        .sample_iter(rand::distributions::Uniform::new(0, T::MAX))
        .take(num)
        .collect::<Vec<_>>();

    let rmq = RMQ::new(&arr);
    for i in 0..num {
        assert_eq!(rmq[i], arr[i]);
    }
    for i in 0..num {
        println!("{}", i);
        for j in i..num {
            assert_eq!(
                rmq.query_unsafe(i, j),
                (*arr[i..j + 1].iter().min().unwrap(), *arr[i..j + 1].iter().max().unwrap())
            );
        }
    }
}

#[test]
fn rmq_rmq_test() {
    type T = u16;
    let num = 3000;
    let mut rng = rand::thread_rng();
    let arr = (&mut rng)
        .sample_iter(rand::distributions::Uniform::new(0, T::MAX))
        .take(num)
        .collect::<Vec<_>>();

    let rmq = RMQ::new(&arr);
    for i in 0..num {
        println!("{}", i);
        for j in i..num {
            assert_eq!(
                rmq.query(i, j),
                (*arr[i..j + 1].iter().min().unwrap(), *arr[i..j + 1].iter().max().unwrap())
            );
        }
    }
}

fn brute<T: Ord + Copy>(arr: &[T], l: usize, r: usize) -> (T, T) {
    (*arr[l..r + 1].iter().min().unwrap(), *arr[l..r + 1].iter().max().unwrap())
}

#[test]
fn concrete_scenario() {
    let rmq = RMQ::new(&[3u32, 5, 8, 4, 10, 1, 2, 9]);
    assert_eq!(rmq.query(0, 7), (1, 10));
    assert_eq!(rmq.query(2, 5), (1, 10));
    assert_eq!(rmq.query(3, 4), (4, 10));
    assert_eq!(rmq.query(5, 6), (1, 2));
    assert_eq!(rmq.len(), 8);
}

#[test]
fn tie_handling() {
    let rmq = RMQ::new(&[5i32, 3, 3, 3, 5]);
    assert_eq!(rmq.query(0, 4), (3, 5));
    assert_eq!(rmq.query(1, 3), (3, 3));
    assert_eq!(rmq.query_unsafe(0, 4), (3, 5));
    assert_eq!(rmq.query_unsafe(1, 3), (3, 3));
}

#[test]
fn matches_brute_force_for_every_length() {
    for len in 0..=70usize {
        let arr: Vec<i64> = (0..len).map(|i| ((i * 37 + len * 11) % 23) as i64 - 11).collect();
        let rmq = RMQ::new(&arr);
        assert_eq!(rmq.len(), len);
        for l in 0..len {
            assert_eq!(rmq[l], arr[l]);
            for r in l..len {
                assert_eq!(rmq.query(l, r), brute(&arr, l, r));
                assert_eq!(rmq.query_unsafe(l, r), brute(&arr, l, r));
            }
        }
    }
}

#[test]
fn ranges_within_one_block() {
    let arr: Vec<u8> = (0..48u32).map(|i| (i * 91 % 53) as u8).collect();
    let rmq = RMQ::new(&arr);
    assert_eq!(rmq.query(16, 31), brute(&arr, 16, 31));
    assert_eq!(rmq.query(17, 20), brute(&arr, 17, 20));
    assert_eq!(rmq.query(32, 47), brute(&arr, 32, 47));
    assert_eq!(rmq.query(0, 0), (arr[0], arr[0]));
}

#[test]
fn ranges_over_two_adjacent_blocks() {
    let arr: Vec<u8> = (0..48u32).map(|i| (i * 91 % 53) as u8).collect();
    let rmq = RMQ::new(&arr);
    assert_eq!(rmq.query(15, 16), brute(&arr, 15, 16));
    assert_eq!(rmq.query(0, 31), brute(&arr, 0, 31));
    assert_eq!(rmq.query(20, 40), brute(&arr, 20, 40));
    assert_eq!(rmq.query(31, 32), brute(&arr, 31, 32));
}

#[test]
fn ranges_over_three_or_more_blocks() {
    let arr: Vec<u16> = (0..200u32).map(|i| (i * 7919 % 1013) as u16).collect();
    let rmq = RMQ::new(&arr);
    assert_eq!(rmq.query(15, 32), brute(&arr, 15, 32));
    assert_eq!(rmq.query(0, 47), brute(&arr, 0, 47));
    assert_eq!(rmq.query(3, 170), brute(&arr, 3, 170));
    assert_eq!(rmq.query(16, 199), brute(&arr, 16, 199));
    assert_eq!(rmq.query(31, 192), brute(&arr, 31, 192));
    assert_eq!(rmq.query_unsafe(5, 199), brute(&arr, 5, 199));
}

#[test]
fn single_positions_and_the_whole_array() {
    let arr: Vec<i16> = (0..100i32).map(|i| ((i * i * 13) % 201 - 100) as i16).collect();
    let rmq = RMQ::new(&arr);
    for i in 0..arr.len() {
        assert_eq!(rmq.query(i, i), (arr[i], arr[i]));
    }
    assert_eq!(
        rmq.query(0, arr.len() - 1),
        (*arr.iter().min().unwrap(), *arr.iter().max().unwrap())
    );
}

#[test]
fn checked_and_fast_queries_agree() {
    let arr: Vec<u64> = (0..130u64).map(|i| i.wrapping_mul(0x9e37_79b9_7f4a_7c15) >> 40).collect();
    let rmq = RMQ::new(&arr);
    for l in 0..arr.len() {
        for r in l..arr.len() {
            assert_eq!(rmq.query(l, r), rmq.query_unsafe(l, r));
        }
    }
}

#[test]
fn two_indexes_of_one_sequence_agree() {
    let arr: Vec<i8> = (0..60i32).map(|i| ((i * 29) % 101 - 50) as i8).collect();
    let first = RMQ::new(&arr);
    let copy: Vec<i8> = (0..first.len()).map(|i| first[i]).collect();
    let second = RMQ::new(&copy);
    for l in 0..arr.len() {
        for r in l..arr.len() {
            assert_eq!(first.query(l, r), second.query(l, r));
        }
    }
}

#[test]
fn empty_sequence_builds() {
    let arr: [u32; 0] = [];
    let rmq = RMQ::new(&arr);
    assert_eq!(rmq.len(), 0);
}

#[test]
fn blocks_and_table_of_an_index() {
    let arr: Vec<u16> = (0..40u16).map(|i| (i * 17) % 29).collect();
    let rmq = RMQ::new(&arr);
    let blocks = rmq.blocks();
    assert_eq!(blocks.len(), 3);
    for (b, block) in blocks.iter().enumerate() {
        let run = &arr[16 * b..std::cmp::min(16 * b + 16, arr.len())];
        assert_eq!(&block.slots()[..run.len()], run);
        assert_eq!(block.query(0, 15), brute(run, 0, run.len() - 1));
    }
    let table = rmq.table();
    assert_eq!(table.heads(), &[0, 3]);
    assert_eq!(table.entries().len(), 5);
    for b in 0..3 {
        let run = &arr[16 * b..std::cmp::min(16 * b + 16, arr.len())];
        let entry = &table.entries()[b];
        assert_eq!((entry.min, entry.max), brute(run, 0, run.len() - 1));
    }
    let both = &table.entries()[3];
    assert_eq!((both.min, both.max), brute(&arr, 0, 31));
}
