use block_rmq::sparsetable::{
    checked_table_len, SparseTable, SparseTableEntryTrait, SparseTableSrcTrait,
};
use rand::Rng;

type T = u16;

struct SparseTableEntry {
    min: T,
    max: T,
}

impl SparseTableEntryTrait for SparseTableEntry {
    type Ret = Self;

    // A ghost member of the trait: it is never run.
    fn combine(&self, _b: &Self) -> Self {
        unreachable!()
    }

    fn with_cmp(&self, b: &Self) -> Self {
        Self { min: std::cmp::min(self.min, b.min), max: std::cmp::max(self.max, b.max) }
    }
}

impl SparseTableSrcTrait<SparseTableEntry> for T {
    // A ghost member of the trait: it is never run.
    fn sparse_table_entry(&self) -> SparseTableEntry {
        unreachable!()
    }

    fn get_sparse_table_entry(&self) -> SparseTableEntry {
        SparseTableEntry { min: *self, max: *self }
    }
}

#[test]
fn rmq_sparsetable_test() {
    let num = 3000;
    let mut rng = rand::thread_rng();
    let arr = (&mut rng)
        .sample_iter(rand::distributions::Uniform::new(0, T::MAX))
        .take(num)
        .collect::<Vec<_>>();

    let table = SparseTable::<SparseTableEntry>::new(&arr);
    for i in 0..num {
        println!("{}", i);
        for j in i..num {
            assert_eq!(table.query_unsafe(i, j).min, *arr[i..j + 1].iter().min().unwrap());
            assert_eq!(table.query_unsafe(i, j).max, *arr[i..j + 1].iter().max().unwrap());
        }
    }
}

fn table_of(arr: &[T]) -> SparseTable<SparseTableEntry> {
    SparseTable::<SparseTableEntry>::new(arr)
}

#[test]
fn sparse_table_of_small_inputs() {
    for len in 0..=40usize {
        let arr: Vec<T> = (0..len).map(|i| ((i * 53 + 7) % 31) as T).collect();
        let table = table_of(&arr);
        for l in 0..len {
            for r in l..len {
                let expected_min = *arr[l..r + 1].iter().min().unwrap();
                let expected_max = *arr[l..r + 1].iter().max().unwrap();
                let checked = table.query(l, r);
                let fast = table.query_unsafe(l, r);
                assert_eq!((checked.min, checked.max), (expected_min, expected_max));
                assert_eq!((fast.min, fast.max), (expected_min, expected_max));
            }
        }
    }
}

#[test]
fn sparse_table_windows_of_power_of_two_size() {
    let arr: Vec<T> = vec![9, 4, 7, 1, 8, 2, 6, 3];
    let table = table_of(&arr);
    let whole = table.query(0, 7);
    assert_eq!((whole.min, whole.max), (1, 9));
    let half = table.query(4, 7);
    assert_eq!((half.min, half.max), (2, 8));
    let pair = table.query(1, 2);
    assert_eq!((pair.min, pair.max), (4, 7));
    let odd = table.query(1, 5);
    assert_eq!((odd.min, odd.max), (1, 8));
}

#[test]
fn table_sizes() {
    assert_eq!(checked_table_len(0), Some(0));
    assert_eq!(checked_table_len(1), Some(1));
    assert_eq!(checked_table_len(2), Some(3));
    assert_eq!(checked_table_len(3), Some(5));
    assert_eq!(checked_table_len(4), Some(8));
    assert_eq!(checked_table_len(8), Some(21));
    assert_eq!(checked_table_len(188), Some(1257));
    assert_eq!(checked_table_len(usize::MAX), None);
    assert_eq!(checked_table_len(usize::MAX / 2), None);
}

#[test]
fn table_levels_lie_one_behind_the_other() {
    let arr: Vec<T> = vec![9, 4, 7, 1, 8, 2, 6, 3];
    let table = table_of(&arr);
    assert_eq!(table.heads(), &[0, 8, 15, 20]);
    let entries = table.entries();
    assert_eq!(entries.len(), 21);
    for (j, x) in arr.iter().enumerate() {
        assert_eq!((entries[j].min, entries[j].max), (*x, *x));
    }
    assert_eq!((entries[8].min, entries[8].max), (4, 9));
    assert_eq!((entries[14].min, entries[14].max), (3, 6));
    assert_eq!((entries[15].min, entries[15].max), (1, 9));
    assert_eq!((entries[19].min, entries[19].max), (2, 8));
    assert_eq!((entries[20].min, entries[20].max), (1, 9));
}

#[test]
fn table_of_nothing_is_empty() {
    let table = table_of(&[]);
    assert_eq!(table.heads().len(), 0);
    assert_eq!(table.entries().len(), 0);
}
