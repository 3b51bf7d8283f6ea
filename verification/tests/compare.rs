use block_rmq::common::get_msb_pos;
use block_rmq::rmq::SparseTableEntry;
use block_rmq::{CompareTrait, MinMaxTrait, SparseTableEntryTrait};
use std::cmp::Ordering;

#[test]
fn cmp_orders_unsigned_and_signed() {
    assert_eq!(<u64 as CompareTrait>::cmp(&1, &2), Ordering::Less);
    assert_eq!(<u64 as CompareTrait>::cmp(&2, &2), Ordering::Equal);
    assert_eq!(<u32 as CompareTrait>::cmp(&3, &2), Ordering::Greater);
    assert_eq!(<u16 as CompareTrait>::cmp(&0, &u16::MAX), Ordering::Less);
    assert_eq!(<u8 as CompareTrait>::cmp(&255, &0), Ordering::Greater);
    assert_eq!(<i64 as CompareTrait>::cmp(&-1, &1), Ordering::Less);
    assert_eq!(<i32 as CompareTrait>::cmp(&i32::MIN, &i32::MAX), Ordering::Less);
    assert_eq!(<i16 as CompareTrait>::cmp(&-5, &-5), Ordering::Equal);
    assert_eq!(<i8 as CompareTrait>::cmp(&-1, &-128), Ordering::Greater);
}

#[test]
fn min_and_max_of_two() {
    assert_eq!(<u64 as MinMaxTrait>::min(3, 4), 3);
    assert_eq!(<u64 as MinMaxTrait>::min(4, 3), 3);
    assert_eq!(<u64 as MinMaxTrait>::max(3, 4), 4);
    assert_eq!(<u64 as MinMaxTrait>::max(4, 3), 4);
    assert_eq!(<i8 as MinMaxTrait>::min(-7, 7), -7);
    assert_eq!(<i8 as MinMaxTrait>::max(-7, 7), 7);
    assert_eq!(<u16 as MinMaxTrait>::min(9, 9), 9);
    assert_eq!(<u16 as MinMaxTrait>::max(9, 9), 9);
}

#[test]
fn entries_combine_to_the_outer_pair() {
    let a = SparseTableEntry { min: 3u32, max: 8 };
    let b = SparseTableEntry { min: 5u32, max: 11 };
    let c = a.with_cmp(&b);
    assert_eq!((c.min, c.max), (3, 11));
    let d = b.with_cmp(&a);
    assert_eq!((d.min, d.max), (3, 11));
    let e = a.with_cmp(&a);
    assert_eq!((e.min, e.max), (3, 8));
}

#[test]
fn msb_position_is_the_bit_length() {
    assert_eq!(get_msb_pos(0), 0);
    assert_eq!(get_msb_pos(1), 1);
    assert_eq!(get_msb_pos(2), 2);
    assert_eq!(get_msb_pos(3), 2);
    assert_eq!(get_msb_pos(5), 3);
    assert_eq!(get_msb_pos(255), 8);
    assert_eq!(get_msb_pos(256), 9);
    assert_eq!(get_msb_pos(1 << 63), 64);
    assert_eq!(get_msb_pos(u64::MAX), 64);
}
