use split_ordered::growable_array::{get_bits_at, get_msb_index, height_for, GrowableArray};

#[test]
fn new_array_is_empty() {
    let a = GrowableArray::<u64>::new();
    assert_eq!(a.get(0), None);
    assert_eq!(a.get(12345), None);
    assert_eq!(a.get(usize::MAX), None);
}

#[test]
fn set_then_get() {
    let mut a = GrowableArray::<u64>::new();
    a.set(1, 10);
    assert_eq!(a.get(1), Some(10));
    assert_eq!(a.get(0), None);
    a.set(0b111011, 20);
    assert_eq!(a.get(0b111011), Some(20));
    assert_eq!(a.get(1), Some(10));
    a.set(0b000110, 30);
    assert_eq!(a.get(0b000110), Some(30));
    assert_eq!(a.get(0b111011), Some(20));
    assert_eq!(a.get(1), Some(10));
}

#[test]
fn growth_keeps_values() {
    let mut a = GrowableArray::<u64>::new();
    a.set(5, 1);
    a.set(1 << 20, 2);
    a.set(1 << 40, 3);
    a.set(usize::MAX, 4);
    assert_eq!(a.get(5), Some(1));
    assert_eq!(a.get(1 << 20), Some(2));
    assert_eq!(a.get(1 << 40), Some(3));
    assert_eq!(a.get(usize::MAX), Some(4));
    assert_eq!(a.get((1 << 40) + 5), None);
    a.set(5, 9);
    assert_eq!(a.get(5), Some(9));
}

#[test]
fn bits_at_levels() {
    assert_eq!(get_bits_at(0b1011_0000000011, 0), 3);
    assert_eq!(get_bits_at(0b1011_0000000011, 1), 0b1011);
    assert_eq!(get_bits_at(u64::MAX, 6), 15);
}

#[test]
fn msb_and_height() {
    assert_eq!(get_msb_index(0), 0);
    assert_eq!(get_msb_index(1), 1);
    assert_eq!(get_msb_index(1023), 10);
    assert_eq!(get_msb_index(1024), 11);
    assert_eq!(get_msb_index(u64::MAX), 64);
    assert_eq!(height_for(0), 1);
    assert_eq!(height_for(1023), 1);
    assert_eq!(height_for(1024), 2);
    assert_eq!(height_for(1 << 30), 4);
    assert_eq!(height_for(u64::MAX), 7);
}

#[test]
fn default_array_is_empty() {
    let a: GrowableArray<u64> = Default::default();
    assert_eq!(a.get(7), None);
}
