use split_ordered::bits::reverse_bits;

#[test]
fn reverse_bits_values() {
    assert_eq!(reverse_bits(0), 0);
    assert_eq!(reverse_bits(1), 1u64 << 63);
    assert_eq!(reverse_bits(0x8000000000000000), 1);
    assert_eq!(reverse_bits(0b1011), 0b1101u64 << 60);
    assert_eq!(reverse_bits(0x0123456789abcdef), 0x0123456789abcdefu64.reverse_bits());
    assert_eq!(reverse_bits(u64::MAX), u64::MAX);
}
