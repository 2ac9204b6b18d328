use compact_vector::endian::get_u64;
use compact_vector::endian::put_u64;
use compact_vector::util::fits_in;
use compact_vector::util::max_of;
use compact_vector::util::needed_bits;
use compact_vector::util::words_for;

#[test]
fn needed_bits_of_some_numbers() {
    assert_eq!(needed_bits(0), 1);
    assert_eq!(needed_bits(1), 1);
    assert_eq!(needed_bits(2), 2);
    assert_eq!(needed_bits(3), 2);
    assert_eq!(needed_bits(4), 3);
    assert_eq!(needed_bits(255), 8);
    assert_eq!(needed_bits(256), 9);
    assert_eq!(needed_bits(usize::MAX), usize::BITS as usize);
    assert_eq!(needed_bits(usize::MAX >> 1), usize::BITS as usize - 1);
}

#[test]
fn words_for_some_lengths() {
    assert_eq!(words_for(0), 0);
    assert_eq!(words_for(1), 1);
    assert_eq!(words_for(64), 1);
    assert_eq!(words_for(65), 2);
    assert_eq!(words_for(128), 2);
    assert_eq!(words_for(usize::MAX), usize::MAX / 64 + 1);
}

#[test]
fn fits_in_some_widths() {
    assert!(fits_in(0, 0));
    assert!(!fits_in(1, 0));
    assert!(fits_in(1, 1));
    assert!(!fits_in(2, 1));
    assert!(fits_in(255, 8));
    assert!(!fits_in(256, 8));
    assert!(fits_in(usize::MAX, 64));
    assert!(fits_in(usize::MAX, 1000));
    assert!(!fits_in(usize::MAX, 63));
    assert!(fits_in(usize::MAX >> 1, 63));
}

#[test]
fn max_of_some_slices() {
    assert_eq!(max_of(&[]), 0);
    assert_eq!(max_of(&[3]), 3);
    assert_eq!(max_of(&[3, 9, 2, 9, 1]), 9);
    assert_eq!(max_of(&[0, 0]), 0);
}

#[test]
fn numbers_are_written_least_significant_byte_first() {
    let mut out = vec![9u8];
    put_u64(&mut out, 0x0102_0304_0506_0708);
    assert_eq!(out, vec![9, 8, 7, 6, 5, 4, 3, 2, 1]);
    put_u64(&mut out, 1);
    assert_eq!(out.len(), 17);
    assert_eq!(get_u64(&out, 1), 0x0102_0304_0506_0708);
    assert_eq!(get_u64(&out, 9), 1);
    assert_eq!(get_u64(&out, 2), 0x0101_0203_0405_0607);
}
