use compact_vector::BitVector;
use compact_vector::CompactVector;
use compact_vector::Error;

fn le(n: u64) -> Vec<u8> {
    n.to_le_bytes().to_vec()
}

#[test]
fn compact_vector_bytes_are_as_documented() {
    let cv = CompactVector::from_slice(&[5, 256, 0, 10]).unwrap();
    let mut bytes = vec![0xaa];
    let size = cv.serialize_into(&mut bytes);
    // 4 elements of 9 bits: 36 bits in one word.
    let word: u64 = 5 | (256 << 9) | (0 << 18) | (10 << 27);
    let mut expected = vec![0xaa];
    expected.extend(le(1));
    expected.extend(le(word));
    expected.extend(le(36));
    expected.extend(le(4));
    expected.extend(le(9));
    assert_eq!(bytes, expected);
    assert_eq!(size, 40);
    assert_eq!(cv.size_in_bytes(), 40);
    assert_eq!(
        &bytes[1..],
        &[
            1, 0, 0, 0, 0, 0, 0, 0, 0x05, 0x00, 0x02, 0x50, 0, 0, 0, 0, 36, 0, 0, 0, 0, 0, 0, 0, 4,
            0, 0, 0, 0, 0, 0, 0, 9, 0, 0, 0, 0, 0, 0, 0
        ][..]
    );
}

#[test]
fn deserialize_reads_documented_bytes() {
    let mut bytes = vec![];
    bytes.extend(le(2));
    bytes.extend(le(0x0123_4567_89ab_cdef));
    bytes.extend(le(0xff));
    bytes.extend(le(72));
    bytes.extend(le(9));
    bytes.extend(le(8));
    let cv = CompactVector::deserialize_from(&bytes).unwrap();
    assert_eq!(cv.len(), 9);
    assert_eq!(cv.width(), 8);
    assert_eq!(cv.to_vec(), vec![0xef, 0xcd, 0xab, 0x89, 0x67, 0x45, 0x23, 0x01, 0xff]);
}

#[test]
fn deserialize_ignores_what_follows() {
    let cv = CompactVector::from_slice(&[7, 8, 9]).unwrap();
    let mut bytes = vec![];
    let size = cv.serialize_into(&mut bytes);
    bytes.extend([1, 2, 3, 4, 5]);
    let other = CompactVector::deserialize_from(&bytes).unwrap();
    assert_eq!(other, cv);
    assert_eq!(other.size_in_bytes(), size);
    assert_eq!(CompactVector::frame_len(&bytes), Ok(size));
    assert_eq!(CompactVector::frame_len(&bytes[..8]), Ok(size));
}

#[test]
fn two_vectors_in_a_row() {
    let a = CompactVector::from_slice(&[1, 2, 3]).unwrap();
    let b = CompactVector::from_slice(&[1000, 0]).unwrap();
    let mut bytes = vec![];
    let first = a.serialize_into(&mut bytes);
    let second = b.serialize_into(&mut bytes);
    assert_eq!(bytes.len(), first + second);
    let x = CompactVector::deserialize_from(&bytes).unwrap();
    let y = CompactVector::deserialize_from(&bytes[x.size_in_bytes()..]).unwrap();
    assert_eq!(x, a);
    assert_eq!(y, b);
}

#[test]
fn serialize_round_trip_of_edge_widths() {
    for cv in [
        CompactVector::new(0),
        CompactVector::new(64),
        CompactVector::with_len(1000, 0),
        CompactVector::with_len(3, 64),
        CompactVector::from_slice(&[usize::MAX, 1, 0]).unwrap(),
        CompactVector::from_slice(&[0]).unwrap(),
    ] {
        let mut bytes = vec![];
        let size = cv.serialize_into(&mut bytes);
        assert_eq!(size, bytes.len());
        assert_eq!(size, cv.size_in_bytes());
        let other = CompactVector::deserialize_from(&bytes).unwrap();
        assert_eq!(other.len(), cv.len());
        assert_eq!(other.width(), cv.width());
        assert_eq!(other.to_vec(), cv.to_vec());
        assert_eq!(other, cv);
    }
}

#[test]
fn deserialize_of_cut_bytes_is_unexpected_eof() {
    let cv = CompactVector::from_slice(&[5, 256, 0, 10]).unwrap();
    let mut bytes = vec![];
    cv.serialize_into(&mut bytes);
    for cut in 0..bytes.len() {
        assert_eq!(CompactVector::deserialize_from(&bytes[..cut]), Err(Error::UnexpectedEof));
    }
    assert_eq!(CompactVector::deserialize_from(&bytes), Ok(cv));
    assert_eq!(CompactVector::frame_len(&bytes[..7]), Err(Error::UnexpectedEof));
    assert_eq!(CompactVector::frame_len(&le(u64::MAX)), Err(Error::UnexpectedEof));
}

fn frame(words: &[u64], bits: u64, len: u64, width: u64) -> Vec<u8> {
    let mut bytes = le(words.len() as u64);
    for &w in words {
        bytes.extend(le(w));
    }
    bytes.extend(le(bits));
    bytes.extend(le(len));
    bytes.extend(le(width));
    bytes
}

#[test]
fn deserialize_of_disagreeing_lengths_is_malformed() {
    assert_eq!(CompactVector::deserialize_from(&frame(&[0x155], 9, 1, 9)).unwrap().to_vec(), vec![0x155]);
    // more elements than bits
    assert_eq!(CompactVector::deserialize_from(&frame(&[0x155], 9, 2, 9)), Err(Error::MalformedData));
    // another width than the bits were written with
    assert_eq!(CompactVector::deserialize_from(&frame(&[0x155], 9, 1, 8)), Err(Error::MalformedData));
    // a width beyond a word
    assert_eq!(CompactVector::deserialize_from(&frame(&[], 0, 0, 65)), Err(Error::MalformedData));
    // bits without a width
    assert_eq!(CompactVector::deserialize_from(&frame(&[1], 1, 1, 0)), Err(Error::MalformedData));
    // more words than the bits need
    assert_eq!(CompactVector::deserialize_from(&frame(&[0x155, 0], 9, 1, 9)), Err(Error::MalformedData));
    // fewer words than the bits need
    assert_eq!(CompactVector::deserialize_from(&frame(&[0x155], 65, 5, 13)), Err(Error::MalformedData));
    // a bit set beyond the length
    assert_eq!(CompactVector::deserialize_from(&frame(&[0x355], 9, 1, 9)), Err(Error::MalformedData));
    // products that would wrap
    assert_eq!(
        CompactVector::deserialize_from(&frame(&[], 0, 1 << 60, 16)),
        Err(Error::MalformedData)
    );
    // nothing at all, of any width
    assert_eq!(CompactVector::deserialize_from(&frame(&[], 0, 0, 64)).unwrap().width(), 64);
    assert_eq!(CompactVector::deserialize_from(&frame(&[], 0, 12, 0)).unwrap().len(), 12);
}

#[test]
fn bit_vector_reads_and_writes_across_words() {
    let mut bv = BitVector::with_len(200);
    assert_eq!(bv.len(), 200);
    assert_eq!(bv.get_bits(0, 64), 0);
    bv.set_bits(60, 0xabc, 12);
    assert_eq!(bv.get_bits(60, 12), 0xabc);
    assert_eq!(bv.get_bits(56, 20), 0xabc0);
    assert_eq!(bv.get_bits(64, 8), 0xab);
    assert_eq!(bv.get_bits(0, 64), 0xc << 60);
    bv.set_bits(100, u64::MAX, 64);
    assert_eq!(bv.get_bits(100, 64), u64::MAX);
    assert_eq!(bv.get_bits(99, 64), u64::MAX << 1);
    assert_eq!(bv.get_bits(101, 64), u64::MAX >> 1);
    bv.set_bits(110, 0, 3);
    assert_eq!(bv.get_bits(100, 64), u64::MAX & !(7 << 10));
    bv.set_bits(64, 0xffff, 4);
    assert_eq!(bv.get_bits(60, 12), 0xafc);
    assert_eq!(bv.get_bits(10, 0), 0);
    bv.set_bits(10, 0xff, 0);
    assert_eq!(bv.get_bits(0, 60), 0);
}

#[test]
fn bit_vector_push_and_equality() {
    let mut bv = BitVector::new();
    let mut sized = BitVector::with_capacity(1000);
    assert_eq!(bv, sized);
    assert_eq!(bv, BitVector::default());
    for i in 0..50u64 {
        bv.push_bits(i * 0x1111, 13);
        sized.push_bits(i * 0x1111, 13);
    }
    assert_eq!(bv.len(), 650);
    assert_eq!(bv, sized);
    for i in 0..50usize {
        assert_eq!(bv.get_bits(i * 13, 13), (i as u64 * 0x1111) & 0x1fff);
    }
    bv.push_bits(0xff, 0);
    assert_eq!(bv.len(), 650);
    bv.push_bits(1, 1);
    assert_ne!(bv, sized);
    let mut filled = BitVector::with_len(651);
    for i in 0..50usize {
        filled.set_bits(i * 13, i as u64 * 0x1111, 13);
    }
    filled.set_bits(650, 1, 1);
    assert_eq!(bv, filled);
}

#[test]
fn bit_vector_serialization() {
    let mut bv = BitVector::new();
    bv.push_bits(0x0123_4567_89ab_cdef, 64);
    bv.push_bits(0x5, 3);
    let mut bytes = vec![];
    let size = bv.serialize_into(&mut bytes);
    let mut expected = le(2);
    expected.extend(le(0x0123_4567_89ab_cdef));
    expected.extend(le(5));
    expected.extend(le(67));
    assert_eq!(bytes, expected);
    assert_eq!(size, 32);
    assert_eq!(bv.size_in_bytes(), 32);
    assert_eq!(BitVector::deserialize_from(&bytes), Ok(bv));
    assert_eq!(BitVector::deserialize_from(&bytes[..31]), Err(Error::UnexpectedEof));
    assert_eq!(BitVector::deserialize_from(&bytes[..7]), Err(Error::UnexpectedEof));
    let mut stray = le(1);
    stray.extend(le(8));
    stray.extend(le(3));
    assert_eq!(BitVector::deserialize_from(&stray), Err(Error::MalformedData));
    let mut empty = le(0);
    empty.extend(le(0));
    assert_eq!(BitVector::deserialize_from(&empty).unwrap().len(), 0);
}
