use compact_vector::CompactVector;
use compact_vector::Error;
use rand::Rng;
use rand::SeedableRng;
use rand_chacha::ChaChaRng;

fn gen_random_ints(len: usize, seed: u64) -> Vec<usize> {
    let mut rng = ChaChaRng::seed_from_u64(seed);
    (0..len).map(|_| rng.gen_range(0..10000)).collect()
}

fn test_basic(ints: &[usize], list: &CompactVector) {
    for (i, &x) in ints.iter().enumerate() {
        assert_eq!(x, list.get(i));
    }
    assert_eq!(ints.len(), list.len());
}

#[test]
fn test_random_ints() {
    for seed in 0..100 {
        let ints = gen_random_ints(10000, seed);
        let list = CompactVector::from_slice(&ints).unwrap();
        test_basic(&ints, &list);
    }
}

#[test]
fn test_serialize() {
    let mut bytes = vec![];
    let cv = CompactVector::from_slice(&gen_random_ints(10000, 42)).unwrap();
    let size = cv.serialize_into(&mut bytes);
    let other = CompactVector::deserialize_from(&bytes[..]).unwrap();
    assert_eq!(cv, other);
    assert_eq!(size, bytes.len());
}

#[test]
fn from_slice_keeps_values_and_picks_width() {
    let cv = CompactVector::from_slice(&[5, 256, 0, 10]).unwrap();
    assert_eq!(cv.width(), 9);
    assert_eq!(cv.len(), 4);
    assert!(!cv.is_empty());
    assert_eq!(cv.get(0), 5);
    assert_eq!(cv.get(1), 256);
    assert_eq!(cv.get(2), 0);
    assert_eq!(cv.get(3), 10);
    assert_eq!(cv.to_vec(), vec![5, 256, 0, 10]);
}

#[test]
fn from_slice_of_nothing_is_an_error() {
    assert_eq!(CompactVector::from_slice(&[]), Err(Error::EmptyInput));
}

#[test]
fn from_slice_of_zeros_takes_one_bit_each() {
    let cv = CompactVector::from_slice(&[0, 0, 0]).unwrap();
    assert_eq!(cv.width(), 1);
    assert_eq!(cv.to_vec(), vec![0, 0, 0]);
}

#[test]
fn from_slice_width_is_least() {
    for (max, width) in [(1usize, 1usize), (2, 2), (3, 2), (4, 3), (255, 8), (256, 9), (9999, 14)] {
        let cv = CompactVector::from_slice(&[0, max, 1]).unwrap();
        assert_eq!(cv.width(), width);
        assert!(max < 1usize << width);
        assert!(max >= 1usize << (width - 1));
        assert_eq!(cv.to_vec(), vec![0, max, 1]);
    }
}

#[test]
fn from_slice_of_full_words() {
    let ints = [usize::MAX, 0, 1, usize::MAX - 1, 1 << 63];
    let cv = CompactVector::from_slice(&ints).unwrap();
    assert_eq!(cv.width(), 64);
    assert_eq!(cv.to_vec(), ints.to_vec());
}

#[test]
fn with_len_then_set() {
    let mut cv = CompactVector::with_len(2, 8);
    assert_eq!(cv.to_vec(), vec![0, 0]);
    cv.set(0, 10);
    cv.set(1, 255);
    assert_eq!(cv.get(0), 10);
    assert_eq!(cv.get(1), 255);
    assert_eq!(cv.len(), 2);
    assert_eq!(cv.width(), 8);
}

#[test]
fn new_then_push() {
    let mut cv = CompactVector::new(8);
    assert!(cv.is_empty());
    cv.push(10);
    assert_eq!(cv.len(), 1);
    assert_eq!(cv.width(), 8);
    cv.push(255);
    assert_eq!(cv.len(), 2);
    assert_eq!(cv.width(), 8);
    assert_eq!(cv.get(0), 10);
    assert_eq!(cv.get(1), 255);
}

#[test]
fn set_leaves_the_other_elements() {
    let ints: Vec<usize> = (0..200).map(|i| (i * 37) % 8192).collect();
    let mut cv = CompactVector::from_slice(&ints).unwrap();
    assert_eq!(cv.width(), 13);
    for pos in [0usize, 4, 5, 63, 64, 100, 199] {
        let mut expected = cv.to_vec();
        expected[pos] = 8191 - expected[pos];
        cv.set(pos, expected[pos]);
        assert_eq!(cv.to_vec(), expected);
        assert_eq!(cv.len(), 200);
        assert_eq!(cv.width(), 13);
    }
}

#[test]
fn set_and_push_cut_a_wide_value_down() {
    let mut cv = CompactVector::with_len(3, 4);
    cv.set(0, 15);
    cv.set(2, 15);
    cv.set(1, 0x1f5);
    assert_eq!(cv.to_vec(), vec![15, 5, 15]);
    cv.push(0x123);
    cv.push(7);
    assert_eq!(cv.to_vec(), vec![15, 5, 15, 3, 7]);
}

#[test]
fn checked_accessors_report_errors() {
    let mut cv = CompactVector::with_len(2, 8);
    assert_eq!(cv.try_set(0, 10), Ok(()));
    assert_eq!(cv.try_set(1, 255), Ok(()));
    assert_eq!(cv.try_set(1, 256), Err(Error::ValueOverflow));
    assert_eq!(cv.try_set(2, 1), Err(Error::OutOfBounds));
    assert_eq!(cv.try_set(2, 256), Err(Error::OutOfBounds));
    assert_eq!(cv.try_get(0), Ok(10));
    assert_eq!(cv.try_get(1), Ok(255));
    assert_eq!(cv.try_get(2), Err(Error::OutOfBounds));
    assert_eq!(cv.try_push(256), Err(Error::ValueOverflow));
    assert_eq!(cv.to_vec(), vec![10, 255]);
    assert_eq!(cv.try_push(3), Ok(()));
    assert_eq!(cv.to_vec(), vec![10, 255, 3]);
}

#[test]
fn width_zero_holds_zeros() {
    let mut cv = CompactVector::new(0);
    cv.push(0);
    cv.push(17);
    assert_eq!(cv.len(), 2);
    assert_eq!(cv.to_vec(), vec![0, 0]);
    assert_eq!(cv.try_push(1), Err(Error::ValueOverflow));
    assert_eq!(cv.try_push(0), Ok(()));
    assert_eq!(cv.len(), 3);
    let cv = CompactVector::with_len(5, 0);
    assert_eq!(cv.to_vec(), vec![0; 5]);
}

#[test]
fn width_of_a_word() {
    let mut cv = CompactVector::new(64);
    for i in 0..10usize {
        cv.push(usize::MAX - i);
    }
    for i in 0..10usize {
        assert_eq!(cv.get(i), usize::MAX - i);
    }
    assert_eq!(cv.try_push(usize::MAX), Ok(()));
}

#[test]
fn odd_widths_cross_word_boundaries() {
    for width in [1usize, 3, 7, 13, 31, 33, 63] {
        let limit: usize = 1 << width;
        let ints: Vec<usize> = (0..300usize).map(|i| (i.wrapping_mul(0x9e37_79b9_7f4a_7c15)) % limit).collect();
        let mut cv = CompactVector::new(width);
        for &x in &ints {
            cv.push(x);
        }
        assert_eq!(cv.to_vec(), ints);
        let mut filled = CompactVector::with_len(ints.len(), width);
        for (i, &x) in ints.iter().enumerate().rev() {
            filled.set(i, x);
        }
        assert_eq!(filled, cv);
    }
}

#[test]
fn capacity_does_not_show() {
    let ints = gen_random_ints(100, 7);
    let mut plain = CompactVector::new(14);
    let mut roomy = CompactVector::with_capacity(100, 14);
    assert_eq!(roomy.len(), 0);
    assert!(roomy.is_empty());
    assert_eq!(roomy.width(), 14);
    assert_eq!(plain, roomy);
    for &x in &ints {
        plain.push(x);
        roomy.push(x);
        assert_eq!(plain.len(), roomy.len());
        assert_eq!(plain, roomy);
    }
    assert_eq!(roomy.to_vec(), ints);
    let mut a = vec![];
    let mut b = vec![];
    plain.serialize_into(&mut a);
    roomy.serialize_into(&mut b);
    assert_eq!(a, b);
}

#[test]
fn default_is_empty_with_width_zero() {
    let cv = CompactVector::default();
    assert_eq!(cv.len(), 0);
    assert_eq!(cv.width(), 0);
    assert_eq!(cv, CompactVector::new(0));
}

#[test]
fn equality_is_by_elements_and_width() {
    let a = CompactVector::from_slice(&[1, 2, 3]).unwrap();
    let mut b = CompactVector::new(2);
    b.push(1);
    b.push(2);
    assert_ne!(a, b);
    b.push(3);
    assert_eq!(a, b);
    let mut c = CompactVector::new(3);
    c.push(1);
    c.push(2);
    c.push(3);
    assert_ne!(a, c);
    b.set(1, 0);
    assert_ne!(a, b);
}
