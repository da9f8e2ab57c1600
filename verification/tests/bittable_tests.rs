use kanerva::bittable::BitTable;
use kanerva::errors::SdmError;

fn make_bits(bits: &[bool]) -> BitTable {
    let mut bt = BitTable::with_capacity(bits.len());
    for &b in bits {
        bt.push(b);
    }
    bt
}

#[test]
fn mod_test_inline_capacity() {
    assert_eq!(kanerva::bittable::inline_capacity(), 62);
}

#[test]
fn test_storage_widths() {
    assert_eq!(kanerva::bittable::inline_bits(), 64);
    assert_eq!(kanerva::bittable::bits_per_storage(), 64);
}

#[test]
fn test_new_is_empty() {
    let bt = BitTable::new();
    assert_eq!(bt.len(), 0);
    assert!(bt.is_empty());
    assert_eq!(bt.capacity(), 62);
}

#[test]
fn test_push_get_roundtrip_across_boundary() {
    // Spans the inline/heap boundary: capacity - 1, capacity, capacity + 1.
    for n in [61usize, 62, 63, 200] {
        let mut bt = BitTable::new();
        for i in 0..n {
            bt.push(i % 3 == 0);
            assert!(bt.capacity() >= bt.len());
        }
        assert_eq!(bt.len(), n);
        for i in 0..n {
            assert_eq!(bt.get(i).unwrap(), i % 3 == 0, "bit {} of {}", i, n);
        }
    }
}

#[test]
fn test_capacity_after_mutations() {
    let mut bt = BitTable::new();
    for i in 0..100 {
        bt.push(i % 2 == 0);
        assert!(bt.capacity() >= bt.len());
    }
    bt.set(40, true).unwrap();
    assert!(bt.capacity() >= bt.len());
    bt.remove(10).unwrap();
    assert!(bt.capacity() >= bt.len());
    bt.pop().unwrap();
    assert!(bt.capacity() >= bt.len());
    bt.clear();
    assert!(bt.capacity() >= bt.len());
}

#[test]
fn test_get_out_of_range() {
    let bt = make_bits(&[true, false, true]);
    assert_eq!(bt.get(2).unwrap(), true);
    assert_eq!(bt.get(3), Err(SdmError::IndexOutOfRange));
}

#[test]
fn test_set_out_of_range() {
    let mut bt = make_bits(&[true, false]);
    assert_eq!(bt.set(0, false), Ok(()));
    assert_eq!(bt.get(0).unwrap(), false);
    assert_eq!(bt.set(2, true), Err(SdmError::IndexOutOfRange));
}

#[test]
fn test_pop_returns_tail_and_empty_gives_none() {
    let mut bt = make_bits(&[true, false]);
    assert_eq!(bt.pop(), Some(false));
    assert_eq!(bt.pop(), Some(true));
    assert_eq!(bt.pop(), None);
    assert_eq!(bt.len(), 0);
}

#[test]
fn test_remove_shifts_later_bits() {
    let mut bt = make_bits(&[true, false, true, true, false]);
    assert_eq!(bt.remove(1), Ok(false));
    assert_eq!(bt.len(), 4);
    assert_eq!(bt.get(0).unwrap(), true);
    assert_eq!(bt.get(1).unwrap(), true);
    assert_eq!(bt.get(2).unwrap(), true);
    assert_eq!(bt.get(3).unwrap(), false);
    assert_eq!(bt.remove(9), Err(SdmError::IndexOutOfRange));
}

#[test]
fn test_remove_across_word_boundary() {
    let n = 130usize;
    let mut bt = BitTable::with_capacity(n);
    for i in 0..n {
        bt.push(i % 5 == 0);
    }
    assert_eq!(bt.remove(3), Ok(false));
    assert_eq!(bt.len(), n - 1);
    for i in 0..n - 1 {
        let expected = if i < 3 { i % 5 == 0 } else { (i + 1) % 5 == 0 };
        assert_eq!(bt.get(i).unwrap(), expected, "bit {}", i);
    }
}

#[test]
fn test_reserve_grows_and_overflows() {
    let mut bt = make_bits(&[true]);
    let cap = bt.capacity();
    assert_eq!(bt.reserve(1000), Ok(()));
    assert!(bt.capacity() >= 1001);
    assert!(bt.capacity() >= cap);
    assert_eq!(bt.get(0).unwrap(), true);
    assert_eq!(bt.reserve(usize::MAX), Err(SdmError::CapacityOverflow));
}

#[test]
fn test_from_elem_all_true_all_false() {
    for n in [0usize, 5, 62, 63, 300] {
        let ones = BitTable::from_elem(n, true);
        assert_eq!(ones.len(), n);
        assert!(ones.all_true());
        assert_eq!(ones.all_false(), n == 0);
        let zeros = BitTable::from_elem(n, false);
        assert_eq!(zeros.len(), n);
        assert!(zeros.all_false());
        assert_eq!(zeros.all_true(), n == 0);
    }
    let mut mixed = BitTable::from_elem(100, false);
    mixed.set(77, true).unwrap();
    assert!(!mixed.all_false());
    assert!(!mixed.all_true());
}

#[test]
fn test_equals_and_clone() {
    let a = make_bits(&[true, false, true]);
    let b = make_bits(&[true, false, true]);
    let c = make_bits(&[true, false, false]);
    assert!(a.equals(&b));
    assert!(!a.equals(&c));
    assert!(!a.equals(&make_bits(&[true, false])));
    let d = a.clone();
    assert!(a.equals(&d));
    let mut big = BitTable::from_elem(200, true);
    let copy = big.clone();
    big.set(5, false).unwrap();
    assert_eq!(copy.get(5).unwrap(), true);
    assert_eq!(big.get(5).unwrap(), false);
}

#[test]
fn test_distance_exact_and_symmetric() {
    let a = make_bits(&[true, false, true, true]);
    let b = make_bits(&[false, false, true, false]);
    assert_eq!(a.distance(&b), Ok(2));
    assert_eq!(b.distance(&a), Ok(2));
    assert_eq!(a.distance(&a), Ok(0));
    let short = make_bits(&[true]);
    assert_eq!(a.distance(&short), Err(SdmError::LengthMismatch));
}

#[test]
fn test_distance_heap_vectors() {
    let mut a = BitTable::from_elem(128, false);
    let b = BitTable::from_elem(128, false);
    a.set(0, true).unwrap();
    a.set(64, true).unwrap();
    a.set(127, true).unwrap();
    assert_eq!(a.distance(&b), Ok(3));
}

#[test]
fn test_xor_and_or() {
    let a = make_bits(&[true, true, false, false]);
    let b = make_bits(&[true, false, true, false]);
    let x = a.xor(&b).unwrap();
    assert!(x.equals(&make_bits(&[false, true, true, false])));
    let n = a.and(&b).unwrap();
    assert!(n.equals(&make_bits(&[true, false, false, false])));
    let o = a.or(&b).unwrap();
    assert!(o.equals(&make_bits(&[true, true, true, false])));
    let short = make_bits(&[true]);
    assert!(matches!(a.xor(&short), Err(SdmError::LengthMismatch)));
    assert!(matches!(a.and(&short), Err(SdmError::LengthMismatch)));
    assert!(matches!(a.or(&short), Err(SdmError::LengthMismatch)));
}

#[test]
fn test_new_rand_width() {
    let bt = BitTable::new_rand(100);
    assert_eq!(bt.len(), 100);
    let empty = BitTable::new_rand(0);
    assert_eq!(empty.len(), 0);
}

#[test]
fn test_iter_forward_and_back() {
    let bt = make_bits(&[true, false, true]);
    let mut it = bt.iter();
    assert_eq!(it.next(), Some(true));
    assert_eq!(it.next(), Some(false));
    assert_eq!(it.next(), Some(true));
    assert_eq!(it.next(), None);
    let mut back = bt.iter();
    assert_eq!(back.next_back(), Some(true));
    assert_eq!(back.next_back(), Some(false));
    assert_eq!(back.next_back(), Some(true));
    assert_eq!(back.next_back(), None);
}

#[test]
fn test_range_view() {
    let bt = make_bits(&[true, false, true, true, false]);
    let r = bt.range(1..4).unwrap();
    assert_eq!(r.get(0), Ok(false));
    assert_eq!(r.get(1), Ok(true));
    assert_eq!(r.get(2), Ok(true));
    assert_eq!(r.get(3), Err(SdmError::IndexOutOfRange));
    let mut it = r.iter();
    assert_eq!(it.next(), Some(false));
    assert_eq!(it.next(), Some(true));
    assert_eq!(it.next(), Some(true));
    assert_eq!(it.next(), None);
    assert!(bt.range(3..6).is_err());
}
