use kanerva::address_space::AddressSpace;
use kanerva::bittable::BitTable;
use kanerva::errors::SdmError;
use kanerva::SDM;

const HARDLOC: usize = 10;
const WIDTH: usize = 256;

fn from_bits(bits: &[bool]) -> BitTable {
    let mut bt = BitTable::with_capacity(bits.len());
    for &b in bits {
        bt.push(b);
    }
    bt
}

/// An engine of width 8 with 4 known hard locations around
/// `v = [1,0,1,0,1,0,1,0]`: location 0 at distance 1 of `v`, the others at
/// distance at least 2.
fn small_engine() -> (SDM, BitTable) {
    let v = from_bits(&[true, false, true, false, true, false, true, false]);
    let mut s = SDM::new(8, 4);
    let mut a0 = v.clone();
    a0.set(0, false).unwrap(); // distance 1
    let a1 = from_bits(&[false, true, false, true, false, true, false, true]); // distance 8
    let mut a2 = v.clone();
    a2.set(0, false).unwrap();
    a2.set(1, true).unwrap(); // distance 2
    let mut a3 = v.clone();
    a3.set(2, false).unwrap();
    a3.set(3, true).unwrap(); // distance 2
    s.set_address(0, &a0).unwrap();
    s.set_address(1, &a1).unwrap();
    s.set_address(2, &a2).unwrap();
    s.set_address(3, &a3).unwrap();
    (s, v)
}

#[test]
fn test_address_space_new() {
    let a: AddressSpace = AddressSpace::new(HARDLOC, WIDTH);
    println!("address_space_new() = {}", a.len());
    assert_eq!(a.len(), HARDLOC);
}

#[test]
fn test_address_space_radius_counter() {
    let a: AddressSpace = AddressSpace::new(HARDLOC, WIDTH);
    let bt: BitTable = BitTable::new_rand(WIDTH);
    let radius: usize = 64;
    let c = a.radius_counter(&bt, radius).unwrap();
    println!("radius({}) >= {}", radius, c);
}

#[test]
fn test_address_space_radius_fit() {
    let a: AddressSpace = AddressSpace::new(HARDLOC, WIDTH);
    let bt: BitTable = BitTable::new_rand(WIDTH);
    let radius: usize = 64;
    let c: Vec<usize> = a.radius_fit(&bt, radius).unwrap();
    println!("\nradius >= {:?}.len()", c.len());
}

#[test]
fn test_address_space_get_set() {
    let mut a = AddressSpace::new(3, 8);
    let bt = from_bits(&[true; 8]);
    a.set(1, &bt).unwrap();
    assert!(a.get(1).unwrap().equals(&bt));
    assert!(matches!(a.get(3), Err(SdmError::IndexOutOfRange)));
    assert_eq!(a.set(3, &bt).unwrap_err(), SdmError::IndexOutOfRange);
    let short = from_bits(&[true; 4]);
    assert_eq!(a.set(0, &short).unwrap_err(), SdmError::LengthMismatch);
    assert!(matches!(a.radius_fit(&short, 1), Err(SdmError::LengthMismatch)));
    assert_eq!(a.radius_counter(&short, 1).unwrap_err(), SdmError::LengthMismatch);
}

#[test]
fn test_full_radius_selects_all_locations() {
    // Radius equal to the full width selects every hard location.
    let a = AddressSpace::new(4, 8);
    let q = BitTable::new_rand(8);
    let selected = a.radius_fit(&q, 8).unwrap();
    assert_eq!(selected, vec![0usize, 1, 2, 3]);
    assert_eq!(a.radius_counter(&q, 8).unwrap(), 4);
}

#[test]
fn test_zero_radius_can_select_nothing() {
    // Radius 0 with no exact match returns the empty set.
    let (s, v) = small_engine();
    let selected = s.scan(&v, 0).unwrap();
    assert_eq!(selected, Vec::<usize>::new());
}

#[test]
fn test_scan_known_selection() {
    let (s, v) = small_engine();
    assert_eq!(s.scan(&v, 1).unwrap(), vec![0usize]);
    assert_eq!(s.scan(&v, 2).unwrap(), vec![0usize, 2, 3]);
    assert_eq!(s.scan(&v, 8).unwrap(), vec![0usize, 1, 2, 3]);
}

#[test]
fn test_scan_is_repeatable() {
    // Two consecutive scans with identical arguments return identical
    // results, and scanning mutates nothing.
    let s = SDM::new(WIDTH, HARDLOC);
    let q = BitTable::new_rand(WIDTH);
    let first = s.scan(&q, 120).unwrap();
    let second = s.scan(&q, 120).unwrap();
    assert_eq!(first, second);
}

#[test]
fn test_xor_in_place() {
    let a = AddressSpace::new(1, 4);
    let out = a.xor_in_place(&[true, true, false, false], &[true, false, true, false]);
    assert_eq!(out, vec![false, true, true, false]);
}

#[test]
fn test_sdm_new() {
    let s: SDM = SDM::new(WIDTH, HARDLOC);
    assert_eq!(s.dim(), WIDTH);
    assert_eq!(s.hardloc(), HARDLOC);
}

#[test]
fn test_sdm_scan() {
    let bt = BitTable::new_rand(WIDTH);
    let radius: usize = 128;
    let s: SDM = SDM::new(WIDTH, HARDLOC);
    let _v = s.scan(&bt, radius).unwrap();
    assert_eq!(s.dim(), WIDTH);
}

#[test]
fn test_sdm_write() {
    let bt = BitTable::new_rand(WIDTH);
    let radius: usize = 128;
    let mut s: SDM = SDM::new(WIDTH, HARDLOC);
    let _ = s.write(&bt, radius).unwrap();
    assert_eq!(s.dim(), WIDTH);
}

#[test]
fn test_sdm_read() {
    let bt = BitTable::new_rand(WIDTH);
    let radius: usize = 36;
    let mut s: SDM = SDM::new(WIDTH, HARDLOC);
    s.write(&bt, radius).unwrap();
    match s.read(&bt, radius) {
        Ok(v) => {
            let x = bt.distance(&v).unwrap();
            println!("READ distance = {}", x);
        },
        Err(e) => {
            // Random 256-bit addresses normally all lie farther than 36 bits
            // from the query, and an empty selection is reported, not hidden.
            assert_eq!(e, SdmError::NoMatch);
        },
    }
}

#[test]
fn test_recall_single_location() {
    // End-to-end recall: exactly one hard location within radius 1 of v, so
    // after one write every selected counter carries v's sign and the read
    // returns v exactly, with no ties.
    let (mut s, v) = small_engine();
    s.write(&v, 1).unwrap();
    let out = s.read(&v, 1).unwrap();
    assert!(out.equals(&v));
}

#[test]
fn test_repeated_write_keeps_recall() {
    // Writing the same vector again only deepens the polarization: the
    // thresholded read is unchanged.
    let (mut s, v) = small_engine();
    s.write(&v, 1).unwrap();
    let first = s.read(&v, 1).unwrap();
    s.write(&v, 1).unwrap();
    let second = s.read(&v, 1).unwrap();
    assert!(first.equals(&v));
    assert!(second.equals(&v));
}

#[test]
fn test_write_only_touches_selected_rows() {
    let (mut s, v) = small_engine();
    s.write(&v, 1).unwrap();
    // Only location 0 was within radius 1; its row moved toward v, all other
    // rows are still zero, which a wider read then sums alone.
    let wide = s.scan(&v, 8).unwrap();
    assert_eq!(wide, vec![0usize, 1, 2, 3]);
    let out = s.read(&v, 8).unwrap();
    assert!(out.equals(&v));
}

#[test]
fn test_engine_errors() {
    let (mut s, _v) = small_engine();
    let short = from_bits(&[true; 4]);
    assert_eq!(s.scan(&short, 1).unwrap_err(), SdmError::LengthMismatch);
    assert_eq!(s.write(&short, 1).unwrap_err(), SdmError::LengthMismatch);
    assert!(matches!(s.read(&short, 1), Err(SdmError::LengthMismatch)));
    let far = from_bits(&[false, true, false, true, false, true, false, true]);
    assert_eq!(s.set_address(9, &far).unwrap_err(), SdmError::IndexOutOfRange);
    assert_eq!(s.set_address(0, &short).unwrap_err(), SdmError::LengthMismatch);
    assert!(matches!(s.get_address(9), Err(SdmError::IndexOutOfRange)));
}

#[test]
fn test_read_no_match() {
    let v = from_bits(&[true, false, true, false, true, false, true, false]);
    let far = from_bits(&[false, true, false, true, false, true, false, true]);
    let mut s = SDM::new(8, 1);
    s.set_address(0, &far).unwrap();
    assert!(matches!(s.read(&v, 0), Err(SdmError::NoMatch)));
}
