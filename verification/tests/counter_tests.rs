use kanerva::bittable::BitTable;
use kanerva::counter::{pos, Counter};
use kanerva::errors::SdmError;

const HARDLOC: usize = 10;
const WIDTH: usize = 256;

#[test]
fn test_counter_size() {
    println!(
        "size_of<Counter({},{})> = {} in B.\n",
        HARDLOC,
        WIDTH,
        std::mem::size_of::<Counter>()
    );
    assert_eq!(40, std::mem::size_of::<Counter>());
}

#[test]
fn test_counter_pos() {
    let mut v: usize;
    let _: Counter = Counter::new(HARDLOC, WIDTH);
    for index in 0..HARDLOC {
        v = pos(index, 0, WIDTH);
        assert_eq!(v, index * WIDTH);
    }
}

#[test]
fn test_counter_len() {
    let c: Counter = Counter::new(HARDLOC, WIDTH);
    assert_eq!(WIDTH * HARDLOC, c.len());
}

#[test]
fn test_counter_get() {
    let mut cont: Counter = Counter::new(HARDLOC, WIDTH);
    let index = HARDLOC - 1;
    let i = WIDTH - 1;
    cont.set(index, i, true).unwrap();
    let ci1 = cont.get(index, i).unwrap();
    assert_eq!(ci1, 1);
    cont.set(index, i, true).unwrap();
    let ci2 = cont.get(index, i).unwrap();
    assert_eq!(ci2, 2);
    cont.set(index, i, false).unwrap();
    let ci3 = cont.get(index, i).unwrap();
    assert_eq!(ci3, 1);
}

#[test]
fn test_counter_get_counters() {
    let mut cont: Counter = Counter::new(HARDLOC, WIDTH);
    cont.set(0, 0, true).unwrap();
    let mut v: Vec<i16>;
    for index in 0..HARDLOC {
        v = cont.get_counters(index).unwrap();
        assert_eq!(v.len(), WIDTH);
    }
}

#[test]
fn test_counter_input() {
    let bt = BitTable::new_rand(WIDTH);
    let mut c: Counter = Counter::new(HARDLOC, WIDTH);
    for index in 0..HARDLOC {
        c.input(index, &bt).unwrap();
    }
}

#[test]
fn test_counter_input_row_values() {
    let mut bt = BitTable::from_elem(4, false);
    bt.set(1, true).unwrap();
    bt.set(3, true).unwrap();
    let mut c = Counter::new(2, 4);
    c.input(1, &bt).unwrap();
    assert_eq!(c.get_counters(0).unwrap(), vec![0i16, 0, 0, 0]);
    assert_eq!(c.get_counters(1).unwrap(), vec![-1i16, 1, -1, 1]);
    c.input(1, &bt).unwrap();
    assert_eq!(c.get_counters(1).unwrap(), vec![-2i16, 2, -2, 2]);
}

#[test]
fn test_counter_saturation() {
    // More bumps in one direction than the counter can represent: it stays
    // clamped at the bound instead of wrapping.
    let mut c = Counter::new(1, 2);
    for _ in 0..40000usize {
        c.set(0, 0, true).unwrap();
        c.set(0, 1, false).unwrap();
    }
    assert_eq!(c.get(0, 0).unwrap(), i16::MAX);
    assert_eq!(c.get(0, 1).unwrap(), i16::MIN);
    c.set(0, 0, true).unwrap();
    c.set(0, 1, false).unwrap();
    assert_eq!(c.get(0, 0).unwrap(), i16::MAX);
    assert_eq!(c.get(0, 1).unwrap(), i16::MIN);
}

#[test]
fn test_counter_errors() {
    let mut c = Counter::new(2, 4);
    assert_eq!(c.get(2, 0).unwrap_err(), SdmError::IndexOutOfRange);
    assert_eq!(c.get(0, 4).unwrap_err(), SdmError::IndexOutOfRange);
    assert_eq!(c.set(2, 0, true).unwrap_err(), SdmError::IndexOutOfRange);
    assert_eq!(c.get_counters(2).unwrap_err(), SdmError::IndexOutOfRange);
    let bt = BitTable::from_elem(3, true);
    assert_eq!(c.input(0, &bt).unwrap_err(), SdmError::LengthMismatch);
    assert_eq!(c.input(9, &bt).unwrap_err(), SdmError::IndexOutOfRange);
}
