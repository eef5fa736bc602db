use sudoku::cell::{
    cell, decimal_string, digit_text, digits, validate, BoolHashMapFromIterator,
    BoolHashSetFromIterator, SolveError,
};

#[test]
fn validate_accepts_distinct_digits() {
    assert!(validate(&[1, 2, 3]));
    assert!(validate(&[9, 8, 7, 6, 5, 4, 3, 2, 1]));
    assert!(validate(&[]));
}

#[test]
fn validate_rejects_repeats() {
    assert!(!validate(&[1, 1]));
    assert!(!validate(&[4, 2, 4]));
    assert!(!validate(&[9, 1, 2, 3, 4, 5, 6, 7, 9]));
}

#[test]
fn set_from_values_drops_repeats() {
    let s = BoolHashSetFromIterator(&[3, 1, 3]);
    assert_eq!(s.len(), 2);
    assert!(s.contains(&1));
    assert!(s.contains(&3));
    assert!(!s.contains(&2));
}

#[test]
fn map_from_values_sends_each_to_true() {
    let m = BoolHashMapFromIterator(&[2, 5, 2]);
    assert_eq!(m.len(), 2);
    assert_eq!(m.get(&2), Some(&true));
    assert_eq!(m.get(&5), Some(&true));
    assert_eq!(m.get(&7), None);
}

#[test]
fn digits_are_one_to_nine() {
    assert_eq!(digits(), vec![1, 2, 3, 4, 5, 6, 7, 8, 9]);
}

#[test]
fn decimal_text_of_bytes() {
    assert_eq!(digit_text(7), "7");
    assert_eq!(decimal_string(0), "0");
    assert_eq!(decimal_string(45), "45");
    assert_eq!(decimal_string(200), "200");
    assert_eq!(decimal_string(255), "255");
}

#[test]
fn new_cell_may_take_any_digit() {
    let c = cell::new(2, 3);
    assert_eq!(c.m_x, 2);
    assert_eq!(c.m_y, 3);
    assert_eq!(c.Possibles(), vec![1, 2, 3, 4, 5, 6, 7, 8, 9]);
    assert!(!c.IsKnown());
    assert!(c.validate());
    assert_eq!(c.Known(), Err(SolveError::ValueNotKnown));
    assert_eq!(c.to_string(), "x");
}

#[test]
fn set_known_fixes_the_value() {
    let mut c = cell::new(0, 0);
    c.SetKnownTo(5);
    assert!(c.IsKnown());
    assert!(c.validate());
    assert_eq!(c.Known(), Ok(5));
    assert_eq!(c.Possibles(), vec![5]);
    assert_eq!(c.to_string(), "5");
    c.SetKnownTo(123);
    assert_eq!(c.Known(), Ok(123));
    assert_eq!(c.to_string(), "123");
}

#[test]
fn taking_known_values_removes_them() {
    let mut c = cell::new(1, 1);
    assert_eq!(c.TakeKnownFromPossible(&[1, 2, 3]), Ok(true));
    assert_eq!(c.Possibles(), vec![4, 5, 6, 7, 8, 9]);
    assert_eq!(c.m_x, 1);
    assert_eq!(c.m_y, 1);
}

#[test]
fn taking_the_same_values_twice_reports_no_change() {
    let mut c = cell::new(1, 1);
    assert_eq!(c.TakeKnownFromPossible(&[2, 4]), Ok(true));
    assert_eq!(c.TakeKnownFromPossible(&[2, 4]), Ok(false));
    assert_eq!(c.Possibles(), vec![1, 3, 5, 6, 7, 8, 9]);
}

#[test]
fn taking_values_that_are_not_candidates_reports_no_change() {
    let mut c = cell::new(1, 1);
    assert_eq!(c.TakeKnownFromPossible(&[0, 10, 200]), Ok(false));
    assert_eq!(c.Possibles().len(), 9);
}

#[test]
fn taking_all_but_one_makes_the_cell_known() {
    let mut c = cell::new(4, 4);
    assert_eq!(c.TakeKnownFromPossible(&[1, 2, 3, 4, 5, 6, 7, 9]), Ok(true));
    assert!(c.IsKnown());
    assert_eq!(c.Known(), Ok(8));
}

#[test]
fn taking_every_candidate_is_an_invalid_cell() {
    let mut c = cell::new(4, 4);
    assert_eq!(
        c.TakeKnownFromPossible(&[1, 2, 3, 4, 5, 6, 7, 8, 9]),
        Err(SolveError::InvalidCell)
    );
    assert!(!c.validate());
    assert!(c.Possibles().is_empty());
}

#[test]
fn a_known_cell_keeps_its_value() {
    let mut c = cell::new(0, 0);
    c.SetKnownTo(5);
    assert_eq!(c.TakeKnownFromPossible(&[5]), Ok(false));
    assert_eq!(c.Known(), Ok(5));
}
