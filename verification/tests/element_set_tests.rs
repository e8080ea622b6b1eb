use sudoku_rs::{
  Board4x4Element, Board4x4ElementSet, Board9x9Element, Board9x9ElementSet, BoardElement,
  ElementSet,
};

fn set4(values: &[u8]) -> Board4x4ElementSet {
  let mut set = Board4x4ElementSet::default();
  for v in values {
    set.insert(&Board4x4Element::from(*v));
  }
  set
}

fn set9(values: &[u8]) -> Board9x9ElementSet {
  let mut set = Board9x9ElementSet::default();
  for v in values {
    set.insert(&Board9x9Element::from(*v));
  }
  set
}

fn numbers4(set: &Board4x4ElementSet) -> Vec<String> {
  set.elements().iter().map(|e| e.to_string()).collect()
}

fn numbers9(set: &Board9x9ElementSet) -> Vec<String> {
  set.elements().iter().map(|e| e.to_string()).collect()
}

#[test]
fn element_unknown_and_answer() {
  assert!(Board4x4Element::default().is_unknown());
  assert!(!Board4x4Element::default().is_answer());
  assert!(Board4x4Element::from(0).is_unknown());
  assert!(Board4x4Element::from(3).is_answer());
  assert!(Board9x9Element::default().is_unknown());
  assert!(Board9x9Element::from(9).is_answer());
  assert_eq!(Board4x4Element::from(4), Board4x4Element::U4);
  assert_eq!(Board9x9Element::from(7), Board9x9Element::U7);
}

#[test]
fn element_to_string() {
  assert_eq!(Board4x4Element::U0.to_string(), "0");
  assert_eq!(Board4x4Element::U4.to_string(), "4");
  assert_eq!(Board9x9Element::U9.to_string(), "9");
  assert_eq!(Board9x9Element::from(5).to_string(), "5");
}

#[test]
fn default_set_is_empty() {
  let set = Board4x4ElementSet::default();
  assert_eq!(set.count(), 0);
  assert!(set.elements().is_empty());
  assert_eq!(Board9x9ElementSet::default().count(), 0);
}

#[test]
fn insert_is_idempotent_and_skips_unknown() {
  let mut set = Board4x4ElementSet::default();
  set.insert(&Board4x4Element::U3);
  set.insert(&Board4x4Element::U3);
  set.insert(&Board4x4Element::U0);
  assert_eq!(set.count(), 1);
  assert_eq!(numbers4(&set), vec!["3"]);
  let mut large = Board9x9ElementSet::default();
  large.insert(&Board9x9Element::U0);
  assert_eq!(large.count(), 0);
  large.insert(&Board9x9Element::U9);
  large.insert(&Board9x9Element::U9);
  assert_eq!(numbers9(&large), vec!["9"]);
}

#[test]
fn elements_come_in_increasing_order() {
  assert_eq!(numbers4(&set4(&[4, 1, 3])), vec!["1", "3", "4"]);
  assert_eq!(numbers9(&set9(&[9, 2, 7, 5, 1])), vec!["1", "2", "5", "7", "9"]);
  assert_eq!(set9(&[1, 2, 3, 4, 5, 6, 7, 8, 9]).count(), 9);
}

#[test]
fn intersect_is_idempotent_commutative_and_associative() {
  let a = set9(&[1, 2, 5, 9]);
  let b = set9(&[2, 5, 7]);
  let c = set9(&[5, 7, 9]);
  assert_eq!(numbers9(&a.intersect(&a)), numbers9(&a));
  assert_eq!(numbers9(&a.intersect(&b)), vec!["2", "5"]);
  assert_eq!(numbers9(&a.intersect(&b)), numbers9(&b.intersect(&a)));
  assert_eq!(
    numbers9(&a.intersect(&b).intersect(&c)),
    numbers9(&a.intersect(&b.intersect(&c)))
  );
  assert!(a.intersect(&b).count() <= a.count().min(b.count()));
  let s = set4(&[2, 4]);
  assert_eq!(numbers4(&s.intersect(&s)), vec!["2", "4"]);
}

#[test]
fn complement_is_taken_over_the_values() {
  let s = set4(&[2, 4]);
  assert_eq!(numbers4(&s.complement()), vec!["1", "3"]);
  assert_eq!(numbers4(&s.complement().complement()), vec!["2", "4"]);
  assert_eq!(s.intersect(&s.complement()).count(), 0);
  assert_eq!(Board4x4ElementSet::default().complement().count(), 4);
  let t = set9(&[1, 9]);
  assert_eq!(numbers9(&t.complement()), vec!["2", "3", "4", "5", "6", "7", "8"]);
  assert_eq!(numbers9(&t.complement().complement()), vec!["1", "9"]);
  assert_eq!(t.intersect(&t.complement()).count(), 0);
  assert_eq!(Board9x9ElementSet::default().complement().count(), 9);
}

#[test]
fn set_to_string_shows_the_mask() {
  assert_eq!(Board4x4ElementSet::default().to_string(), "00000000");
  assert_eq!(set4(&[1, 3]).to_string(), "00000101");
  assert_eq!(set4(&[1, 3]).complement().to_string(), "00001010");
  assert_eq!(set9(&[1, 8]).to_string(), "10000001");
  assert_eq!(set9(&[2, 9]).to_string(), "100000010");
  assert_eq!(Board9x9ElementSet::default().complement().to_string(), "111111111");
}
