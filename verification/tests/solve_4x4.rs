use sudoku_rs::{Board, Board4x4, BoardElement, Solve};

fn rows(board: &Board4x4) -> String {
  let mut s = String::new();
  for i in 0..4 {
    for j in 0..4 {
      s += &board.get(&(i, j)).to_string();
    }
    if i < 3 {
      s += "/";
    }
  }
  s
}

#[test]
fn solve_4x4() {
  let board = Board4x4::default();
  let mut solutions = board.solve();
  println!("{}", rows(&solutions.next().unwrap()));
  println!("{}", rows(&solutions.next().unwrap()));
  println!("{}", rows(&solutions.next().unwrap()));
}

#[test]
fn solve_pre_filled_4x4() {
  let board = Board4x4::from_u8_vec(&vec![
    1, 2, 3, 4,
    3, 4, 1, 2,
    4, 3, 2, 1,
    2, 1, 4, 3,
  ]);
  let mut solutions = board.solve();
  assert!(solutions.next().is_some());
  assert!(solutions.next().is_none());
}

#[test]
fn solve_pre_filled_4x4_digged() {
  let mut board = Board4x4::from_u8_vec(&vec![
    1, 2, 3, 4,
    3, 4, 1, 2,
    4, 3, 2, 1,
    2, 1, 4, 3,
  ]);
  board.put_random_unknowns(13);
  println!("Digged: {:?}", board);
  let mut solutions = board.solve();
  while let Some(solution) = solutions.next() {
    println!("{:?}", solution);
  }
}
