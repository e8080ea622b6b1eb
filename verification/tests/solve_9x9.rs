use sudoku_rs::{Board, Board9x9, BoardElement, Solve};

fn rows9(board: &Board9x9) -> String {
  let mut s = String::new();
  for i in 0..9 {
    for j in 0..9 {
      s += &board.get(&(i, j)).to_string();
    }
    if i < 8 {
      s += "/";
    }
  }
  s
}

#[test]
fn solve_9x9() {
  let board = Board9x9::default();
  let mut solutions = board.solve();
  println!("{}", rows9(&solutions.next().unwrap()));
  println!("{}", rows9(&solutions.next().unwrap()));
  println!("{}", rows9(&solutions.next().unwrap()));
  println!("{}", rows9(&solutions.next().unwrap()));
}

#[test]
fn solve_pre_filled_9x9() {
  let board = Board9x9::from_u8_vec(&vec![
    9, 0, 0, 0, 0, 2, 0, 0, 6,
    0, 8, 0, 0, 0, 7, 0, 5, 0,
    0, 0, 7, 0, 0, 8, 1, 0, 0,
    0, 0, 0, 6, 0, 0, 7, 1, 2,
    0, 0, 0, 0, 5, 0, 0, 0, 0,
    1, 2, 3, 0, 0, 4, 0, 0, 0,
    0, 0, 4, 8, 0, 0, 3, 0, 0,
    0, 3, 0, 7, 0, 0, 0, 2, 0,
    5, 0, 0, 4, 0, 0, 0, 0, 1,
  ]);
  let mut solutions = board.solve();
  while let Some(solution) = solutions.next() {
    println!("{:?}", solution);
  }
}
