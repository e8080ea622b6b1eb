use sudoku_rs::input::{board_vec_from_json, flatten_rows};
use sudoku_rs::output::{
  board_to_json_str, output_board, output_board_with_solution, output_finish, output_init,
  output_question, output_separator, output_solution,
};
use sudoku_rs::{
  Board, Board4x4, Board4x4Element, Board9x9, Board9x9Element, BoardElement, ElementSet,
  FillResult,
};

fn solved4() -> Board4x4 {
  Board4x4::from_u8_vec(&vec![1, 2, 3, 4, 3, 4, 1, 2, 4, 3, 2, 1, 2, 1, 4, 3])
}

fn solved9() -> Board9x9 {
  Board9x9::from_u8_vec(&vec![
    9, 5, 1, 3, 4, 2, 8, 7, 6,
    3, 8, 6, 1, 9, 7, 2, 5, 4,
    2, 4, 7, 5, 6, 8, 1, 3, 9,
    4, 9, 5, 6, 8, 3, 7, 1, 2,
    7, 6, 8, 2, 5, 1, 9, 4, 3,
    1, 2, 3, 9, 7, 4, 5, 6, 8,
    6, 1, 4, 8, 2, 5, 3, 9, 7,
    8, 3, 9, 7, 1, 6, 4, 2, 5,
    5, 7, 2, 4, 3, 9, 6, 8, 1,
  ])
}

fn numbers4(board: &Board4x4) -> Vec<u8> {
  let mut v = vec![];
  for slot in Board4x4::slots().collect() {
    v.push(board.get(&slot).to_string().parse().unwrap());
  }
  v
}

fn members(elements: Vec<Board4x4Element>) -> Vec<String> {
  elements.iter().map(|e| e.to_string()).collect()
}

#[test]
fn sizes() {
  assert_eq!(Board4x4::size(), 4);
  assert_eq!(Board4x4::block_size(), 2);
  assert_eq!(Board9x9::size(), 9);
  assert_eq!(Board9x9::block_size(), 3);
}

#[test]
fn new_and_from_u8_vec_are_row_major() {
  let board = Board4x4::from_u8_vec(&vec![0, 2, 0, 0, 1, 0, 0, 0, 0, 0, 0, 0, 0, 0, 0, 3]);
  assert_eq!(*board.get(&(0, 1)), Board4x4Element::U2);
  assert_eq!(*board.get(&(1, 0)), Board4x4Element::U1);
  assert_eq!(*board.get(&(3, 3)), Board4x4Element::U3);
  assert_eq!(*board.get(&(2, 2)), Board4x4Element::U0);
  let mut cells = [Board9x9Element::U0; 81];
  cells[9 * 2 + 7] = Board9x9Element::U6;
  let large = Board9x9::new(cells);
  assert_eq!(*large.get(&(2, 7)), Board9x9Element::U6);
  assert_eq!(*large.get(&(7, 2)), Board9x9Element::U0);
}

#[test]
fn valid_u8_vec() {
  assert!(Board4x4::is_valid_u8_vec(&vec![0; 16]));
  assert!(!Board4x4::is_valid_u8_vec(&vec![0; 15]));
  assert!(!Board4x4::is_valid_u8_vec(&vec![5; 16]));
  assert!(Board9x9::is_valid_u8_vec(&vec![9; 81]));
  assert!(!Board9x9::is_valid_u8_vec(&vec![0; 16]));
  let mut bad = vec![0; 81];
  bad[80] = 10;
  assert!(!Board9x9::is_valid_u8_vec(&bad));
}

#[test]
fn get_set_and_get_mut() {
  let mut board = Board4x4::default();
  assert!(board.get(&(2, 1)).is_unknown());
  board.set(&(2, 1), Board4x4Element::U4);
  assert_eq!(*board.get(&(2, 1)), Board4x4Element::U4);
  *board.get_mut(&(0, 3)) = Board4x4Element::U2;
  assert_eq!(numbers4(&board), vec![0, 0, 0, 2, 0, 0, 0, 0, 0, 4, 0, 0, 0, 0, 0, 0]);
  let copy = board.clone();
  board.set(&(0, 0), Board4x4Element::U1);
  assert!(copy.get(&(0, 0)).is_unknown());
  assert_eq!(*copy.get(&(2, 1)), Board4x4Element::U4);
}

#[test]
fn board_to_string_text() {
  assert_eq!(solved4().to_string(), "[1,2,3,4;\n 3,4,1,2;\n 4,3,2,1;\n 2,1,4,3]");
  assert_eq!(
    Board4x4::default().to_string(),
    "[0,0,0,0;\n 0,0,0,0;\n 0,0,0,0;\n 0,0,0,0]"
  );
}

#[test]
fn board_json_text() {
  assert_eq!(board_to_json_str(&solved4()), "[[1,2,3,4],[3,4,1,2],[4,3,2,1],[2,1,4,3]]");
  let text = board_to_json_str(&Board9x9::default());
  assert_eq!(text.len(), 2 + 9 * (2 + 9 + 8) + 8);
  assert!(text.starts_with("[[0,0,0,0,0,0,0,0,0],[0,"));
}

#[test]
fn output_pieces() {
  assert_eq!(output_init(true), Some("[".to_string()));
  assert_eq!(output_init(false), None);
  assert_eq!(output_separator(true), Some(",".to_string()));
  assert_eq!(output_separator(false), None);
  assert_eq!(output_finish(true), Some("]".to_string()));
  assert_eq!(output_finish(false), None);
  let board = solved4();
  assert_eq!(output_board(true, &board), "[[1,2,3,4],[3,4,1,2],[4,3,2,1],[2,1,4,3]]");
  assert_eq!(output_board(false, &board), "[1,2,3,4;\n 3,4,1,2;\n 4,3,2,1;\n 2,1,4,3]");
  let mut question = solved4();
  question.set(&(0, 0), Board4x4Element::U0);
  assert_eq!(
    output_board_with_solution(true, &question, &board).concat(),
    "{\"q\":[[0,2,3,4],[3,4,1,2],[4,3,2,1],[2,1,4,3]],\"a\":[[1,2,3,4],[3,4,1,2],[4,3,2,1],[2,1,4,3]]}"
  );
  assert_eq!(
    output_board_with_solution(false, &question, &board),
    vec![
      "Question: ".to_string(),
      "[0,2,3,4;\n 3,4,1,2;\n 4,3,2,1;\n 2,1,4,3]".to_string(),
      "Solution: ".to_string(),
      "[1,2,3,4;\n 3,4,1,2;\n 4,3,2,1;\n 2,1,4,3]".to_string(),
    ]
  );
}

#[test]
fn json_input_is_parsed_and_flattened() {
  assert_eq!(board_vec_from_json("[[1,2],[3,4]]"), Ok(vec![1, 2, 3, 4]));
  assert_eq!(board_vec_from_json(" [ [0, 255] , [], [7] ] "), Ok(vec![0, 255, 7]));
  assert_eq!(board_vec_from_json("[]"), Ok(vec![]));
  assert_eq!(flatten_rows(&vec![vec![1, 2, 3], vec![], vec![4]]), vec![1, 2, 3, 4]);
}

#[test]
fn json_input_is_rejected() {
  let message = Err("Cannot parse input file".to_string());
  assert_eq!(board_vec_from_json(""), message);
  assert_eq!(board_vec_from_json("[1,2,3]"), message);
  assert_eq!(board_vec_from_json("[[1,2],[3,256]]"), message);
  assert_eq!(board_vec_from_json("[[1,2],[3,-1]]"), message);
  assert_eq!(board_vec_from_json("[[1,2],[3,4]"), message);
  assert_eq!(board_vec_from_json("{\"q\":[[1]]}"), message);
}

#[test]
fn json_output_reads_back() {
  let text = board_to_json_str(&solved9());
  let numbers = board_vec_from_json(&text).unwrap();
  assert!(Board9x9::is_valid_u8_vec(&numbers));
  assert_eq!(board_to_json_str(&Board9x9::from_u8_vec(&numbers)), text);
}

#[test]
fn column_and_nine_by_nine_walks() {
  assert_eq!(Board4x4::column_slots(2).collect(), vec![(0, 2), (1, 2), (2, 2), (3, 2)]);
  assert_eq!(Board9x9::slots().collect().len(), 81);
  assert_eq!(Board9x9::slots().collect()[80], (8, 8));
  assert_eq!(
    Board9x9::block_slots(&(4, 8)).collect(),
    vec![(3, 6), (3, 7), (3, 8), (4, 6), (4, 7), (4, 8), (5, 6), (5, 7), (5, 8)]
  );
  assert_eq!(Board4x4::block_slots(&(1, 3)).collect(), vec![(0, 2), (0, 3), (1, 2), (1, 3)]);
}

#[test]
fn walks_step_by_step() {
  let mut it = Board4x4::row_slots(3);
  assert_eq!(it.next(), Some((3, 0)));
  assert_eq!(it.next(), Some((3, 1)));
  assert_eq!(it.next(), Some((3, 2)));
  assert_eq!(it.next(), Some((3, 3)));
  assert_eq!(it.next(), None);
  assert_eq!(it.next(), None);
  let mut all = Board4x4::slots();
  for _ in 0..16 {
    assert!(all.next().is_some());
  }
  assert_eq!(all.next(), None);
  assert_eq!(all.next(), None);
}

#[test]
fn diagonal_walks() {
  assert!(Board4x4::diagonal_slots(&(0, 1)).collect().is_empty());
  assert_eq!(Board4x4::diagonal_slots(&(2, 2)).collect(), vec![(0, 0), (1, 1), (2, 2), (3, 3)]);
  assert_eq!(Board4x4::diagonal_slots(&(2, 1)).collect(), vec![(0, 3), (1, 2), (2, 1), (3, 0)]);
  assert_eq!(
    Board9x9::diagonal_slots(&(4, 4)).collect(),
    vec![
      (0, 0), (1, 1), (2, 2), (3, 3), (4, 4), (5, 5), (6, 6), (7, 7), (8, 8),
      (0, 8), (1, 7), (2, 6), (3, 5), (5, 3), (6, 2), (7, 1), (8, 0),
    ]
  );
}

#[test]
fn group_elements() {
  let board = Board4x4::from_u8_vec(&vec![1, 0, 0, 4, 0, 2, 0, 0, 0, 0, 3, 0, 2, 0, 0, 0]);
  assert_eq!(members(board.row_elements(0).elements()), vec!["1", "4"]);
  assert_eq!(members(board.column_elements(0).elements()), vec!["1", "2"]);
  assert_eq!(members(board.block_elements(&(1, 0)).elements()), vec!["1", "2"]);
  assert_eq!(members(board.block_elements(&(3, 3)).elements()), vec!["3"]);
  assert_eq!(members(board.diagonal_elements(&(0, 0)).elements()), vec!["1", "2", "3"]);
  assert_eq!(members(board.diagonal_elements(&(0, 3)).elements()), vec!["2", "4"]);
  assert_eq!(board.diagonal_elements(&(0, 1)).count(), 0);
  assert_eq!(members(board.possible_answers(&(0, 1)).elements()), vec!["3"]);
  assert_eq!(members(board.possible_answers(&(1, 2)).elements()), vec!["1"]);
  assert_eq!(members(board.possible_answers(&(3, 3)).elements()), vec!["1"]);
  assert_eq!(members(board.possible_answers(&(2, 1)).elements()), vec!["1", "4"]);
}

#[test]
fn possible_answers_hold_no_unknown() {
  let board = Board4x4::default();
  for slot in Board4x4::slots().collect() {
    let answers = board.possible_answers(&slot);
    assert_eq!(answers.count(), 4);
    for e in answers.elements() {
      assert!(e.is_answer());
    }
  }
}

#[test]
fn solved_board_groups_hold_every_value_once() {
  let board = solved4();
  for i in 0..4 {
    assert_eq!(board.row_elements(i).count(), 4);
    assert_eq!(board.column_elements(i).count(), 4);
  }
  for slot in Board4x4::slots().collect() {
    assert_eq!(board.block_elements(&slot).count(), 4);
    assert_eq!(board.possible_answers(&slot).count(), 0);
  }
  let large = solved9();
  for i in 0..9 {
    assert_eq!(large.row_elements(i).count(), 9);
    assert_eq!(large.column_elements(i).count(), 9);
    assert_eq!(large.block_elements(&(i, (i * 4) % 9)).count(), 9);
  }
}

#[test]
fn unknown_slots_in_board_order() {
  let board = Board4x4::from_u8_vec(&vec![1, 0, 3, 4, 3, 4, 1, 2, 0, 3, 2, 0, 2, 1, 4, 3]);
  assert!(board.has_unknown_slot());
  assert_eq!(board.unknown_slots(), vec![(0, 1), (2, 0), (2, 3)]);
  assert!(!solved4().has_unknown_slot());
  assert!(solved4().unknown_slots().is_empty());
  assert_eq!(Board4x4::default().unknown_slots().len(), 16);
}

#[test]
fn put_determined_answers_modifies() {
  let mut board = Board4x4::from_u8_vec(&vec![1, 0, 3, 4, 3, 4, 1, 2, 0, 3, 2, 0, 2, 1, 4, 3]);
  assert!(board.put_determined_answers() == FillResult::Modified);
  assert_eq!(numbers4(&board), numbers4(&solved4()));
  assert!(board.put_determined_answers() == FillResult::Unmodified);
}

#[test]
fn put_determined_answers_is_one_pass() {
  let mut board = Board4x4::from_u8_vec(&vec![0, 0, 0, 0, 0, 0, 1, 2, 0, 1, 0, 0, 0, 3, 0, 0]);
  assert!(board.put_determined_answers() == FillResult::Modified);
  assert_eq!(numbers4(&board), vec![0, 0, 0, 0, 0, 4, 1, 2, 0, 1, 0, 0, 0, 3, 0, 0]);
  assert!(board.put_determined_answers() == FillResult::Modified);
  assert_eq!(numbers4(&board), vec![0, 2, 0, 0, 3, 4, 1, 2, 0, 1, 0, 0, 0, 3, 0, 0]);
}

#[test]
fn put_determined_answers_leaves_open_choices() {
  let mut board = Board4x4::default();
  assert!(board.put_determined_answers() == FillResult::Unmodified);
  assert_eq!(numbers4(&board), vec![0; 16]);
}

#[test]
fn put_determined_answers_unsatisfied() {
  let mut board = Board4x4::from_u8_vec(&vec![1, 2, 3, 0, 0, 0, 0, 4, 0, 0, 0, 0, 0, 0, 0, 0]);
  assert!(board.put_determined_answers() == FillResult::Unsatisfied);
  assert_eq!(numbers4(&board), vec![1, 2, 3, 0, 0, 0, 0, 4, 0, 0, 0, 0, 0, 0, 0, 0]);
}

#[test]
fn put_unknowns_clears_the_first_slots() {
  let mut board = solved4();
  board.put_unknowns(&vec![(0, 0), (3, 3), (1, 2), (2, 2)], 3);
  assert_eq!(numbers4(&board), vec![0, 2, 3, 4, 3, 4, 0, 2, 4, 3, 2, 1, 2, 1, 4, 0]);
  board.put_unknowns(&vec![(0, 1)], 0);
  assert_eq!(numbers4(&board), vec![0, 2, 3, 4, 3, 4, 0, 2, 4, 3, 2, 1, 2, 1, 4, 0]);
}

#[test]
fn put_random_unknowns_leaves_that_many_unknown() {
  for k in [0, 1, 5, 13, 16] {
    let mut board = solved4();
    board.put_random_unknowns(k);
    assert_eq!(board.unknown_slots().len(), k);
    let before = numbers4(&solved4());
    let after = numbers4(&board);
    for i in 0..16 {
      assert!(after[i] == 0 || after[i] == before[i]);
    }
  }
  let mut large = solved9();
  large.put_random_unknowns(81);
  assert_eq!(large.unknown_slots().len(), 81);
}

#[test]
fn put_random_unknowns_chooses_at_random() {
  let mut seen = std::collections::HashSet::new();
  for _ in 0..40 {
    let mut board = solved4();
    board.put_random_unknowns(3);
    seen.insert(board.unknown_slots());
  }
  assert!(seen.len() > 1);
}

#[test]
fn solution_and_question_pieces() {
  let board = solved4();
  let json = "[[1,2,3,4],[3,4,1,2],[4,3,2,1],[2,1,4,3]]";
  let text = "[1,2,3,4;\n 3,4,1,2;\n 4,3,2,1;\n 2,1,4,3]";
  assert_eq!(output_solution(true, 0, &board), vec![json.to_string()]);
  assert_eq!(output_solution(true, 3, &board), vec![",".to_string(), json.to_string()]);
  assert_eq!(output_solution(false, 0, &board), vec![text.to_string()]);
  assert_eq!(output_solution(false, 3, &board), vec![text.to_string()]);
  let object = format!("{{\"q\":{},\"a\":{}}}", json, json);
  assert_eq!(output_question(true, 0, 0, &board, &board).concat(), object);
  assert_eq!(output_question(true, 0, 1, &board, &board).concat(), format!(",{}", object));
  assert_eq!(output_question(true, 2, 0, &board, &board).concat(), format!(",{}", object));
  assert_eq!(output_question(true, 2, 0, &board, &board).len(), 6);
  assert_eq!(
    output_question(false, 2, 1, &board, &board),
    vec!["Question: ".to_string(), text.to_string(), "Solution: ".to_string(), text.to_string()]
  );
}
