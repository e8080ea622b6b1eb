use sudoku_rs::questions::{generate_question, pick_num_unknowns};
use sudoku_rs::{
  Board, Board4x4, Board9x9, BoardElement, ElementSet, Solve, SolvingContext,
};

fn text4(board: &Board4x4) -> String {
  let mut s = String::new();
  for i in 0..4 {
    for j in 0..4 {
      s += &board.get(&(i, j)).to_string();
    }
    if i < 3 {
      s += "/";
    }
  }
  s
}

fn text9(board: &Board9x9) -> String {
  let mut s = String::new();
  for i in 0..9 {
    for j in 0..9 {
      s += &board.get(&(i, j)).to_string();
    }
    if i < 8 {
      s += "/";
    }
  }
  s
}

fn solved4() -> Board4x4 {
  Board4x4::from_u8_vec(&vec![1, 2, 3, 4, 3, 4, 1, 2, 4, 3, 2, 1, 2, 1, 4, 3])
}

fn is_solved4(board: &Board4x4) -> bool {
  (0..4).all(|i| {
    board.row_elements(i).count() == 4
      && board.column_elements(i).count() == 4
      && board.block_elements(&(i, (i * 2) % 4)).count() == 4
  })
}

#[test]
fn context_modes() {
  assert!(!SolvingContext::deterministic().is_random());
  assert!(SolvingContext::random().is_random());
  assert!(SolvingContext::random_with_seed(7).is_random());
  assert!(SolvingContext::default().is_random());
  assert!(SolvingContext::deterministic().rng().is_none());
  assert!(SolvingContext::random_with_seed(7).rng().is_some());
  assert!(!SolvingContext::from_options(true, None).is_random());
  assert!(!SolvingContext::from_options(true, Some(3)).is_random());
  assert!(SolvingContext::from_options(false, Some(3)).is_random());
  assert!(SolvingContext::from_options(false, None).is_random());
}

#[test]
fn deterministic_first_solutions_of_the_empty_4x4() {
  let board = Board4x4::default();
  let mut solutions = board.solve_with_ctx(SolvingContext::deterministic());
  assert_eq!(text4(&solutions.next().unwrap()), "4321/2143/3412/1234");
  assert_eq!(text4(&solutions.next().unwrap()), "4321/2143/3214/1432");
  assert_eq!(text4(&solutions.next().unwrap()), "4321/2143/1432/3214");
}

#[test]
fn deterministic_mode_repeats_itself() {
  let first = Board4x4::default().solve_with_ctx(SolvingContext::deterministic()).take(10);
  let second = Board4x4::default().solve_with_ctx(SolvingContext::deterministic()).take(10);
  assert_eq!(first.len(), 10);
  let a: Vec<String> = first.iter().map(text4).collect();
  let b: Vec<String> = second.iter().map(text4).collect();
  assert_eq!(a, b);
}

#[test]
fn deterministic_first_solutions_of_the_empty_9x9() {
  let board = Board9x9::default();
  let mut solutions = board.solve_with_ctx(SolvingContext::deterministic());
  assert_eq!(
    text9(&solutions.next().unwrap()),
    "987654321/654321987/321987654/879436215/235198746/416572893/793845162/568213479/142769538"
  );
  assert_eq!(
    text9(&solutions.next().unwrap()),
    "987654321/654321987/321987654/879436215/235198746/416572893/793845162/562719438/148263579"
  );
}

#[test]
fn seeded_mode_repeats_itself() {
  let first = Board4x4::default().solve_with_ctx(SolvingContext::random_with_seed(42)).collect();
  let second = Board4x4::default().solve_with_ctx(SolvingContext::random_with_seed(42)).collect();
  let a: Vec<String> = first.iter().map(text4).collect();
  let b: Vec<String> = second.iter().map(text4).collect();
  assert_eq!(a.len(), 288);
  assert_eq!(a, b);
}

#[test]
fn seeded_mode_differs_from_deterministic_mode() {
  let fixed = text4(
    &Board4x4::default().solve_with_ctx(SolvingContext::deterministic()).next().unwrap(),
  );
  let mut differs = false;
  for seed in 0..20 {
    let found = text4(
      &Board4x4::default().solve_with_ctx(SolvingContext::random_with_seed(seed)).next().unwrap(),
    );
    if found != fixed {
      differs = true;
    }
  }
  assert!(differs);
}

#[test]
fn every_mode_finds_all_solutions_of_the_empty_4x4() {
  let fixed = Board4x4::default().solve_with_ctx(SolvingContext::deterministic()).collect();
  assert_eq!(fixed.len(), 288);
  let mut a: Vec<String> = fixed.iter().map(text4).collect();
  assert!(fixed.iter().all(is_solved4));
  let random = Board4x4::default().solve().collect();
  let mut b: Vec<String> = random.iter().map(text4).collect();
  a.sort();
  b.sort();
  assert_eq!(a, b);
  a.dedup();
  assert_eq!(a.len(), 288);
}

#[test]
fn pre_filled_board_yields_itself_and_no_more() {
  let board = solved4();
  let mut solutions = board.solve_with_ctx(SolvingContext::deterministic());
  assert_eq!(text4(&solutions.next().unwrap()), "1234/3412/4321/2143");
  assert!(solutions.next().is_none());
  assert!(solutions.next().is_none());
  let mut random = board.solve_with_ctx(SolvingContext::random_with_seed(1));
  assert_eq!(text4(&random.next().unwrap()), "1234/3412/4321/2143");
  assert!(random.next().is_none());
}

#[test]
fn take_stops_at_the_amount_or_at_the_end() {
  let mut solutions = Board4x4::default().solve_with_ctx(SolvingContext::deterministic());
  assert_eq!(solutions.take(0).len(), 0);
  let three = solutions.take(3);
  assert_eq!(
    three.iter().map(text4).collect::<Vec<_>>(),
    vec!["4321/2143/3412/1234", "4321/2143/3214/1432", "4321/2143/1432/3214"]
  );
  assert_eq!(solutions.take(1000).len(), 285);
  assert_eq!(solutions.take(5).len(), 0);
  assert!(solutions.next().is_none());
}

#[test]
fn unsatisfiable_board_yields_nothing() {
  let board = Board4x4::from_u8_vec(&vec![1, 1, 0, 0, 0, 0, 0, 0, 0, 0, 0, 0, 0, 0, 0, 0]);
  assert!(board.solve_with_ctx(SolvingContext::deterministic()).next().is_none());
  assert!(board.solve().next().is_none());
  assert!(board.solve_with_ctx(SolvingContext::random_with_seed(5)).collect().is_empty());
  let stuck = Board4x4::from_u8_vec(&vec![1, 2, 3, 0, 0, 0, 0, 4, 0, 0, 0, 0, 0, 0, 0, 0]);
  assert!(stuck.solve_with_ctx(SolvingContext::deterministic()).next().is_none());
  assert!(stuck.solve().collect().is_empty());
}

#[test]
fn pre_filled_9x9_has_one_solution() {
  let board = Board9x9::from_u8_vec(&vec![
    9, 0, 0, 0, 0, 2, 0, 0, 6,
    0, 8, 0, 0, 0, 7, 0, 5, 0,
    0, 0, 7, 0, 0, 8, 1, 0, 0,
    0, 0, 0, 6, 0, 0, 7, 1, 2,
    0, 0, 0, 0, 5, 0, 0, 0, 0,
    1, 2, 3, 0, 0, 4, 0, 0, 0,
    0, 0, 4, 8, 0, 0, 3, 0, 0,
    0, 3, 0, 7, 0, 0, 0, 2, 0,
    5, 0, 0, 4, 0, 0, 0, 0, 1,
  ]);
  let expected =
    "951342876/386197254/247568139/495683712/768251943/123974568/614825397/839716425/572439681";
  let fixed = board.solve_with_ctx(SolvingContext::deterministic()).collect();
  assert_eq!(fixed.iter().map(text9).collect::<Vec<_>>(), vec![expected]);
  let random = board.solve_with_ctx(SolvingContext::random_with_seed(11)).collect();
  assert_eq!(random.iter().map(text9).collect::<Vec<_>>(), vec![expected]);
}

#[test]
fn digging_keeps_the_solution_among_the_solutions() {
  for k in [0, 4, 9, 13, 16] {
    let mut board = solved4();
    board.put_random_unknowns(k);
    assert_eq!(board.unknown_slots().len(), k);
    let found = board.solve().collect();
    assert!(found.iter().all(is_solved4));
    assert!(found.iter().any(|b| text4(b) == "1234/3412/4321/2143"));
  }
}

#[test]
fn question_comes_with_its_solution() {
  let solution = solved4();
  let (question, answer) = generate_question(&solution, 6);
  assert_eq!(text4(&answer), "1234/3412/4321/2143");
  assert_eq!(question.unknown_slots().len(), 6);
  for slot in Board4x4::slots().collect() {
    let q = question.get(&slot);
    assert!(q.is_unknown() || q == solution.get(&slot));
  }
  let found = question.solve_with_ctx(SolvingContext::deterministic()).collect();
  assert!(found.iter().any(|b| text4(b) == "1234/3412/4321/2143"));
}

#[test]
fn number_of_unknowns_is_fixed_or_drawn_from_the_range() {
  let mut ctx = SolvingContext::random_with_seed(9);
  let rng = ctx.rng().unwrap();
  assert_eq!(pick_num_unknowns(rng, false, 12, 8, 12), 12);
  assert_eq!(pick_num_unknowns(rng, false, 3, 5, 5), 3);
  let mut seen = std::collections::HashSet::new();
  for _ in 0..200 {
    let n = pick_num_unknowns(rng, true, 0, 8, 12);
    assert!(8 <= n && n < 12);
    seen.insert(n);
  }
  assert_eq!(seen.len(), 4);
  assert_eq!(pick_num_unknowns(rng, true, 0, 5, 6), 5);
}

#[test]
fn seeds_decide_the_order() {
  let mut firsts = std::collections::HashSet::new();
  for seed in 0..20 {
    let once = Board4x4::default().solve_with_ctx(SolvingContext::random_with_seed(seed)).take(5);
    let again = Board4x4::default().solve_with_ctx(SolvingContext::random_with_seed(seed)).take(5);
    let a: Vec<String> = once.iter().map(text4).collect();
    let b: Vec<String> = again.iter().map(text4).collect();
    assert_eq!(a.len(), 5);
    assert_eq!(a, b);
    let chosen = Board4x4::default()
      .solve_with_ctx(SolvingContext::from_options(false, Some(seed)))
      .take(5);
    assert_eq!(chosen.iter().map(text4).collect::<Vec<_>>(), a);
    firsts.insert(a);
  }
  assert!(firsts.len() > 1);
}
