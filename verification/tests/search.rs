use crossword_grid::{search, search_problem, Field, FieldEx, Problem, SearchState, State};

fn problem(width: usize, height: usize, accross: &[usize], down: &[usize]) -> Problem {
    Problem::new(String::from("TEST"), (width, height), accross.to_vec(), down.to_vec())
        .expect("a usable problem")
}

fn text(grid: &[Field]) -> String {
    grid.iter()
        .map(|f| match f {
            Field::White => '.',
            Field::Black => '#',
        })
        .collect()
}

fn texts(found: &SearchState) -> Vec<String> {
    found.solutions.iter().map(|g| text(g)).collect()
}

#[test]
fn three_by_three_with_one_shared_clue_has_no_layout() {
    let p = problem(3, 3, &[1], &[1]);
    let found = search_problem(&p);
    assert_eq!(found.solution_count, 0);
    assert!(found.solutions.is_empty());
    assert_eq!(found.error_count, 7);
}

#[test]
fn three_by_three_all_white_is_the_only_layout() {
    let p = problem(3, 3, &[1, 4, 5], &[1, 2, 3]);
    let found = search_problem(&p);
    assert_eq!(found.solution_count, 1);
    assert_eq!(texts(&found), vec![String::from(".........")]);
    assert_eq!(found.error_count, 9);
}

#[test]
fn three_by_three_with_a_clue_too_many_has_no_layout() {
    let found = search_problem(&problem(3, 3, &[1, 4, 5, 6], &[1, 2, 3]));
    assert_eq!((found.solution_count, found.error_count), (0, 10));
    let found = search_problem(&problem(3, 3, &[1, 4, 5], &[1, 2, 3, 4]));
    assert_eq!((found.solution_count, found.error_count), (0, 10));
    let found = search_problem(&problem(3, 3, &[1, 4], &[1, 2, 3]));
    assert_eq!((found.solution_count, found.error_count), (0, 10));
}

#[test]
fn five_by_five_with_black_columns() {
    let p = problem(5, 5, &[1, 4, 5, 6, 7], &[1, 2, 3]);
    let found = search_problem(&p);
    assert_eq!(found.solution_count, 1);
    assert_eq!(texts(&found), vec![String::from("#...##...##...##...##...#")]);
    assert_eq!(found.error_count, 60);
}

#[test]
fn five_by_five_all_white() {
    let p = problem(5, 5, &[1, 6, 7, 8, 9], &[1, 2, 3, 4, 5]);
    let found = search_problem(&p);
    assert_eq!(texts(&found), vec![".".repeat(25)]);
    assert_eq!(found.error_count, 56);
}

#[test]
fn five_by_three_all_white() {
    let p = problem(5, 3, &[1, 6, 7], &[1, 2, 3, 4, 5]);
    let found = search_problem(&p);
    assert_eq!(texts(&found), vec![".".repeat(15)]);
    assert_eq!(found.error_count, 24);
}

#[test]
fn grids_too_small_for_a_word() {
    let found = search_problem(&problem(1, 1, &[1], &[1]));
    assert_eq!((found.solution_count, found.error_count), (0, 2));
    let found = search_problem(&problem(3, 1, &[1], &[1]));
    assert_eq!((found.solution_count, found.error_count), (0, 3));
    let found = search_problem(&problem(1, 3, &[1], &[1]));
    assert_eq!((found.solution_count, found.error_count), (0, 3));
}

#[test]
fn seven_by_seven_without_layout() {
    let p = problem(7, 7, &[1, 4, 7, 8, 9, 10, 13], &[1, 2, 3, 4, 5, 6, 11, 12]);
    let found = search_problem(&p);
    assert_eq!((found.solution_count, found.error_count), (0, 503));
}

#[test]
fn search_leaves_the_state_as_it_was_and_adds_to_what_was_found() {
    let p = problem(5, 5, &[1, 4, 5, 6, 7], &[1, 2, 3]);
    let mut state = State::new(&p);
    assert_eq!(state.push(Field::Black), Ok(()));
    assert_eq!(state.push(Field::White), Ok(()));
    let fields = state.fields.clone();
    let counts = state.counts.clone();
    let mut found = SearchState {
        solution_count: 1,
        error_count: 5,
        solutions: vec![vec![Field::White]],
    };
    search(&mut state, &mut found);
    assert_eq!(state.fields, fields);
    assert_eq!(state.counts, counts);
    assert_eq!(found.solution_count, 2);
    assert_eq!(found.solutions.len(), 2);
    assert_eq!(found.solutions[0], vec![Field::White]);
    assert_eq!(text(&found.solutions[1]), "#...##...##...##...##...#");
    assert!(found.error_count > 5);
}

#[test]
fn error_count_stops_at_its_greatest_value() {
    let p = problem(3, 3, &[1], &[1]);
    let mut state = State::new(&p);
    let mut found = SearchState {
        solution_count: 0,
        error_count: u64::MAX - 3,
        solutions: Vec::new(),
    };
    search(&mut state, &mut found);
    assert_eq!(found.error_count, u64::MAX);
}

/// Rebuilds a layout in a state, so that it can be read by position.
fn rebuilt<'p>(p: &'p Problem, grid: &[Field]) -> State<'p> {
    let mut state = State::new(p);
    for f in grid {
        assert!(state.can_push_one(*f));
        assert_eq!(state.push_one(*f), Ok(()));
    }
    assert!(state.is_final());
    state
}

#[test]
fn layouts_are_unchanged_by_a_half_turn() {
    let p = problem(5, 5, &[1, 4, 5, 6, 7], &[1, 2, 3]);
    let found = search_problem(&p);
    for grid in &found.solutions {
        assert_eq!(grid.len(), 25);
        for i in 0..25 {
            assert_eq!(grid[i], grid[24 - i]);
        }
        let state = rebuilt(&p, grid);
        for y in 0..5isize {
            for x in 0..5isize {
                assert_eq!(state.try_at((x, y)), state.try_at((4 - x, 4 - y)));
                assert_eq!(state.try_at((x, y)), FieldEx::Field(grid[(y * 5 + x) as usize]));
            }
        }
    }
}

#[test]
fn layouts_number_their_words_as_the_clue_lists_say() {
    let accross = [1, 4, 5, 6, 7];
    let down = [1, 2, 3];
    let p = problem(5, 5, &accross, &down);
    let found = search_problem(&p);
    assert_eq!(found.solutions.len(), 1);
    for grid in &found.solutions {
        let state = rebuilt(&p, grid);
        let mut number = 1;
        let mut seen_accross = Vec::new();
        let mut seen_down = Vec::new();
        for y in 0..5isize {
            for x in 0..5isize {
                if state.at((x, y)) != Field::White {
                    continue;
                }
                let a = state.at((x - 1, y)) == Field::Black;
                let d = state.at((x, y - 1)) == Field::Black;
                if a {
                    seen_accross.push(number);
                }
                if d {
                    seen_down.push(number);
                }
                if a || d {
                    number += 1;
                }
            }
        }
        assert_eq!(seen_accross, accross);
        assert_eq!(seen_down, down);
    }
}

#[test]
fn layouts_hold_no_short_word() {
    let p = problem(5, 5, &[1, 4, 5, 6, 7], &[1, 2, 3]);
    let found = search_problem(&p);
    assert_eq!(found.solutions.len(), 1);
    for grid in &found.solutions {
        let state = rebuilt(&p, grid);
        for (dx, dy) in [(1isize, 0isize), (0, 1)] {
            for y in 0..5isize {
                for x in 0..5isize {
                    let starts = state.at((x, y)) == Field::White
                        && state.at((x - dx, y - dy)) == Field::Black;
                    if starts {
                        let mut len = 0;
                        while state.at((x + dx * len, y + dy * len)) == Field::White {
                            len += 1;
                        }
                        assert!(len >= 3);
                    }
                }
            }
        }
    }
}
