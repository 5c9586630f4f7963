use crossword_grid::{Counts, Field, FieldEx, Problem, RuleViolation, State};

fn problem(width: usize, height: usize, accross: &[usize], down: &[usize]) -> Problem {
    Problem::new(String::from("TEST"), (width, height), accross.to_vec(), down.to_vec())
        .expect("a usable problem")
}

fn fields(text: &str) -> Vec<Field> {
    text.chars()
        .map(|c| match c {
            '.' => Field::White,
            '#' => Field::Black,
            _ => unreachable!(),
        })
        .collect()
}

/// Commits all cells but the last, which must all pass, and returns the
/// verdict on the last.
fn verdict(problem: &Problem, text: &str) -> Result<(), RuleViolation> {
    let cells = fields(text);
    let mut state = State::new(problem);
    for (i, f) in cells.iter().enumerate() {
        assert!(state.can_push_one(*f));
        let r = state.push_one(*f);
        if i + 1 == cells.len() {
            return r;
        }
        assert_eq!(r, Ok(()));
    }
    unreachable!()
}

fn example_problem() -> Problem {
    problem(
        15,
        15,
        &[
            1, 4, 7, 10, 13, 14, 16, 17, 18, 20, 21, 23, 24, 26, 28, 29, 33, 35, 36, 38, 39, 42,
            44, 45, 47, 49, 50, 52, 55, 56, 58, 59, 61, 63, 67, 69, 70, 71, 72, 73, 74, 75, 76,
        ],
        &[
            1, 2, 3, 4, 5, 6, 7, 8, 9, 11, 12, 15, 19, 22, 25, 27, 29, 30, 31, 32, 34, 37, 40, 41,
            43, 46, 48, 51, 53, 54, 57, 60, 62, 64, 65, 66, 68,
        ],
    )
}

const EXAMPLE_SOLUTION: &str = "...###...#...##.....#...#....#.....#...#..........#....#....###...#....#..........#..........##...#...........#...#...........#...##..........#..........#....#...###....#....#..........#...#.....#....#...#.....##...#...###...";

#[test]
fn example_solution_replays_without_violation() {
    let problem = example_problem();
    let mut state = State::new(&problem);
    assert_eq!(EXAMPLE_SOLUTION.len(), 225);
    for f in fields(EXAMPLE_SOLUTION) {
        assert!(state.can_push_one(f));
        assert_eq!(state.push_one(f), Ok(()));
    }
    assert!(state.is_final());
    assert_eq!(state.fields.len(), 225);
    assert_eq!(state.counts.len(), 226);
    assert_eq!(
        state.counts[225],
        Counts {
            number: 77,
            accross_used: 43,
            down_used: 37,
            reverse_number: 9,
            reverse_accross_used: 40,
            reverse_down_used: 28,
        }
    );
    assert_eq!(
        state.counts[113],
        Counts {
            number: 43,
            accross_used: 22,
            down_used: 24,
            reverse_number: 46,
            reverse_accross_used: 19,
            reverse_down_used: 11,
        }
    );
}

#[test]
fn example_solution_through_push_fills_the_grid() {
    let problem = example_problem();
    let mut state = State::new(&problem);
    let cells = fields(EXAMPLE_SOLUTION);
    for f in cells.iter().take(113) {
        assert_eq!(state.push(*f), Ok(()));
    }
    assert!(state.is_final());
    assert_eq!(state.fields, cells);
}

#[test]
fn initial_state_holds_one_tally() {
    let problem = problem(3, 3, &[1, 4, 5], &[1, 2, 3]);
    let state = State::new(&problem);
    assert!(state.fields.is_empty());
    assert_eq!(
        state.counts,
        vec![Counts {
            number: 1,
            accross_used: 0,
            down_used: 0,
            reverse_number: 5,
            reverse_accross_used: 0,
            reverse_down_used: 0,
        }]
    );
    assert!(!state.is_final());
}

#[test]
fn reverse_number_starts_at_the_greatest_clue_of_either_list() {
    let p = problem(3, 3, &[1, 4, 5], &[1, 2, 9]);
    assert_eq!(State::new(&p).counts[0].reverse_number, 9);
    let p = problem(3, 3, &[7], &[]);
    assert_eq!(State::new(&p).counts[0].reverse_number, 7);
    let p = problem(3, 3, &[], &[2, 8, 3]);
    assert_eq!(State::new(&p).counts[0].reverse_number, 8);
}

#[test]
fn tallies_of_the_all_white_three_by_three() {
    let problem = problem(3, 3, &[1, 4, 5], &[1, 2, 3]);
    let mut state = State::new(&problem);
    let expected: [(usize, usize, usize, usize, usize, usize); 9] = [
        (2, 1, 1, 5, 0, 0),
        (3, 1, 2, 5, 0, 0),
        (4, 1, 3, 5, 0, 0),
        (5, 2, 3, 5, 0, 0),
        (5, 2, 3, 5, 0, 0),
        (5, 2, 3, 4, 1, 0),
        (6, 3, 3, 4, 1, 0),
        (6, 3, 3, 4, 1, 0),
        (6, 3, 3, 3, 2, 0),
    ];
    for (i, e) in expected.iter().enumerate() {
        assert!(state.can_push_one(Field::White));
        assert_eq!(state.push_one(Field::White), Ok(()));
        assert_eq!(
            state.counts[i + 1],
            Counts {
                number: e.0,
                accross_used: e.1,
                down_used: e.2,
                reverse_number: e.3,
                reverse_accross_used: e.4,
                reverse_down_used: e.5,
            }
        );
    }
    assert!(state.is_final());
}

#[test]
fn omitted_accross_word_is_left_over_at_completion() {
    let problem = problem(3, 3, &[1, 4, 5, 6], &[1, 2, 3]);
    assert_eq!(verdict(&problem, "........."), Err(RuleViolation::LeftOverAccross));
    for n in 1..9 {
        assert_eq!(verdict(&problem, &".".repeat(n)), Ok(()));
    }
}

#[test]
fn all_black_grid_leaves_accross_clues_over() {
    let problem = problem(3, 3, &[1, 4, 5], &[1, 2, 3]);
    assert_eq!(verdict(&problem, "#########"), Err(RuleViolation::LeftOverAccross));
}

#[test]
fn omitted_down_word_is_left_over_at_completion() {
    let problem = problem(3, 3, &[1, 4, 5], &[1, 2, 3, 4]);
    assert_eq!(verdict(&problem, "........."), Err(RuleViolation::LeftOverDown));
}

#[test]
fn wrong_accross_number() {
    let problem = problem(5, 5, &[1, 6, 7, 8, 9], &[1, 2, 3, 4, 5]);
    assert_eq!(verdict(&problem, "...#."), Err(RuleViolation::NumberWrongAccross));
}

#[test]
fn wrong_down_number() {
    let problem = problem(3, 3, &[1, 4, 5], &[2, 2, 3]);
    assert_eq!(verdict(&problem, "."), Err(RuleViolation::NumberWrongDown));
}

#[test]
fn wrong_accross_number_from_the_far_end() {
    let problem = problem(3, 3, &[1, 4, 5], &[1, 2, 3, 9]);
    assert_eq!(verdict(&problem, "......"), Err(RuleViolation::NumberWrongAccrossReverse));
}

#[test]
fn wrong_down_number_from_the_far_end() {
    let problem = problem(5, 5, &[1, 4, 5, 6, 7], &[1, 2, 3]);
    assert_eq!(verdict(&problem, "##...##...##.."), Err(RuleViolation::NumberWrongDownReverse));
}

#[test]
fn short_accross_word() {
    let problem = problem(3, 3, &[1, 4, 5], &[1, 2, 3]);
    assert_eq!(verdict(&problem, ".#"), Err(RuleViolation::WordTooShortAccross));
}

#[test]
fn short_down_word() {
    let problem = problem(3, 3, &[1, 4, 5], &[1, 2, 3]);
    assert_eq!(verdict(&problem, "...#"), Err(RuleViolation::WordTooShortDown));
}

#[test]
fn too_little_space_accross() {
    let problem = problem(3, 3, &[1, 4, 5], &[1, 2, 3]);
    assert_eq!(verdict(&problem, "#."), Err(RuleViolation::TooLittleSpaceAccross));
}

#[test]
fn too_little_space_down() {
    let problem = problem(3, 3, &[1, 4, 5], &[1, 2, 3]);
    assert_eq!(verdict(&problem, "###."), Err(RuleViolation::TooLittleSpaceDown));
}

#[test]
fn failed_commit_leaves_the_state_as_it_was() {
    let problem = problem(3, 3, &[1, 4, 5], &[1, 2, 3]);
    let mut state = State::new(&problem);
    assert_eq!(state.push_one(Field::White), Ok(()));
    let fields = state.fields.clone();
    let counts = state.counts.clone();
    assert_eq!(state.push_one(Field::Black), Err(RuleViolation::WordTooShortAccross));
    assert_eq!(state.fields, fields);
    assert_eq!(state.counts, counts);
    state.rollback(1);
    assert_eq!(state.fields, fields);
    assert_eq!(state.counts, counts);
}

#[test]
fn rollback_after_a_commit_restores_the_state() {
    let problem = problem(3, 3, &[1, 4, 5], &[1, 2, 3]);
    let mut state = State::new(&problem);
    assert_eq!(state.push_one(Field::White), Ok(()));
    assert_eq!(state.push_one(Field::White), Ok(()));
    let fields = state.fields.clone();
    let counts = state.counts.clone();
    assert_eq!(state.push_one(Field::White), Ok(()));
    assert_eq!(state.fields.len(), 3);
    assert_eq!(state.counts.len(), 4);
    state.rollback(2);
    assert_eq!(state.fields, fields);
    assert_eq!(state.counts, counts);
}

#[test]
fn rollback_after_a_completed_grid_restores_the_state() {
    let problem = problem(3, 3, &[1, 4, 5], &[1, 2, 3]);
    let mut state = State::new(&problem);
    for _ in 0..4 {
        assert_eq!(state.push(Field::White), Ok(()));
    }
    let fields = state.fields.clone();
    let counts = state.counts.clone();
    assert_eq!(state.push(Field::White), Ok(()));
    assert!(state.is_final());
    assert_eq!(state.fields.len(), 9);
    assert_eq!(state.counts.len(), 10);
    state.rollback(4);
    assert_eq!(state.fields, fields);
    assert_eq!(state.counts, counts);
}

#[test]
fn failed_replay_leaves_the_state_as_it_was() {
    let problem = problem(3, 3, &[1, 4, 5, 6], &[1, 2, 3]);
    let mut state = State::new(&problem);
    for _ in 0..4 {
        assert_eq!(state.push(Field::White), Ok(()));
    }
    let fields = state.fields.clone();
    let counts = state.counts.clone();
    assert_eq!(state.push(Field::White), Err(RuleViolation::LeftOverAccross));
    assert_eq!(state.fields, fields);
    assert_eq!(state.counts, counts);
}

#[test]
fn reads_outside_the_grid_are_out_of_bounds() {
    let problem = problem(3, 3, &[1, 4, 5], &[1, 2, 3]);
    let state = State::new(&problem);
    assert_eq!(state.try_at((-1, 0)), FieldEx::OutOfBounds);
    assert_eq!(state.try_at((0, -1)), FieldEx::OutOfBounds);
    assert_eq!(state.try_at((3, 0)), FieldEx::OutOfBounds);
    assert_eq!(state.try_at((0, 3)), FieldEx::OutOfBounds);
    assert_eq!(state.at((3, 3)), Field::Black);
    assert_eq!(state.try_at((0, 0)), FieldEx::Unfilled);
    assert_eq!(state.try_at((2, 2)), FieldEx::Unfilled);
}

#[test]
fn reads_past_the_midpoint_are_mirrored() {
    let problem = problem(5, 5, &[1, 4, 5, 6, 7], &[1, 2, 3]);
    let mut state = State::new(&problem);
    for f in fields("#...#") {
        assert_eq!(state.push_one(f), Ok(()));
    }
    assert_eq!(state.try_at((0, 0)), FieldEx::Field(Field::Black));
    assert_eq!(state.try_at((1, 0)), FieldEx::Field(Field::White));
    assert_eq!(state.at((1, 0)), Field::White);
    assert_eq!(state.try_at((4, 4)), FieldEx::Field(Field::Black));
    assert_eq!(state.try_at((3, 4)), FieldEx::Field(Field::White));
    assert_eq!(state.try_at((0, 4)), FieldEx::Field(Field::Black));
    assert_eq!(state.try_at((0, 1)), FieldEx::Unfilled);
    assert_eq!(state.try_at((4, 3)), FieldEx::Unfilled);
    assert_eq!(state.try_at((2, 2)), FieldEx::Unfilled);
}

#[test]
fn scan_walks_past_the_border() {
    let problem = problem(3, 3, &[1, 4, 5], &[1, 2, 3]);
    let mut state = State::new(&problem);
    assert_eq!(state.push_one(Field::White), Ok(()));
    assert_eq!(state.push_one(Field::White), Ok(()));
    let mut walk = state.scan((1, 0), (-1, 0));
    assert_eq!(walk.next(), Some(FieldEx::Field(Field::White)));
    assert_eq!(walk.next(), Some(FieldEx::Field(Field::White)));
    assert_eq!(walk.next(), Some(FieldEx::OutOfBounds));
    assert_eq!(walk.next(), Some(FieldEx::OutOfBounds));
    assert_eq!(walk.position, (-3, 0));
    let mut walk = state.scan((0, 0), (1, 1));
    assert_eq!(walk.next(), Some(FieldEx::Field(Field::White)));
    assert_eq!(walk.next(), Some(FieldEx::Unfilled));
    assert_eq!(walk.next(), Some(FieldEx::Field(Field::White)));
    assert_eq!(walk.next(), Some(FieldEx::OutOfBounds));
}

#[test]
fn lower_half_accepts_only_the_mirrored_colour() {
    let problem = problem(5, 5, &[1, 4, 5, 6, 7], &[1, 2, 3]);
    let mut state = State::new(&problem);
    for f in fields("#...##...##...#") {
        assert!(state.can_push_one(f));
        assert_eq!(state.push_one(f), Ok(()));
    }
    assert!(state.can_push_one(Field::Black));
    assert!(!state.can_push_one(Field::White));
    assert_eq!(state.push_one(Field::Black), Ok(()));
    assert!(state.can_push_one(Field::White));
    assert!(!state.can_push_one(Field::Black));
    for f in fields("...##...#") {
        assert!(state.can_push_one(f));
        assert_eq!(state.push_one(f), Ok(()));
    }
    assert!(state.is_final());
    assert!(!state.can_push_one(Field::White));
    assert!(!state.can_push_one(Field::Black));
}

#[test]
fn problem_geometry() {
    let p = problem(15, 7, &[1], &[1]);
    assert_eq!(p.field_count(), 105);
    assert!(p.in_bounds((0, 0)));
    assert!(p.in_bounds((14, 6)));
    assert!(!p.in_bounds((15, 6)));
    assert!(!p.in_bounds((14, 7)));
    assert!(!p.in_bounds((-1, 0)));
    assert!(!p.in_bounds((0, -1)));
}

#[test]
fn new_keeps_what_it_is_given() {
    let p = Problem::new(String::from("EXAMPLE"), (3, 5), vec![1, 4], vec![1, 2, 3]).unwrap();
    assert_eq!(p.name, "EXAMPLE");
    assert_eq!(p.size, (3, 5));
    assert_eq!(p.accross, vec![1, 4]);
    assert_eq!(p.down, vec![1, 2, 3]);
}

#[test]
fn new_refuses_unusable_problems() {
    assert!(Problem::new(String::new(), (0, 3), vec![1], vec![1]).is_none());
    assert!(Problem::new(String::new(), (3, 0), vec![1], vec![1]).is_none());
    assert!(Problem::new(String::new(), (3, 3), vec![], vec![]).is_none());
    assert!(Problem::new(String::new(), (3, 3), vec![0], vec![1]).is_none());
    assert!(Problem::new(String::new(), (3, 3), vec![1], vec![1, 0]).is_none());
    assert!(Problem::new(String::new(), (usize::MAX, 2), vec![1], vec![1]).is_none());
    assert!(Problem::new(String::new(), (isize::MAX as usize, 1), vec![1], vec![1]).is_none());
    assert!(Problem::new(String::new(), (isize::MAX as usize - 3, 1), vec![1], vec![1]).is_some());
    assert!(Problem::new(String::new(), (3, 3), vec![1], vec![]).is_some());
}

#[test]
fn render_shows_each_cell_and_ends_each_row() {
    let problem = problem(3, 3, &[1, 4, 5], &[1, 2, 3]);
    let mut state = State::new(&problem);
    assert_eq!(state.render(), b"? ? ? \r\n? ? ? \r\n? ? ? \r\n\r\n".to_vec());
    assert_eq!(state.push_one(Field::Black), Ok(()));
    assert_eq!(state.push_one(Field::Black), Ok(()));
    assert_eq!(state.render(), b"# # ? \r\n? ? ? \r\n? # # \r\n\r\n".to_vec());
    state.rollback(0);
    for _ in 0..5 {
        assert_eq!(state.push(Field::White), Ok(()));
    }
    assert_eq!(state.render(), b". . . \r\n. . . \r\n. . . \r\n\r\n".to_vec());
}

#[test]
fn render_of_a_wide_grid() {
    let problem = problem(5, 1, &[1], &[]);
    let mut state = State::new(&problem);
    assert_eq!(state.push_one(Field::Black), Ok(()));
    assert_eq!(state.render(), b"# ? ? ? # \r\n\r\n".to_vec());
}
