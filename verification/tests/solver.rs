use sudoku_solver::{get_peers, get_units, Cell, Sudoku};

const EASY: &str = "53..7....6..195....98....6.8...6...34..8.3..17...2...6.6....28....419..5....8..79";
const EASY_SOLUTION: &str =
    "534678912672195348198342567859761423426853791713924856961537284287419635345286179";

fn render_digits(s: &Sudoku) -> String {
    s.render().chars().filter(|c| *c != '\n').collect()
}

#[test]
fn easy_puzzle_solves_and_is_valid() {
    let parsed = Sudoku::parse(EASY);
    let solved = parsed.solve();
    assert!(solved.is_some());
    let solved = solved.unwrap();
    assert!(solved.is_valid());
    assert_eq!(render_digits(&solved), EASY_SOLUTION);
}

#[test]
fn duplicate_in_row_fails_validity() {
    let mut text = String::from("55");
    for _ in 0..79 {
        text.push('.');
    }
    let parsed = Sudoku::parse(&text);
    assert!(!parsed.is_valid());
}

#[test]
fn empty_puzzle_solves_to_some_valid_grid() {
    let text: String = std::iter::repeat('.').take(81).collect();
    let parsed = Sudoku::parse(&text);
    // no clue: every cell stays fully open
    assert_eq!(parsed.render().chars().filter(|c| *c == '.').count(), 81);
    let solved = parsed.solve();
    assert!(solved.is_some());
    assert!(solved.unwrap().is_valid());
}

#[test]
fn solved_grid_is_returned_unchanged() {
    let parsed = Sudoku::parse(EASY_SOLUTION);
    assert!(parsed.is_valid());
    let solved = parsed.solve();
    assert!(solved.is_some());
    let solved = solved.unwrap();
    assert!(solved.eq_grid(&parsed));
}

#[test]
fn contradictory_prefills_never_yield_a_valid_grid() {
    // Two 5s forced into the top-left box: parse propagation rejects the
    // second clue, and no valid grid can come out of the leftovers.
    let mut text = String::from("5.........5");
    for _ in 0..70 {
        text.push('.');
    }
    let parsed = Sudoku::parse(&text);
    assert!(!parsed.is_valid());
    if let Some(s) = parsed.solve() {
        assert!(!s.is_valid());
    }
}

#[test]
fn unsolvable_puzzles_report_no_solution() {
    // The easy puzzle has a unique completion, so replacing an open cell with
    // a wrong clue leaves a grid with no valid completion at all. Whenever the
    // search runs on such a grid, it must come back empty-handed or with a
    // grid that fails validation; plenty of cases exhaust the search outright.
    let solution = render_digits(&Sudoku::parse(EASY).solve().unwrap());
    let easy: Vec<char> = EASY.chars().collect();
    let sol: Vec<char> = solution.chars().collect();
    let mut nones = 0usize;
    for i in 0..81 {
        if easy[i] != '.' {
            continue;
        }
        for d in ['1', '2', '3', '4', '5', '6', '7', '8', '9'] {
            if d == sol[i] {
                continue;
            }
            let mut modified = easy.clone();
            modified[i] = d;
            let text: String = modified.iter().collect();
            match Sudoku::parse(&text).solve() {
                None => {
                    nones += 1;
                },
                Some(g) => assert!(!g.is_valid()),
            }
        }
    }
    assert!(nones > 0);
}

#[test]
fn solve_is_deterministic() {
    let parsed = Sudoku::parse(EASY);
    let a = parsed.solve().unwrap();
    let b = parsed.solve().unwrap();
    assert!(a.eq_grid(&b));
    assert_eq!(a.render(), b.render());

    let empty: String = std::iter::repeat('.').take(81).collect();
    let open = Sudoku::parse(&empty);
    let c = open.solve().unwrap();
    let d = open.solve().unwrap();
    assert!(c.eq_grid(&d));
}

#[test]
fn reparse_of_rendered_solution_is_valid() {
    let solved = Sudoku::parse(EASY).solve().unwrap();
    let reparsed = Sudoku::parse(&solved.render());
    assert!(reparsed.is_valid());
    assert!(reparsed.eq_grid(&solved));
}

#[test]
fn round_trip_returns_equal_grid() {
    let solved = Sudoku::parse(EASY).solve().unwrap();
    let back = solved.round_trip();
    assert!(back.eq_grid(&solved));
    assert!(back.is_valid());
}

#[test]
fn render_shows_digits_and_dots() {
    let mut grid = Sudoku::default();
    let all_open = grid.render();
    let lines: Vec<&str> = all_open.lines().collect();
    assert_eq!(lines.len(), 9);
    for line in &lines {
        assert_eq!(*line, ".........");
    }

    assert!(grid.fill(0, 5));
    let text = grid.render();
    let lines: Vec<&str> = text.lines().collect();
    assert_eq!(lines[0], "5........");
    for line in &lines[1..] {
        assert_eq!(*line, ".........");
    }

    let solved = Sudoku::parse(EASY_SOLUTION);
    let digits: String = solved.render().chars().filter(|c| *c != '\n').collect();
    assert_eq!(digits, EASY_SOLUTION);
}

#[test]
fn parse_ignores_whitespace() {
    let spaced: String = EASY_SOLUTION
        .chars()
        .flat_map(|c| vec![c, ' '])
        .collect();
    let with_newlines = format!("  {}\n", spaced);
    let parsed = Sudoku::parse(&with_newlines);
    assert!(parsed.is_valid());

    // vertical tab and no-break space count as whitespace too
    let exotic = format!("\u{000B}\u{00A0}{}\u{2003}", EASY_SOLUTION);
    let parsed = Sudoku::parse(&exotic);
    assert!(parsed.is_valid());
}

#[test]
fn cell_operations() {
    let mut c = Cell::open();
    assert_eq!(c.count(), 9);
    assert!(c.contains(1) && c.contains(9));
    assert_eq!(c.is_solved(), None);
    assert_eq!(c.possible_values(), vec![1, 2, 3, 4, 5, 6, 7, 8, 9]);

    assert!(c.remove(3));
    assert_eq!(c.count(), 8);
    assert!(!c.contains(3));
    assert_eq!(c.possible_values(), vec![1, 2, 4, 5, 6, 7, 8, 9]);

    for v in [1, 2, 4, 5, 6, 7, 8] {
        assert!(c.remove(v));
    }
    assert_eq!(c.count(), 1);
    assert_eq!(c.is_solved(), Some(9));
    assert!(!c.remove(9));
    assert_eq!(c.count(), 0);
    assert_eq!(c.is_solved(), None);
    assert!(c.possible_values().is_empty());
}

#[test]
fn peers_of_corner_cell() {
    let peers = get_peers(0);
    assert_eq!(peers.len(), 20);
    let expected: Vec<usize> = vec![
        // rest of the row
        1, 2, 3, 4, 5, 6, 7, 8, // rest of the column
        9, 18, 27, 36, 45, 54, 63, 72, // rest of the box
        10, 11, 19, 20,
    ];
    for e in &expected {
        assert!(peers.contains(e), "missing peer {}", e);
    }
    let mut sorted = peers.clone();
    sorted.sort();
    sorted.dedup();
    assert_eq!(sorted.len(), 20);
}

#[test]
fn units_of_center_cell() {
    let units = get_units(40);
    assert_eq!(units.len(), 27);
    // column block
    for k in 0..9 {
        assert_eq!(units[k], k * 9 + 4);
    }
    // row block
    for k in 0..9 {
        assert_eq!(units[9 + k], 36 + k);
    }
    // box block
    let expected_box = [30, 31, 32, 39, 40, 41, 48, 49, 50];
    for k in 0..9 {
        assert_eq!(units[18 + k], expected_box[k]);
    }
}

#[test]
fn fill_and_eliminate_propagate() {
    let mut grid = Sudoku::default();
    assert!(grid.fill(0, 5));
    // refilling the same digit is consistent
    assert!(grid.fill(0, 5));
    // a peer can no longer take 5
    assert!(!grid.fill(1, 5));
}

#[test]
fn eliminate_reports_contradiction() {
    let mut grid = Sudoku::default();
    assert!(grid.fill(0, 5));
    // eliminating the solved digit from the solved cell is a contradiction
    assert!(!grid.eliminate(0, 5));
}

#[test]
fn eliminate_noop_when_absent() {
    let mut grid = Sudoku::default();
    assert!(grid.fill(0, 5));
    // 5 is already gone from a row peer: eliminating it again succeeds as a no-op
    assert!(grid.eliminate(1, 5));
}

#[test]
fn hidden_single_is_found() {
    // In row 0, eliminate digit 7 from every cell but the last: the unit scan
    // must then force 7 into cell 8.
    let mut grid = Sudoku::default();
    for i in 0..8 {
        assert!(grid.eliminate(i, 7));
    }
    let units = get_units(8);
    assert!(grid.handle_neighbors(&units, 9, 7));
    // cell 8 is now solved to 7: filling any other digit there fails
    let mut probe = grid;
    assert!(!probe.fill(8, 3));
}

#[test]
fn short_input_leaves_grid_open() {
    let parsed = Sudoku::parse("12345");
    assert!(!parsed.is_valid());
    let text = parsed.render();
    assert_eq!(text.chars().filter(|c| *c == '.').count(), 81);
}
