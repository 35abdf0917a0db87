use puzzle_solver::{is_solvable, parse_input, solve_astar, Board};

/// Plays the tiles `moves` on `cells`: each tile must stand next to the
/// blank and trades places with it.
fn play(cells: [u8; 9], moves: &[u8]) -> [u8; 9] {
    let mut c = cells;
    for &t in moves {
        let e = c.iter().position(|&x| x == 0).unwrap();
        let q = c.iter().position(|&x| x == t).unwrap();
        let (er, ec) = (e / 3, e % 3);
        let (qr, qc) = (q / 3, q % 3);
        assert_eq!(er.abs_diff(qr) + ec.abs_diff(qc), 1, "tile {} is not next to the blank", t);
        c.swap(e, q);
    }
    c
}

fn cells_of(text: &str) -> [u8; 9] {
    let mut c = [0u8; 9];
    for (i, ch) in text.chars().enumerate() {
        c[i] = ch.to_digit(10).unwrap() as u8;
    }
    c
}

fn check_optimal(text: &str, expected_steps: usize) {
    let board = parse_input(text).unwrap();
    assert!(is_solvable(board));
    let path = solve_astar(board).unwrap();
    assert_eq!(path.len(), expected_steps);
    assert_eq!(play(cells_of(text), &path), [1, 2, 3, 4, 5, 6, 7, 8, 0]);
}

#[test]
fn solves_four_step_board() {
    check_optimal("152403786", 4);
}

#[test]
fn solves_eight_step_board() {
    check_optimal("052183476", 8);
}

#[test]
fn solves_twelve_step_board() {
    check_optimal("582173046", 12);
}

#[test]
fn solves_sixteen_step_board() {
    check_optimal("872503146", 16);
}

#[test]
fn solves_twenty_step_board() {
    check_optimal("870542163", 20);
}

#[test]
fn solves_twenty_three_step_board() {
    check_optimal("241350768", 23);
}

#[test]
fn solves_thirty_one_step_board() {
    check_optimal("867254301", 31);
}

#[test]
fn even_permutations_are_solved() {
    for text in ["214356780", "312456780", "123456078", "087654321"] {
        let board = parse_input(text).unwrap();
        assert!(is_solvable(board));
        let path = solve_astar(board).unwrap();
        assert_eq!(play(cells_of(text), &path), [1, 2, 3, 4, 5, 6, 7, 8, 0]);
    }
}
