use puzzle_solver::board::get_valid_moves;
use puzzle_solver::{format_number, is_solvable, parse_input, solve_astar, AStar, AStarNode, Board};
use std::cmp::Ordering;

#[test]
fn parse_reports_length_in_bytes() {
    assert_eq!(parse_input("12345678").unwrap_err(), "输入长度必须为9位字符，当前长度为 8 位");
    assert_eq!(parse_input("").unwrap_err(), "输入长度必须为9位字符，当前长度为 0 位");
    assert_eq!(parse_input("1234567890").unwrap_err(), "输入长度必须为9位字符，当前长度为 10 位");
}

#[test]
fn parse_reports_first_non_digit() {
    assert_eq!(parse_input("12345678a").unwrap_err(), "第 9 位 'a' 不是有效数字（0-9）");
    assert_eq!(parse_input("1x3456b80").unwrap_err(), "第 2 位 'x' 不是有效数字（0-9）");
    // Seven ASCII digits and a two-byte letter make nine bytes.
    assert_eq!(parse_input("1234567é").unwrap_err(), "第 8 位 'é' 不是有效数字（0-9）");
}

#[test]
fn parse_reports_value_out_of_range() {
    assert_eq!(
        parse_input("012345679").unwrap_err(),
        "第 9 位 '9' 超出有效范围（0-8），8 数码拼图只使用数字 0-8"
    );
    assert_eq!(
        parse_input("123456789").unwrap_err(),
        "第 9 位 '9' 超出有效范围（0-8），8 数码拼图只使用数字 0-8"
    );
}

#[test]
fn parse_reports_first_repeat() {
    assert_eq!(parse_input("112345678").unwrap_err(), "数字 '1' 重复出现，每个数字（0-9）只能使用一次");
    assert_eq!(parse_input("123451780").unwrap_err(), "数字 '1' 重复出现，每个数字（0-9）只能使用一次");
}

#[test]
fn parse_trims_white_space() {
    let expected = Board::from_array([5, 0, 4, 8, 7, 1, 6, 2, 3]);
    assert_eq!(parse_input("  504871623\n").unwrap(), expected);
    assert_eq!(parse_input("\t504871623 ").unwrap(), expected);
}

#[test]
fn parsed_boards_are_permutations() {
    for text in ["123456780", "087654321", "504871623", "867254301"] {
        let board = parse_input(text).unwrap();
        let mut seen = [false; 9];
        for i in 0..9 {
            let v = board.tile(i) as usize;
            assert!(!seen[v]);
            seen[v] = true;
        }
    }
}

#[test]
fn format_number_edge_cases() {
    assert_eq!(format_number("1"), "1");
    assert_eq!(format_number("12"), "12");
    assert_eq!(format_number("123456789"), "123,456,789");
    assert_eq!(format_number("1234567890123"), "123,456,789,012,3");
}

#[test]
fn manhattan_distance_of_each_tile() {
    // Tile 1 two rows and two columns away from its corner.
    let board = Board::from_array([0, 2, 3, 4, 5, 6, 7, 8, 1]);
    assert_eq!(board.manhattan_distance(&Board::GOAL_POSITIONS), 4);
    let reversed = Board::from_array([8, 7, 6, 5, 4, 3, 2, 1, 0]);
    assert_eq!(reversed.manhattan_distance(&Board::GOAL_POSITIONS), 16);
    // A different table: the blank first, then 1..8.
    let table = [0usize, 1, 2, 3, 4, 5, 6, 7, 8];
    let board = Board::from_array([0, 1, 2, 3, 4, 5, 6, 7, 8]);
    assert_eq!(board.manhattan_distance(&table), 0);
}

#[test]
fn solvability_of_examples() {
    assert!(is_solvable(Board::from_array([5, 0, 4, 8, 7, 1, 6, 2, 3])));
    assert!(is_solvable(Board::from_array([8, 6, 7, 2, 5, 4, 3, 0, 1])));
    assert!(!is_solvable(Board::from_array([2, 1, 3, 4, 5, 6, 7, 8, 0])));
    assert!(!is_solvable(Board::from_array([1, 2, 3, 4, 5, 6, 8, 7, 0])));
}

#[test]
fn valid_moves_follow_the_grid() {
    assert_eq!(get_valid_moves(4), vec![1, 7, 3, 5]);
    assert_eq!(get_valid_moves(0), vec![3, 1]);
    assert_eq!(get_valid_moves(8), vec![5, 7]);
    assert_eq!(get_valid_moves(3), vec![0, 6, 4]);
}

#[test]
fn board_keys_and_moves() {
    let board = Board::from_array([1, 2, 3, 4, 5, 6, 7, 8, 0]);
    let mut expected: u32 = 0;
    for v in [1u32, 2, 3, 4, 5, 6, 7, 8, 0].iter().rev() {
        expected = expected * 9 + v;
    }
    assert_eq!(board.key(), expected);
    assert_eq!(board.checked_key(), Some(expected));
    assert_eq!(Board::from_array([9, 2, 3, 4, 5, 6, 7, 8, 0]).checked_key(), None);
    assert_eq!(board.blank_position(), 8);
    assert_eq!(board.tile(0), 1);
    let moved = board.swapped(8, 7);
    assert_eq!(moved, Board::from_array([1, 2, 3, 4, 5, 6, 7, 0, 8]));
    assert_ne!(moved.key(), board.key());
}

#[test]
fn priority_prefers_lower_f_then_lower_h() {
    let board = Board::from_array([1, 2, 3, 4, 5, 6, 7, 8, 0]);
    let low_f = AStarNode::new(board, 1, 2, None, 0);
    let high_f = AStarNode::new(board, 2, 3, None, 0);
    assert_eq!(low_f.priority_cmp(&high_f), Ordering::Greater);
    assert_eq!(high_f.priority_cmp(&low_f), Ordering::Less);
    let low_h = AStarNode::new(board, 3, 2, None, 0);
    let high_h = AStarNode::new(board, 2, 3, None, 0);
    assert_eq!(low_h.priority_cmp(&high_h), Ordering::Greater);
    assert_eq!(low_h.priority_cmp(&low_h), Ordering::Equal);
    assert!(low_f > high_f);
    assert!(high_f < low_f);
    assert_eq!(low_f.partial_cmp(&high_f), Some(Ordering::Greater));
}

#[test]
fn open_set_pops_lowest_cost_first() {
    let start = Board::from_array([1, 2, 3, 4, 5, 6, 7, 0, 8]);
    let mut astar = AStar::new(start);
    let near = Board::from_array([1, 2, 3, 4, 5, 6, 7, 8, 0]);
    let far = Board::from_array([1, 2, 3, 4, 0, 6, 7, 5, 8]);
    astar.add_node(far, 1, start, 5);
    astar.add_node(near, 1, start, 8);
    // start: f = 0 + 1; near: f = 1 + 0; far: f = 1 + 2.
    let first = astar.find_lowest_f_cost().unwrap();
    let second = astar.find_lowest_f_cost().unwrap();
    let third = astar.find_lowest_f_cost().unwrap();
    assert_eq!(first, AStarNode::new(near, 1, 0, Some(0), 8));
    assert_eq!(second, AStarNode::new(start, 0, 1, None, 0));
    assert_eq!(third, AStarNode::new(far, 1, 2, Some(0), 5));
    assert!(astar.find_lowest_f_cost().is_none());
}

#[test]
fn path_of_unclosed_board_is_empty() {
    let start = Board::from_array([1, 2, 3, 4, 5, 6, 7, 0, 8]);
    let astar = AStar::new(start);
    assert!(astar.reconstruct_path(start).is_empty());
    assert!(astar.reconstruct_path(Board::from_array([9, 9, 9, 9, 9, 9, 9, 9, 9])).is_empty());
}

#[test]
fn solution_is_no_shorter_than_manhattan_distance() {
    let board = parse_input("504871623").unwrap();
    let path = solve_astar(board).unwrap();
    assert!(path.len() as u32 >= board.manhattan_distance(&Board::GOAL_POSITIONS));
}

#[test]
fn board_without_reachable_goal_has_no_solution() {
    // Two blanks and no tile 8 can never be sorted; the search space is tiny
    // because every reachable board keeps the same multiset of values.
    let board = Board::from_array([0, 0, 0, 0, 0, 0, 0, 0, 0]);
    assert_eq!(solve_astar(board), None);
}

#[test]
fn one_move_changes_distance_by_one() {
    let board = parse_input("504871623").unwrap();
    let before = board.manhattan_distance(&Board::GOAL_POSITIONS) as i64;
    let e = board.blank_position();
    for q in get_valid_moves(e) {
        let next = board.swapped(e, q);
        let after = next.manhattan_distance(&Board::GOAL_POSITIONS) as i64;
        assert_eq!((after - before).abs(), 1);
    }
}

#[test]
fn odd_permutations_are_reported_unsolvable() {
    for text in ["213456780", "123456870", "867254130"] {
        assert!(!is_solvable(parse_input(text).unwrap()));
    }
    for text in ["123456780", "867254301", "052183476"] {
        assert!(is_solvable(parse_input(text).unwrap()));
    }
}

#[test]
fn open_set_pops_in_priority_order() {
    let start = Board::from_array([1, 2, 3, 4, 5, 6, 7, 0, 8]);
    let mut astar = AStar::new(start);
    let boards = [
        "123456780", "123405786", "120453786", "012453786", "412053786", "412753086",
        "412753806", "412753860", "867254301", "123456078",
    ];
    let costs = [5u32, 1, 3, 0, 7, 2, 4, 6, 1, 3];
    for (text, g) in boards.iter().zip(costs.iter()) {
        astar.add_node(parse_input(text).unwrap(), *g, start, 1);
    }
    let mut popped = Vec::new();
    while let Some(node) = astar.find_lowest_f_cost() {
        popped.push(node);
    }
    assert_eq!(popped.len(), boards.len() + 1);
    for pair in popped.windows(2) {
        assert!(pair[0] >= pair[1], "{:?} came out before {:?}", pair[0], pair[1]);
    }
}

#[test]
fn exchanging_two_tiles_flips_solvability() {
    for text in ["123456780", "504871623", "867254301", "213456780"] {
        let board = parse_input(text).unwrap();
        let e = board.blank_position();
        for i in 0..9 {
            for j in (i + 1)..9 {
                if i != e && j != e {
                    assert_eq!(is_solvable(board.swapped(i, j)), !is_solvable(board));
                }
            }
        }
    }
}
