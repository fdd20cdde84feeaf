use puzzle15::board::Board;
use puzzle15::moves::{
    can_move_down, can_move_left, can_move_right, can_move_up, get_down_field, get_left_field,
    get_right_field, get_up_field, PossibleMoves,
};
use puzzle15::search::{solve, SolveOutcome};

#[test]
fn solved_board_needs_no_moves() {
    let board = Board::sorted();
    match solve(&board) {
        SolveOutcome::Solved { moves } => assert!(moves.is_empty()),
        SolveOutcome::Unsolvable => panic!("the goal board must be solvable"),
    }
}

#[test]
fn one_transposition_needs_one_move() {
    // The goal board with the tile 15 slid right: slots 14 and 15 exchanged,
    // so the empty cell sits on slot 14. One move undoes it: the empty cell
    // travels right.
    let values: Vec<u8> = vec![1, 2, 3, 4, 5, 6, 7, 8, 9, 10, 11, 12, 13, 14, 0, 15];
    let board = Board::from_field_list(&values).unwrap();
    match solve(&board) {
        SolveOutcome::Solved { moves } => {
            assert_eq!(moves.len(), 1);
            assert_eq!(moves[0], PossibleMoves::RIGHT);
        },
        SolveOutcome::Unsolvable => panic!("a one-move board must be solvable"),
    }
}

#[test]
fn two_moves_up_need_two_moves_down() {
    // Sliding the empty cell up twice leaves it two rows from home; the
    // shortest way back is exactly the two moves down that undo it.
    let board = Board::sorted()
        .apply(PossibleMoves::UP)
        .apply(PossibleMoves::UP);
    match solve(&board) {
        SolveOutcome::Solved { moves } => {
            assert_eq!(moves, vec![PossibleMoves::DOWN, PossibleMoves::DOWN]);
        },
        SolveOutcome::Unsolvable => panic!("a two-move board must be solvable"),
    }
}

#[test]
fn replaying_the_solution_solves_the_board() {
    // Scramble the goal board by a short walk, then solve it and replay the
    // answer. The search must not need more moves than the scramble took.
    let scramble = [
        PossibleMoves::UP,
        PossibleMoves::LEFT,
        PossibleMoves::UP,
        PossibleMoves::RIGHT,
        PossibleMoves::DOWN,
    ];
    let mut board = Board::sorted();
    for mv in scramble {
        assert!(board.can_move(mv));
        board = board.apply(mv);
    }
    match solve(&board) {
        SolveOutcome::Solved { moves } => {
            assert!(moves.len() <= scramble.len());
            let mut replayed = board;
            for mv in moves {
                assert!(replayed.can_move(mv));
                replayed = replayed.apply(mv);
            }
            assert!(replayed.is_solved());
        },
        SolveOutcome::Unsolvable => panic!("a scrambled goal board must be solvable"),
    }
}

#[test]
fn solving_a_random_shallow_walk() {
    // A random board may lie far from the goal; scramble with random legal
    // moves instead, which keeps the search shallow.
    let mut board = Board::sorted();
    let seed_board = Board::random();
    for i in 0..6 {
        let legal = board.legal_moves();
        let pick = (seed_board.get(i) as usize) % legal.len();
        board = board.apply(legal[pick]);
    }
    match solve(&board) {
        SolveOutcome::Solved { moves } => {
            assert!(moves.len() <= 6);
            let mut replayed = board;
            for mv in moves {
                replayed = replayed.apply(mv);
            }
            assert!(replayed.is_solved());
        },
        SolveOutcome::Unsolvable => panic!("a scrambled goal board must be solvable"),
    }
}

#[test]
fn move_legality_follows_the_grid() {
    // Slot 0 is the top-left corner.
    assert!(!can_move_up(0));
    assert!(can_move_down(0));
    assert!(!can_move_left(0));
    assert!(can_move_right(0));
    // Slot 15 is the bottom-right corner.
    assert!(can_move_up(15));
    assert!(!can_move_down(15));
    assert!(can_move_left(15));
    assert!(!can_move_right(15));
    // Slot 5 lies in the middle of the grid.
    assert!(can_move_up(5));
    assert!(can_move_down(5));
    assert!(can_move_left(5));
    assert!(can_move_right(5));
}

#[test]
fn neighbour_slots_follow_the_grid() {
    assert_eq!(get_up_field(5), 1);
    assert_eq!(get_down_field(5), 9);
    assert_eq!(get_left_field(5), 4);
    assert_eq!(get_right_field(5), 6);
    assert_eq!(get_up_field(15), 11);
    assert_eq!(get_left_field(15), 14);
}
