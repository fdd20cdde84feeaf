use puzzle15::add;
use puzzle15::board::{Board, ValidationError};
use puzzle15::moves::PossibleMoves;

#[test]
fn it_works() {
    let result = add(2, 2);
    assert_eq!(result, 4);
}

#[test]
fn from_field_list_recovers_every_slot() {
    let values: Vec<u8> = vec![5, 3, 10, 0, 1, 2, 4, 6, 7, 8, 9, 11, 12, 13, 14, 15];
    let board = Board::from_field_list(&values).unwrap();
    let mut zeros = 0;
    for i in 0..16 {
        assert_eq!(board.get(i), values[i]);
        if board.get(i) == 0 {
            zeros += 1;
        }
    }
    assert_eq!(zeros, 1);
    assert_eq!(board.empty_slot(), 3);
}

#[test]
fn from_field_list_rejects_wrong_count() {
    let values: Vec<u8> = vec![1, 2, 3];
    assert_eq!(
        Board::from_field_list(&values).unwrap_err(),
        ValidationError::WrongCount
    );
    let empty: Vec<u8> = vec![];
    assert_eq!(
        Board::from_field_list(&empty).unwrap_err(),
        ValidationError::WrongCount
    );
}

#[test]
fn from_field_list_rejects_out_of_range() {
    let values: Vec<u8> = vec![0, 1, 2, 3, 4, 5, 6, 7, 8, 9, 10, 11, 12, 13, 14, 16];
    assert_eq!(
        Board::from_field_list(&values).unwrap_err(),
        ValidationError::OutOfRange
    );
}

#[test]
fn from_field_list_rejects_duplicate_five() {
    // The tile value 5 appears twice, so the value 15 is missing.
    let values: Vec<u8> = vec![0, 1, 2, 3, 4, 5, 6, 7, 8, 9, 10, 11, 12, 13, 14, 5];
    assert_eq!(
        Board::from_field_list(&values).unwrap_err(),
        ValidationError::Duplicate
    );
}

#[test]
fn sorted_board_is_solved() {
    let board = Board::sorted();
    assert!(board.is_solved());
    for i in 0..15 {
        assert_eq!(board.get(i), (i + 1) as u8);
    }
    assert_eq!(board.get(15), 0);
    assert_eq!(board.empty_slot(), 15);
}

#[test]
fn apply_then_inverse_returns_original() {
    let board = Board::sorted();
    // The empty cell sits on slot 15: it can travel up and left.
    assert!(board.can_move(PossibleMoves::UP));
    assert!(!board.can_move(PossibleMoves::DOWN));
    assert!(board.can_move(PossibleMoves::LEFT));
    assert!(!board.can_move(PossibleMoves::RIGHT));
    let up = board.apply(PossibleMoves::UP);
    assert!(!up.is_solved());
    let back = up.apply(PossibleMoves::DOWN);
    assert!(back == board);
    let left = board.apply(PossibleMoves::LEFT);
    let back = left.apply(PossibleMoves::RIGHT);
    assert!(back == board);
}

#[test]
fn apply_swaps_empty_with_neighbour() {
    let board = Board::sorted();
    let up = board.apply(PossibleMoves::UP);
    // The empty cell moved from slot 15 to slot 11; tile 12 slid down.
    assert_eq!(up.empty_slot(), 11);
    assert_eq!(up.get(11), 0);
    assert_eq!(up.get(15), 12);
    for i in 0..11 {
        assert_eq!(up.get(i), (i + 1) as u8);
    }
}

#[test]
fn legal_moves_in_canonical_order() {
    // Empty in the middle (slot 5): every direction is legal.
    let values: Vec<u8> = vec![1, 2, 3, 4, 5, 0, 6, 7, 8, 9, 10, 11, 12, 13, 14, 15];
    let board = Board::from_field_list(&values).unwrap();
    assert_eq!(
        board.legal_moves(),
        vec![
            PossibleMoves::UP,
            PossibleMoves::DOWN,
            PossibleMoves::LEFT,
            PossibleMoves::RIGHT,
        ]
    );
    // Empty in the top-left corner: only down and right.
    let values: Vec<u8> = vec![0, 1, 2, 3, 4, 5, 6, 7, 8, 9, 10, 11, 12, 13, 14, 15];
    let board = Board::from_field_list(&values).unwrap();
    assert_eq!(
        board.legal_moves(),
        vec![PossibleMoves::DOWN, PossibleMoves::RIGHT]
    );
    // Empty in the bottom-right corner: only up and left.
    let board = Board::sorted();
    assert_eq!(
        board.legal_moves(),
        vec![PossibleMoves::UP, PossibleMoves::LEFT]
    );
}

#[test]
fn render_shows_the_grid() {
    let board = Board::sorted();
    assert_eq!(
        board.render(),
        "1 2 3 4\n5 6 7 8\n9 10 11 12\n13 14 15 0\nempty slot: 15\n"
    );
    let up = board.apply(PossibleMoves::UP);
    assert_eq!(
        up.render(),
        "1 2 3 4\n5 6 7 8\n9 10 11 0\n13 14 15 12\nempty slot: 11\n"
    );
}

#[test]
fn random_board_is_a_permutation() {
    let board = Board::random();
    let mut seen = [false; 16];
    for i in 0..16 {
        let v = board.get(i) as usize;
        assert!(v < 16);
        assert!(!seen[v]);
        seen[v] = true;
    }
    assert_eq!(board.get(board.empty_slot()), 0);
}
