use sudoku::{generate_paths, solve, Bitfield, Board, Digit};

const CANONICAL: &str =
    "........8..3...4...9..2..6.....79.......612...6.5.2.7...8...5...1.....2.4.5.....3";

#[test]
fn solves_canonical_puzzle() {
    let paths = generate_paths();
    let clues = Board::parse(CANONICAL).unwrap();
    let mut board = clues.clone();
    assert!(solve(&mut board, &paths));

    let mut total = Bitfield::default();
    for digit in Digit::iter() {
        assert_eq!(board[digit].len(), 9);
        assert!(board[digit].contains(clues[digit]));
        assert!((board[digit] & total).is_empty());
        total |= board[digit];
    }
    assert_eq!(total.len(), 81);
    assert!((!total).is_empty());
}
