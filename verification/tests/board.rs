use sudoku::{Bitfield, Board, Digit};

#[test]
fn valid_function_works() {
    // does not test for correctness, just internal consistency
    let mut board = Board::empty();
    assert!(board.valid());

    board[Digit::_1] |= Bitfield::new(5, 5);
    board[Digit::_2] |= Bitfield::new(4, 5);
    board[Digit::_3] |= Bitfield::new(3, 5);
    assert!(board.valid());

    board[Digit::_5] |= Bitfield::new(5, 5);
    assert!(!board.valid());
}

#[test]
fn notices_incorrect_txt() {
    assert_eq!(None, Board::parse(""));
    // Correct length, contains invalid character
    assert_eq!(
        None,
        Board::parse(
            "........Q........................................................................"
        )
    );
    // 90 character string, too long
    assert_eq!(
        None,
        Board::parse(
            ".........................................................................................."
        )
    );
}

#[test]
fn parses_txt_correctly() {
    let input =
        "........8..3...4...9..2..6.....79.......612...6.5.2.7...8...5...1.....2.4.5.....3";
    let board = Board::parse(input).unwrap();

    assert_eq!(board[Digit::_1], Bitfield::new(7, 1) | Bitfield::new(4, 5));
    assert_eq!(
        board[Digit::_2],
        Bitfield::new(2, 4) | Bitfield::new(4, 6) | Bitfield::new(5, 5) | Bitfield::new(7, 7)
    );
    assert_eq!(board[Digit::_3], Bitfield::new(1, 2) | Bitfield::new(8, 8));
    assert_eq!(board[Digit::_4], Bitfield::new(1, 6) | Bitfield::new(8, 0));
    assert_eq!(
        board[Digit::_5],
        Bitfield::new(5, 3) | Bitfield::new(6, 6) | Bitfield::new(8, 2)
    );
    assert_eq!(
        board[Digit::_6],
        Bitfield::new(2, 7) | Bitfield::new(4, 4) | Bitfield::new(5, 1)
    );
    assert_eq!(board[Digit::_7], Bitfield::new(3, 4) | Bitfield::new(5, 7));
    assert_eq!(board[Digit::_8], Bitfield::new(0, 8) | Bitfield::new(6, 2));
    assert_eq!(board[Digit::_9], Bitfield::new(2, 1) | Bitfield::new(3, 5));
}

#[test]
fn displays_correctly() {
    // Use previous input just to make construction simpler
    let input =
        "........8..3...4...9..2..6.....79.......612...6.5.2.7...8...5...1.....2.4.5.....3";
    let board = Board::parse(input).unwrap();
    let string = board.to_string();
    let lines = string.lines().map(|line| line.trim()).collect::<Vec<_>>();

    assert_eq!(
        &lines[..],
        &[
            "+-----+-+-----+-+-----+",
            "|     | |     | |    8|",
            "|    3| |     | |4    |",
            "|  9  | |  2  | |  6  |",
            "+-----+-+-----+-+-----+",
            "|     | |  7 9| |     |",
            "|     | |  6 1| |2    |",
            "|  6  | |5   2| |  7  |",
            "+-----+-+-----+-+-----+",
            "|    8| |     | |5    |",
            "|  1  | |     | |  2  |",
            "|4   5| |     | |    3|",
            "+-----+-+-----+-+-----+",
        ]
    );
}
