use sudoku::{candidates, generate_paths, new_box, solve, solve_helper, Bitfield, Board, Digit};

const CANONICAL: &str =
    "........8..3...4...9..2..6.....79.......612...6.5.2.7...8...5...1.....2.4.5.....3";

fn row_of(row: usize) -> Bitfield {
    let mut cells = Bitfield::default();
    for col in 0..9 {
        cells |= Bitfield::new(row, col);
    }
    cells
}

fn col_of(col: usize) -> Bitfield {
    let mut cells = Bitfield::default();
    for row in 0..9 {
        cells |= Bitfield::new(row, col);
    }
    cells
}

#[test]
fn single_cells_have_one_element_and_differ() {
    for a in 0..81 {
        let first = Bitfield::new(a / 9, a % 9);
        assert_eq!(first.len(), 1);
        for b in 0..81 {
            let second = Bitfield::new(b / 9, b % 9);
            assert_eq!(first == second, a == b);
        }
    }
}

#[test]
fn complement_stays_on_the_board() {
    let nothing = Bitfield::default();
    let everything = !nothing;
    assert_eq!(everything.len(), 81);
    assert!((!everything).is_empty());
    let cell = Bitfield::new(4, 4);
    assert_eq!((!cell).len(), 80);
    assert!(!(!cell).contains(cell));
    assert_eq!(!(!cell), cell);
}

#[test]
fn assigning_operators_agree_with_the_plain_ones() {
    let a = Bitfield::new(0, 0) | Bitfield::new(8, 8);
    let b = Bitfield::new(8, 8) | Bitfield::new(3, 4);
    let mut joined = a;
    joined |= b;
    assert_eq!(joined, a | b);
    assert_eq!(joined.len(), 3);
    let mut shared = a;
    shared &= b;
    assert_eq!(shared, a & b);
    assert_eq!(shared, Bitfield::new(8, 8));
}

#[test]
fn binary_text_has_the_first_cell_last() {
    let text = Bitfield::new(0, 0).to_binary();
    assert_eq!(text, format!("{}1", "0".repeat(80)));
    let text = Bitfield::new(8, 8).to_binary();
    assert_eq!(text, format!("1{}", "0".repeat(80)));
    let text = (Bitfield::new(0, 1) | Bitfield::new(1, 0)).to_binary();
    assert_eq!(text, format!("{}1000000010", "0".repeat(71)));
}

#[test]
fn drawing_ends_without_a_line_feed() {
    let text = Bitfield::default().to_string();
    assert_eq!(text.len(), 13 * 23 + 12);
    assert!(text.starts_with("+-----+-+-----+-+-----+\n|     | |     | |     |\n"));
    assert!(text.ends_with("|     | |     | |     |\n+-----+-+-----+-+-----+"));
}

#[test]
fn boxes_have_nine_cells_and_tile_the_board() {
    let mut total = Bitfield::default();
    for row in 0..3 {
        for col in 0..3 {
            let square = new_box(row, col);
            assert_eq!(square.len(), 9);
            assert!((square & total).is_empty());
            assert!(square.contains(Bitfield::new(3 * row + 1, 3 * col + 2)));
            total |= square;
        }
    }
    assert_eq!(total.len(), 81);
}

#[test]
fn every_path_has_one_cell_per_row_column_and_box() {
    for path in generate_paths() {
        assert_eq!(path.len(), 9);
        for i in 0..9 {
            assert_eq!((row_of(i) & path).len(), 1);
            assert_eq!((col_of(i) & path).len(), 1);
            assert_eq!((new_box(i / 3, i % 3) & path).len(), 1);
        }
    }
}

#[test]
fn paths_come_in_the_order_of_their_columns() {
    let paths = generate_paths();
    let first = Bitfield::new(0, 0)
        | Bitfield::new(1, 3)
        | Bitfield::new(2, 6)
        | Bitfield::new(3, 1)
        | Bitfield::new(4, 4)
        | Bitfield::new(5, 7)
        | Bitfield::new(6, 2)
        | Bitfield::new(7, 5)
        | Bitfield::new(8, 8);
    assert_eq!(paths[0], first);
    let last = Bitfield::new(0, 8)
        | Bitfield::new(1, 5)
        | Bitfield::new(2, 2)
        | Bitfield::new(3, 7)
        | Bitfield::new(4, 4)
        | Bitfield::new(5, 1)
        | Bitfield::new(6, 6)
        | Bitfield::new(7, 3)
        | Bitfield::new(8, 0);
    assert_eq!(paths[paths.len() - 1], last);
}

#[test]
fn generating_twice_gives_the_same_paths() {
    assert_eq!(generate_paths(), generate_paths());
}

#[test]
fn shifted_diagonal_is_a_path_only_where_it_fits_the_boxes() {
    // Row r takes column (r + 1) mod 9: rows 0 and 1 both fall into the first box.
    let mut diagonal = Bitfield::default();
    for row in 0..9 {
        diagonal |= Bitfield::new(row, (row + 1) % 9);
    }
    assert!(generate_paths().into_iter().all(|path| path != diagonal));
    // Row r takes column (3 * r + r / 3) mod 9, which moves on by one box in each row.
    let mut stepped = Bitfield::default();
    for row in 0..9 {
        stepped |= Bitfield::new(row, (3 * row + row / 3) % 9);
    }
    assert!(generate_paths().into_iter().any(|path| path == stepped));
}

#[test]
fn candidates_keep_the_order_of_the_paths() {
    let a = Bitfield::new(0, 0) | Bitfield::new(1, 1);
    let b = Bitfield::new(0, 0) | Bitfield::new(2, 2);
    let c = Bitfield::new(1, 1) | Bitfield::new(2, 2);
    let path_db = [c, b, a, b];
    let clues = Bitfield::new(0, 0);
    assert_eq!(candidates(&path_db, clues, Bitfield::default()), vec![b, a, b]);
    assert_eq!(candidates(&path_db, clues, Bitfield::new(2, 2)), vec![a]);
    assert_eq!(candidates(&path_db, clues, Bitfield::new(0, 0)), vec![]);
    assert_eq!(candidates(&path_db, Bitfield::default(), Bitfield::default()), vec![c, b, a, b]);
    assert_eq!(candidates(&[], clues, Bitfield::default()), vec![]);
}

#[test]
fn search_returns_the_first_assignment() {
    let a = Bitfield::new(0, 0);
    let b = Bitfield::new(0, 1);
    let c = Bitfield::new(0, 2);
    // No list at all: the empty assignment.
    assert_eq!(solve_helper(&[], a), Some(vec![]));
    // The first member that is free wins.
    assert_eq!(solve_helper(&[vec![a, b, c]], a), Some(vec![b]));
    // The first choice for the first list leaves nothing for the second.
    assert_eq!(solve_helper(&[vec![a, b], vec![a]], c), Some(vec![b, a]));
    // Of several assignments the one with the earliest members is returned.
    assert_eq!(
        solve_helper(&[vec![a, b, c], vec![a, b, c], vec![a, b, c]], Bitfield::default()),
        Some(vec![a, b, c])
    );
    // An empty list, or nothing but collisions, gives no assignment.
    assert_eq!(solve_helper(&[vec![a], vec![]], Bitfield::default()), None);
    assert_eq!(solve_helper(&[vec![a, b], vec![a, b], vec![a, b]], Bitfield::default()), None);
    assert_eq!(solve_helper(&[vec![a]], a), None);
}

#[test]
fn solving_twice_gives_the_same_board() {
    let paths = generate_paths();
    let mut first = Board::parse(CANONICAL).unwrap();
    let mut second = Board::parse(CANONICAL).unwrap();
    assert!(solve(&mut first, &paths));
    assert!(solve(&mut second, &paths));
    assert_eq!(first, second);
}

#[test]
fn canonical_puzzle_has_the_known_solution() {
    let paths = generate_paths();
    let mut board = Board::parse(CANONICAL).unwrap();
    assert!(solve(&mut board, &paths));
    let solved = Board::parse(
        "621943758783615492594728361142879635357461289869532174238197546916354827475286913",
    )
    .unwrap();
    assert_eq!(board, solved);
    let text = board.to_string();
    let lines = text.lines().collect::<Vec<_>>();
    assert_eq!(
        &lines[..],
        &[
            "+-----+-+-----+-+-----+",
            "|6 2 1| |9 4 3| |7 5 8|",
            "|7 8 3| |6 1 5| |4 9 2|",
            "|5 9 4| |7 2 8| |3 6 1|",
            "+-----+-+-----+-+-----+",
            "|1 4 2| |8 7 9| |6 3 5|",
            "|3 5 7| |4 6 1| |2 8 9|",
            "|8 6 9| |5 3 2| |1 7 4|",
            "+-----+-+-----+-+-----+",
            "|2 3 8| |1 9 7| |5 4 6|",
            "|9 1 6| |3 5 4| |8 2 7|",
            "|4 7 5| |2 8 6| |9 1 3|",
            "+-----+-+-----+-+-----+",
        ]
    );
}

#[test]
fn board_with_two_digits_in_one_cell_is_not_solved() {
    let paths = generate_paths();
    let mut board = Board::parse(CANONICAL).unwrap();
    // The cell in row 4, column 5 holds a 1 already.
    board[Digit::_2] |= Bitfield::new(4, 5);
    assert!(!board.valid());
    let before = board.clone();
    assert!(!solve(&mut board, &paths));
    assert_eq!(board, before);
}

#[test]
fn puzzle_without_solution_is_left_as_it_was() {
    let paths = generate_paths();
    let text = format!("11{}", ".".repeat(79));
    let mut board = Board::parse(&text).unwrap();
    let before = board.clone();
    assert!(!solve(&mut board, &paths));
    assert_eq!(board, before);
}

#[test]
fn empty_board_is_solved_with_the_first_paths() {
    let paths = generate_paths();
    let mut board = Board::empty();
    assert!(solve(&mut board, &paths));
    assert_eq!(board[Digit::_1], paths[0]);
    let mut total = Bitfield::default();
    for digit in Digit::iter() {
        assert!((board[digit] & total).is_empty());
        total |= board[digit];
    }
    assert_eq!(total.len(), 81);
}

#[test]
fn solving_without_paths_fails() {
    let mut board = Board::parse(CANONICAL).unwrap();
    let before = board.clone();
    assert!(!solve(&mut board, &[]));
    assert_eq!(board, before);
}

#[test]
fn parse_rejects_each_kind_of_bad_text() {
    // Too short and too long.
    assert_eq!(Board::parse(&".".repeat(80)), None);
    assert_eq!(Board::parse(&".".repeat(82)), None);
    // A character that is neither a digit from 1 to 9 nor a dot.
    assert_eq!(Board::parse(&format!("0{}", ".".repeat(80))), None);
    assert_eq!(Board::parse(&format!("{} ", ".".repeat(80))), None);
    // 81 bytes, but fewer characters.
    assert_eq!(Board::parse(&format!("\u{e9}{}", ".".repeat(79))), None);
    // 81 characters, but more bytes.
    assert_eq!(Board::parse(&format!("\u{e9}{}", ".".repeat(80))), None);
    // One digit ten times.
    assert_eq!(Board::parse(&format!("{}{}", "7".repeat(10), ".".repeat(71))), None);
    // Nine times is accepted.
    let board = Board::parse(&format!("{}{}", "7".repeat(9), ".".repeat(72))).unwrap();
    assert_eq!(board[Digit::_7].len(), 9);
    assert!(board.valid());
}

#[test]
fn parse_of_dots_is_the_empty_board() {
    assert_eq!(Board::parse(&".".repeat(81)), Some(Board::empty()));
}

#[test]
fn digits_parse_and_count_from_one() {
    let digits = Digit::iter();
    assert_eq!(digits.len(), 9);
    for (i, digit) in digits.into_iter().enumerate() {
        assert_eq!(usize::from(digit), i + 1);
        let ch = char::from_digit(i as u32 + 1, 10).unwrap();
        assert_eq!(Digit::parse(ch), Some(digit));
        assert_eq!(digit.to_char(), ch);
        assert_eq!(digit.to_string(), ch.to_string());
    }
    assert_eq!(Digit::parse('0'), None);
    assert_eq!(Digit::parse('.'), None);
    assert_eq!(Digit::parse('a'), None);
}

#[test]
fn board_draws_the_least_digit_of_a_cell() {
    let mut board = Board::empty();
    board[Digit::_4] |= Bitfield::new(0, 0);
    board[Digit::_2] |= Bitfield::new(0, 0);
    board[Digit::_9] |= Bitfield::new(8, 8);
    let text = board.to_string();
    let lines = text.lines().collect::<Vec<_>>();
    assert_eq!(lines.len(), 13);
    assert_eq!(lines[1], "|2    | |     | |     |");
    assert_eq!(lines[11], "|     | |     | |    9|");
}
