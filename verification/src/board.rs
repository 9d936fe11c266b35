//! The board: for each digit, the cells that hold it.
use crate::bitfield::{Bitfield, Cell};
use crate::digit::Digit;
use crate::grid::{draw_grid, grid_text};
use core::ops::IndexMut;
use vstd::prelude::*;
use vstd::set_lib::lemma_disjoint_iff_empty_intersection;
use vstd::utf8::{encode_utf8, is_ascii_chars, is_ascii_chars_encode_utf8};

verus! {

/// The cells at which `text`, read row by row, holds the character `ch`.
pub open spec fn cells_with(text: Seq<char>, ch: char) -> Set<Cell> {
    Set::new(
        |cell: Cell|
            0 <= cell.0 < 9 && 0 <= cell.1 < 9 && 9 * cell.0 + cell.1 < text.len() && text[9 * cell.0
                + cell.1] == ch,
    )
}

/// Whether `text` is the text of a board: 81 characters, each of them a digit
/// from 1 to 9 or a dot, and no digit more than nine times.
pub open spec fn is_board_text(text: Seq<char>) -> bool {
    &&& text.len() == 81
    &&& forall|i: int|
        0 <= i < 81 ==> #[trigger] text[i] == '.' || exists|digit: Digit| digit.character() == text[i]
    &&& forall|digit: Digit| #[trigger] cells_with(text, digit.character()).len() <= 9
}

/// The encoding of a text has at least one byte for each character.
proof fn lemma_encoding_len(text: Seq<char>)
    ensures
        encode_utf8(text).len() >= text.len(),
    decreases text.len(),
{
    if text.len() > 0 {
        lemma_encoding_len(text.drop_first());
    }
}

/// A text made of digits and dots takes one byte for each character.
proof fn lemma_plain_len(text: Seq<char>)
    requires
        forall|i: int|
            0 <= i < text.len() ==> #[trigger] text[i] == '.' || exists|digit: Digit|
                digit.character() == text[i],
    ensures
        encode_utf8(text).len() == text.len(),
{
    is_ascii_chars_encode_utf8(text);
}

/// A representation of a Sudoku. Rather than letting you look up what digit is located at a
/// position, we optimise to make it easiest to look up which positions are filled by a certain
/// digit.
///
/// Use the `Index` and `IndexMut` traits, with `Digit` enums as lookups, to find the positions
/// filled by any given digit.
#[derive(Debug, Eq, PartialEq)]
pub struct Board {
    placements: [Bitfield; 9],
}

impl Clone for Board {
    /// A board on which each digit is held by the same cells.
    fn clone(&self) -> (r: Self)
        ensures
            r == *self,
    {
        Board { placements: self.placements }
    }
}

impl Board {
    /// The field of the cells that hold `digit`.
    pub closed spec fn field(self, digit: Digit) -> Bitfield {
        self.placements@[digit.number() - 1]
    }

    /// The cells that hold `digit`.
    pub open spec fn placed(self, digit: Digit) -> Set<Cell> {
        self.field(digit)@
    }

    /// Whether no cell holds two digits and no digit is held by more than nine cells.
    pub open spec fn is_valid(self) -> bool {
        &&& forall|digit: Digit| #[trigger] self.placed(digit).len() <= 9
        &&& forall|a: Digit, b: Digit|
            a != b ==> (#[trigger] self.placed(a)).disjoint(#[trigger] self.placed(b))
    }

    /// The cells that hold a digit below `limit`.
    pub open spec fn placed_below(self, limit: int) -> Set<Cell> {
        Set::new(
            |cell: Cell|
                exists|digit: Digit| digit.number() < limit && self.placed(digit).contains(cell),
        )
    }

    /// The cells that hold a digit.
    pub open spec fn filled(self) -> Set<Cell> {
        self.placed_below(10)
    }

    /// The first digit from `number` up that `cell` holds, if it holds one.
    pub open spec fn digit_from(self, cell: Cell, number: int) -> Option<Digit>
        decreases 10 - number,
    {
        if number < 1 || number > 9 {
            None
        } else if self.placed(Digit::of_number(number)).contains(cell) {
            Some(Digit::of_number(number))
        } else {
            self.digit_from(cell, number + 1)
        }
    }

    /// How the cells are drawn, row by row: a cell that holds a digit as the
    /// least digit that it holds, any other as a blank.
    pub open spec fn symbols(self) -> Seq<char> {
        Seq::new(
            81,
            |i: int|
                match self.digit_from((i / 9, i % 9), 1) {
                    Some(digit) => digit.character(),
                    None => ' ',
                },
        )
    }

    /// Boards on which each digit is held by the same cells are the same board.
    pub proof fn lemma_equal_fields(self, other: Board)
        requires
            forall|digit: Digit| self.field(digit) == other.field(digit),
        ensures
            self == other,
    {
        assert forall|i: int| 0 <= i < 9 implies self.placements[i] == other.placements[i] by {
            assert(self.field(Digit::of_number(i + 1)) == other.field(Digit::of_number(i + 1)));
        }
        assert(self.placements =~= other.placements);
    }

    /// Create an empty Sudoku board.
    pub fn empty() -> (r: Self)
        ensures
            forall|digit: Digit| #[trigger] r.field(digit) == Bitfield::empty(),
            forall|digit: Digit| #[trigger] r.placed(digit) == Set::<Cell>::empty(),
    {
        Board { placements: [Bitfield::default();9] }
    }

    /// Assert the internal validity of the board structure. This says nothing about whether the
    /// puzzle follows the **rules** of Sudoku, and is instead just a simple check that we haven't
    /// accidentally put two different digits into the same square.
    pub fn valid(&self) -> (r: bool)
        ensures
            r == self.is_valid(),
    {
        let mut total = Bitfield::default();
        let digits = Digit::iter();
        let mut n: usize = 0;
        while n < 9
            invariant
                n <= 9,
                digits@ == Seq::new(9, |i: int| Digit::of_number(i + 1)),
                total@ == self.placed_below(n + 1),
                forall|digit: Digit| digit.number() <= n ==> #[trigger] self.placed(digit).len() <= 9,
                forall|a: Digit, b: Digit|
                    a != b && a.number() <= n && b.number() <= n ==> (#[trigger] self.placed(
                        a,
                    )).disjoint(#[trigger] self.placed(b)),
            decreases 9 - n,
        {
            let digit = digits[n];
            let current = self[digit];
            if current.len() > 9 {
                return false;
            }
            if !(current & total).is_empty() {
                proof {
                    lemma_disjoint_iff_empty_intersection(current@, total@);
                    let cell = choose|cell: Cell| current@.contains(cell) && total@.contains(cell);
                    let other = choose|other: Digit|
                        other.number() < n + 1 && self.placed(other).contains(cell);
                    assert(!self.placed(digit).disjoint(self.placed(other)));
                }
                return false;
            }
            proof {
                assert(total@.union(current@) =~= self.placed_below(n + 2)) by {
                    assert forall|cell: Cell| self.placed_below(n + 2).contains(cell) implies total@.union(
                        current@,
                    ).contains(cell) by {
                        let d = choose|d: Digit| d.number() < n + 2 && self.placed(d).contains(cell);
                        assert(d == digit || self.placed_below(n + 1).contains(cell));
                    }
                }
                assert forall|a: Digit, b: Digit|
                    a != b && a.number() <= n + 1 && b.number() <= n + 1 implies (#[trigger] self.placed(
                    a,
                )).disjoint(#[trigger] self.placed(b)) by {
                    if a == digit || b == digit {
                        let other = if a == digit {
                            b
                        } else {
                            a
                        };
                        assert forall|cell: Cell|
                            !(self.placed(digit).contains(cell) && self.placed(other).contains(
                                cell,
                            )) by {
                            if self.placed(digit).contains(cell) && self.placed(other).contains(cell) {
                                assert(current@.intersect(total@).contains(cell));
                            }
                        }
                    }
                }
            }
            total = total | current;
            n += 1;
        }
        true
    }

    /// Parse a Sudoku from what appears to be the standard text representation. The cells of each
    /// row are listed in order as a single (81 char long) string. Digits are represented as
    /// themselves in ASCII, and "." represents empty cells. Any input that does not match the
    /// format is returned as None.
    pub fn parse(input: &str) -> (r: Option<Self>)
        ensures
            r is Some <==> is_board_text(input@),
            r matches Some(board) ==> forall|digit: Digit| #[trigger]
                board.placed(digit) == cells_with(input@, digit.character()),
    {
        if input.as_bytes().len() != 81 {
            proof {
                if is_board_text(input@) {
                    lemma_plain_len(input@);
                }
            }
            return None;
        }
        let mut board = Self::empty();
        let mut idx: usize = 0;
        for ch in it: input.chars()
            invariant
                idx == it.index(),
                it.seq() == input@,
                encode_utf8(input@).len() == 81,
                forall|i: int|
                    0 <= i < idx ==> #[trigger] input@[i] == '.' || exists|digit: Digit|
                        digit.character() == input@[i],
                forall|digit: Digit| #[trigger]
                    board.placed(digit) == cells_with(input@.take(idx as int), digit.character()),
        {
            proof {
                lemma_encoding_len(input@);
            }
            let ghost before = board;
            if ch != '.' {
                match Digit::parse(ch) {
                    None => {
                        return None;
                    },
                    Some(digit) => {
                        let row = idx / 9;
                        let col = idx % 9;
                        let bit = Bitfield::new(row, col);
                        let merged = board[digit] | bit;
                        *board.index_mut(digit) = merged;
                    },
                }
            }
            proof {
                assert forall|digit: Digit| #[trigger]
                    board.placed(digit) == cells_with(input@.take(idx + 1), digit.character()) by {
                    assert(before.placed(digit) == cells_with(
                        input@.take(idx as int),
                        digit.character(),
                    ));
                }
            }
            idx += 1;
        }
        proof {
            lemma_plain_len(input@);
            assert forall|digit: Digit| #[trigger]
                board.placed(digit) == cells_with(input@, digit.character()) by {}
        }
        if board.valid() {
            proof {
                assert forall|digit: Digit| #[trigger]
                    cells_with(input@, digit.character()).len() <= 9 by {
                    assert(board.placed(digit).len() <= 9);
                }
            }
            Some(board)
        } else {
            proof {
                let digit = choose|digit: Digit| board.placed(digit).len() > 9;
                assert(cells_with(input@, digit.character()).len() > 9);
            }
            None
        }
    }

    /// The first digit, in rising order, that the cell at `row`, `col` holds.
    fn digit_in(&self, row: usize, col: usize) -> (r: Option<Digit>)
        requires
            row < 9,
            col < 9,
        ensures
            r == self.digit_from((row as int, col as int), 1),
    {
        let cell = Bitfield::new(row, col);
        let digits = Digit::iter();
        let mut n: usize = 0;
        while n < 9
            invariant
                n <= 9,
                cell@ == set![(row as int, col as int)],
                digits@ == Seq::new(9, |i: int| Digit::of_number(i + 1)),
                self.digit_from((row as int, col as int), 1) == self.digit_from(
                    (row as int, col as int),
                    n + 1,
                ),
            decreases 9 - n,
        {
            let digit = digits[n];
            if self[digit].contains(cell) {
                return Some(digit);
            }
            n += 1;
        }
        None
    }

    /// Draws the board as ascii art, with each digit in the cells that hold it.
    pub fn to_string(&self) -> (text: String)
        ensures
            text@ == grid_text(self.symbols()),
    {
        let mut cells = [' ';81];
        let mut row: usize = 0;
        while row < 9
            invariant
                row <= 9,
                forall|i: int| 0 <= i < 9 * row ==> cells@[i] == self.symbols()[i],
            decreases 9 - row,
        {
            let mut col: usize = 0;
            while col < 9
                invariant
                    row < 9,
                    col <= 9,
                    forall|i: int| 0 <= i < 9 * row + col ==> cells@[i] == self.symbols()[i],
                decreases 9 - col,
            {
                let ch = match self.digit_in(row, col) {
                    Some(digit) => digit.to_char(),
                    None => ' ',
                };
                cells[9 * row + col] = ch;
                col += 1;
            }
            row += 1;
        }
        draw_grid(&cells)
    }
}

impl vstd::std_specs::core::IndexSpecImpl<Digit> for Board {
    open spec fn index_req(&self, index: &Digit) -> bool {
        true
    }
}

impl core::ops::Index<Digit> for Board {
    type Output = Bitfield;

    /// The field of the cells that hold `index`.
    fn index(&self, index: Digit) -> (r: &Bitfield)
        ensures
            *r == self.field(index),
    {
        let idx: usize = usize::from(index);
        &self.placements[idx - 1]
    }
}

impl core::ops::IndexMut<Digit> for Board {
    /// The field of the cells that hold `index`, to be changed in place.
    fn index_mut(&mut self, index: Digit) -> (r: &mut Bitfield)
        ensures
            *r == old(self).field(index),
            final(self).field(index) == *final(r),
            forall|other: Digit| other != index ==> final(self).field(other) == old(self).field(other),
    {
        let idx: usize = usize::from(index);
        &mut self.placements[idx - 1]
    }
}

} // verus!
