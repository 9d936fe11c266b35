//! The drawing of a board as text.
use vstd::prelude::*;
use vstd::string::StringExecFns;

verus! {

/// `String::push` appends the given character to the end of the string.
pub assume_specification[ String::push ](text: &mut String, ch: char)
    ensures
        final(text)@ == old(text)@.push(ch),
;

/// The line that is drawn above, between and below the three bands of a board.
pub open spec fn separator() -> Seq<char> {
    "+-----+-+-----+-+-----+"@
}

/// The line that is drawn for row `row` of a board whose cells, row by row,
/// are drawn as `cells`.
pub open spec fn row_text(cells: Seq<char>, row: int) -> Seq<char> {
    let at = |col: int| cells[9 * row + col];
    seq!['|', at(0), ' ', at(1), ' ', at(2)] + "| |"@ + seq![at(3), ' ', at(4), ' ', at(5)] + "| |"@
        + seq![at(6), ' ', at(7), ' ', at(8), '|', '\n']
}

/// The three lines that are drawn for band `band` of the board, under a separator.
pub open spec fn band_text(cells: Seq<char>, band: int) -> Seq<char> {
    separator() + seq!['\n'] + row_text(cells, 3 * band) + row_text(cells, 3 * band + 1) + row_text(
        cells,
        3 * band + 2,
    )
}

/// The drawing of a board whose 81 cells, row by row, are drawn as `cells`:
/// thirteen lines, of which the last does not end in a line feed.
pub open spec fn grid_text(cells: Seq<char>) -> Seq<char> {
    band_text(cells, 0) + band_text(cells, 1) + band_text(cells, 2) + separator()
}

/// What is drawn of a row up to its cell `col`, after the bar that starts the line.
spec fn cells_text(cells: Seq<char>, row: int, col: int) -> Seq<char>
    decreases col,
{
    if col <= 0 {
        Seq::empty()
    } else {
        let gap = if col == 1 {
            Seq::empty()
        } else if (col - 1) % 3 == 0 {
            "| |"@
        } else {
            seq![' ']
        };
        cells_text(cells, row, col - 1) + gap + seq![cells[9 * row + col - 1]]
    }
}

/// What is drawn of a board up to its row `row`.
spec fn rows_text(cells: Seq<char>, row: int) -> Seq<char>
    decreases row,
{
    if row <= 0 {
        Seq::empty()
    } else {
        let above = if (row - 1) % 3 == 0 {
            separator() + seq!['\n']
        } else {
            Seq::empty()
        };
        rows_text(cells, row - 1) + above + seq!['|'] + cells_text(cells, row - 1, 9) + seq![
            '|',
            '\n',
        ]
    }
}

proof fn lemma_row_text(cells: Seq<char>, row: int)
    ensures
        seq!['|'] + cells_text(cells, row, 9) + seq!['|', '\n'] == row_text(cells, row),
{
    reveal_with_fuel(cells_text, 10);
    reveal_strlit("| |");
}

proof fn lemma_band_text(cells: Seq<char>, band: int)
    requires
        0 <= band < 3,
    ensures
        rows_text(cells, 3 * band + 3) == rows_text(cells, 3 * band) + band_text(cells, band),
{
    let top = 3 * band;
    let line = separator() + seq!['\n'];
    lemma_row_text(cells, top);
    lemma_row_text(cells, top + 1);
    lemma_row_text(cells, top + 2);
    assert(rows_text(cells, top + 1) =~= rows_text(cells, top) + line + row_text(cells, top));
    assert(rows_text(cells, top + 2) =~= rows_text(cells, top + 1) + row_text(cells, top + 1));
    assert(rows_text(cells, top + 3) =~= rows_text(cells, top + 2) + row_text(cells, top + 2));
}

proof fn lemma_grid_text(cells: Seq<char>)
    ensures
        rows_text(cells, 9) + separator() == grid_text(cells),
{
    lemma_band_text(cells, 0);
    lemma_band_text(cells, 1);
    lemma_band_text(cells, 2);
}

/// Draws a board, with the characters of `cells` in its cells, row by row.
pub fn draw_grid(cells: &[char; 81]) -> (text: String)
    ensures
        text@ == grid_text(cells@),
{
    let row_sep = "+-----+-+-----+-+-----+";
    let mut text = String::new();
    let mut row: usize = 0;
    while row < 9
        invariant
            row <= 9,
            row_sep@ == separator(),
            text@ == rows_text(cells@, row as int),
        decreases 9 - row,
    {
        if row % 3 == 0 {
            text.append(row_sep);
            text.push('\n');
        }
        text.push('|');
        let ghost start = text@;
        let mut col: usize = 0;
        while col < 9
            invariant
                row < 9,
                col <= 9,
                text@ == start + cells_text(cells@, row as int, col as int),
            decreases 9 - col,
        {
            if col != 0 {
                if col % 3 == 0 {
                    text.append("| |");
                } else {
                    text.push(' ');
                }
            }
            text.push(cells[9 * row + col]);
            col += 1;
        }
        text.push('|');
        text.push('\n');
        row += 1;
    }
    text.append(row_sep);
    proof {
        lemma_grid_text(cells@);
    }
    text
}

} // verus!
