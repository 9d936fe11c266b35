//! The paths: the ways to place one digit in a solved Sudoku.
use crate::bitfield::{all_cells, lemma_all_cells_finite, Bitfield, Cell};
use crate::counting::lemma_path_count;
use crate::permutation::{
    all_permutations, is_permutation, is_permutation_list, lemma_all_permutations,
    lemma_filter_sorted, lemma_row_of, lemma_sorted_unique, lex_less, permutations, rows, sorted,
};
use vstd::prelude::*;

verus! {

/// The cells of row `row`.
pub open spec fn row_cells(row: int) -> Set<Cell> {
    Set::new(|cell: Cell| cell.0 == row && 0 <= cell.1 < 9)
}

/// The cells of column `col`.
pub open spec fn col_cells(col: int) -> Set<Cell> {
    Set::new(|cell: Cell| 0 <= cell.0 < 9 && cell.1 == col)
}

/// The cells of the 3x3 box that is the `col`-th from the left in the `row`-th
/// band from the top.
pub open spec fn box_cells(row: int, col: int) -> Set<Cell> {
    Set::new(|cell: Cell| 0 <= cell.0 < 9 && 0 <= cell.1 < 9 && cell.0 / 3 == row && cell.1 / 3 == col)
}

/// Whether `s` has exactly one cell in each of the nine boxes.
pub open spec fn one_per_box(s: Set<Cell>) -> bool {
    forall|row: int, col: int|
        0 <= row < 3 && 0 <= col < 3 ==> (#[trigger] box_cells(row, col)).intersect(s).len() == 1
}

/// Whether `s` is a path: a set of cells of the board with exactly one cell in
/// each row, in each column and in each box. These are the ways to place one
/// digit in a solved Sudoku.
pub open spec fn is_path(s: Set<Cell>) -> bool {
    &&& s.subset_of(all_cells())
    &&& forall|row: int| 0 <= row < 9 ==> (#[trigger] row_cells(row)).intersect(s).len() == 1
    &&& forall|col: int| 0 <= col < 9 ==> (#[trigger] col_cells(col)).intersect(s).len() == 1
    &&& one_per_box(s)
}

/// The cells that `p` chooses: in each row `r` that it speaks of, the cell in column `p[r]`.
pub open spec fn cells_of(p: Seq<usize>) -> Set<Cell> {
    Set::new(|cell: Cell| 0 <= cell.0 < p.len() && cell.1 == p[cell.0])
}

/// For each of the nine rows, a column in which `s` has a cell of that row.
/// For a path this is the one column in which it has one.
pub open spec fn columns_of(s: Set<Cell>) -> Seq<usize> {
    Seq::new(9, |row: int| choose|col: usize| s.contains((row, col as int)))
}

/// The sets of cells of the fields of `s`.
pub open spec fn views(s: Seq<Bitfield>) -> Seq<Set<Cell>> {
    s.map_values(|b: Bitfield| b@)
}

/// Whether `s` holds every path, and nothing else, in the lexicographic order
/// of the columns that the paths take from the first row down.
pub open spec fn is_path_list(s: Seq<Set<Cell>>) -> bool {
    &&& forall|i: int| 0 <= i < s.len() ==> is_path(#[trigger] s[i])
    &&& forall|t: Set<Cell>| is_path(t) ==> #[trigger] s.contains(t)
    &&& forall|i: int, j: int|
        0 <= i < j < s.len() ==> lex_less(columns_of(#[trigger] s[i]), columns_of(#[trigger] s[j]))
}

/// The filter that `generate_paths` applies to the permutations.
pub(crate) open spec fn keeper() -> spec_fn(Seq<usize>) -> bool {
    |p: Seq<usize>| one_per_box(cells_of(p))
}

/// The paths, in the order in which `generate_paths` hands them out.
pub closed spec fn all_paths() -> Seq<Set<Cell>> {
    all_permutations().filter(keeper()).map_values(
        |p: Seq<usize>| cells_of(p),
    )
}

/// Create a bitfield that's true for every cell inside a box, and false elsewhere.
pub fn new_box(row: usize, col: usize) -> (r: Bitfield)
    requires
        row < 3,
        col < 3,
    ensures
        r@ == box_cells(row as int, col as int),
{
    let mut r = Bitfield::default();
    let mut sub_row: usize = 0;
    while sub_row < 3
        invariant
            row < 3,
            col < 3,
            sub_row <= 3,
            r@ == box_cells(row as int, col as int).filter(|cell: Cell| cell.0 < 3 * row + sub_row),
        decreases 3 - sub_row,
    {
        let mut sub_col: usize = 0;
        while sub_col < 3
            invariant
                row < 3,
                col < 3,
                sub_row < 3,
                sub_col <= 3,
                r@ == box_cells(row as int, col as int).filter(
                    |cell: Cell|
                        cell.0 < 3 * row + sub_row || (cell.0 == 3 * row + sub_row && cell.1 < 3
                            * col + sub_col),
                ),
            decreases 3 - sub_col,
        {
            r = r | Bitfield::new(3 * row + sub_row, 3 * col + sub_col);
            sub_col += 1;
        }
        sub_row += 1;
    }
    r
}

/// The field that is set, in each row, at the column that `cols` gives for it.
fn path_of(cols: &[usize; 9]) -> (r: Bitfield)
    requires
        forall|i: int| 0 <= i < 9 ==> cols@[i] < 9,
    ensures
        r@ == cells_of(cols@),
{
    let mut r = Bitfield::default();
    let mut row: usize = 0;
    while row < 9
        invariant
            row <= 9,
            forall|i: int| 0 <= i < 9 ==> cols@[i] < 9,
            r@ == cells_of(cols@.take(row as int)),
        decreases 9 - row,
    {
        r = r | Bitfield::new(row, cols[row]);
        row += 1;
    }
    r
}

/// Whether `candidate` has exactly one cell in each of `boxes`.
fn fits_boxes(boxes: &[Bitfield; 9], candidate: Bitfield) -> (r: bool)
    requires
        forall|row: int, col: int|
            0 <= row < 3 && 0 <= col < 3 ==> (#[trigger] boxes@[3 * row + col])@ == box_cells(row, col),
    ensures
        r <==> one_per_box(candidate@),
{
    let mut n: usize = 0;
    while n < 9
        invariant
            n <= 9,
            forall|row: int, col: int|
                0 <= row < 3 && 0 <= col < 3 ==> (#[trigger] boxes@[3 * row + col])@ == box_cells(
                    row,
                    col,
                ),
            forall|row: int, col: int|
                0 <= row < 3 && 0 <= col < 3 && 3 * row + col < n ==> (#[trigger] box_cells(
                    row,
                    col,
                )).intersect(candidate@).len() == 1,
        decreases 9 - n,
    {
        let square = boxes[n];
        proof {
            assert(boxes@[3 * (n as int / 3) + n as int % 3]@ == box_cells(n as int / 3, n as int % 3));
        }
        if (square & candidate).len() != 1 {
            return false;
        }
        n += 1;
    }
    true
}

/// Generate all possible "Paths" that are valid within a Sudoku.
pub fn generate_paths() -> (paths: Vec<Bitfield>)
    ensures
        is_path_list(views(paths@)),
        paths@.len() == 46656,
        views(paths@) == all_paths(),
{
    let boxes = [
        new_box(0, 0),
        new_box(0, 1),
        new_box(0, 2),
        new_box(1, 0),
        new_box(1, 1),
        new_box(1, 2),
        new_box(2, 0),
        new_box(2, 1),
        new_box(2, 2),
    ];
    let perms = permutations();
    let mut paths: Vec<Bitfield> = Vec::new();
    let ghost keep = keeper();
    let ghost cells = |p: Seq<usize>| cells_of(p);
    let mut n: usize = 0;
    while n < perms.len()
        invariant
            n <= perms.len(),
            is_permutation_list(rows(perms@)),
            keep == keeper(),
            cells == |p: Seq<usize>| cells_of(p),
            forall|row: int, col: int|
                0 <= row < 3 && 0 <= col < 3 ==> (#[trigger] boxes@[3 * row + col])@ == box_cells(
                    row,
                    col,
                ),
            views(paths@) == rows(perms@).take(n as int).filter(keep).map_values(cells),
        decreases perms.len() - n,
    {
        let ghost p = rows(perms@)[n as int];
        let potential_path = path_of(&perms[n]);
        let ghost so_far = rows(perms@).take(n as int);
        proof {
            assert(rows(perms@).take(n + 1) =~= so_far.push(p));
            so_far.lemma_filter_push(p, keep);
        }
        if fits_boxes(&boxes, potential_path) {
            paths.push(potential_path);
            proof {
                assert(so_far.filter(keep).push(p).map_values(cells) =~= so_far.filter(
                    keep,
                ).map_values(cells).push(cells(p)));
            }
        }
        n += 1;
    }
    proof {
        assert(rows(perms@).take(n as int) =~= rows(perms@));
        lemma_all_paths();
    }
    paths
}

/// A set with one member has one element.
pub(crate) proof fn lemma_one<A>(s: Set<A>, a: A)
    requires
        s.contains(a),
        forall|b: A| s.contains(b) ==> b == a,
    ensures
        s.finite(),
        s.len() == 1,
{
    assert(s =~= set![a]);
}

/// The one member of a set with one element.
pub(crate) proof fn lemma_only<A>(s: Set<A>) -> (a: A)
    requires
        s.finite(),
        s.len() == 1,
    ensures
        s.contains(a),
        forall|b: A| s.contains(b) ==> b == a,
{
    Set::lemma_is_singleton(s);
    s.choose()
}

/// The cells that a permutation chooses form a path, if they take one cell
/// from each box, and the permutation can be read off them.
proof fn lemma_cells_of_permutation(p: Seq<usize>)
    requires
        is_permutation(p),
    ensures
        one_per_box(cells_of(p)) ==> is_path(cells_of(p)),
        columns_of(cells_of(p)) == p,
{
    let s = cells_of(p);
    assert forall|row: int| 0 <= row < 9 implies (#[trigger] row_cells(row)).intersect(s).len()
        == 1 by {
        lemma_one(row_cells(row).intersect(s), (row, p[row] as int));
    }
    assert forall|col: int| 0 <= col < 9 implies (#[trigger] col_cells(col)).intersect(s).len()
        == 1 by {
        let row = lemma_row_of(p, col as usize);
        lemma_one(col_cells(col).intersect(s), (row, col));
    }
    assert forall|row: int| 0 <= row < 9 implies columns_of(s)[row] == p[row] by {
        assert(s.contains((row, p[row] as int)));
    }
    assert(columns_of(s) =~= p);
}

/// A path is the set of cells that some permutation chooses: that of its columns.
proof fn lemma_columns_of_path(t: Set<Cell>)
    requires
        is_path(t),
    ensures
        is_permutation(columns_of(t)),
        cells_of(columns_of(t)) == t,
{
    let p = columns_of(t);
    lemma_all_cells_finite();
    assert forall|row: int| 0 <= row < 9 implies t.contains((row, #[trigger] p[row] as int))
        && p[row] < 9 by {
        let here = row_cells(row).intersect(t);
        vstd::set_lib::lemma_len_subset(here, all_cells());
        let cell = lemma_only(here);
        assert(t.contains((row, cell.1 as usize as int)));
        let col = choose|col: usize| t.contains((row, col as int));
        assert(all_cells().contains((row, col as int)));
    }
    assert forall|i: int, j: int| 0 <= i < j < 9 implies p[i] != p[j] by {
        if p[i] == p[j] {
            let col = p[i] as int;
            let here = col_cells(col).intersect(t);
            vstd::set_lib::lemma_len_subset(here, all_cells());
            lemma_only(here);
            assert(here.contains((i, col)));
            assert(here.contains((j, col)));
        }
    }
    assert forall|cell: Cell| t.contains(cell) implies cells_of(p).contains(cell) by {
        assert(all_cells().contains(cell));
        let here = row_cells(cell.0).intersect(t);
        vstd::set_lib::lemma_len_subset(here, all_cells());
        lemma_only(here);
        assert(here.contains(cell));
        assert(here.contains((cell.0, p[cell.0] as int)));
    }
    assert(cells_of(p) =~= t);
}

/// A start of a permutation chooses as many cells as it has rows.
proof fn lemma_cells_of_len(p: Seq<usize>)
    ensures
        cells_of(p).finite(),
        cells_of(p).len() == p.len(),
    decreases p.len(),
{
    if p.len() == 0 {
        assert(cells_of(p) =~= Set::empty());
    } else {
        let front = p.drop_last();
        lemma_cells_of_len(front);
        let cell: Cell = (front.len() as int, p.last() as int);
        assert(cells_of(p) =~= cells_of(front).insert(cell));
    }
}

/// The cells of the first `n` of the sets of `parts`.
spec fn cells_among(parts: Seq<Set<Cell>>, n: int) -> Set<Cell> {
    Set::new(|cell: Cell| exists|i: int| 0 <= i < n && i < parts.len() && parts[i].contains(cell))
}

proof fn lemma_cells_among(parts: Seq<Set<Cell>>, n: int)
    requires
        0 <= n <= parts.len(),
        forall|i: int| 0 <= i < parts.len() ==> is_path(#[trigger] parts[i]),
        forall|i: int, j: int|
            0 <= i < j < parts.len() ==> (#[trigger] parts[i]).disjoint(#[trigger] parts[j]),
    ensures
        cells_among(parts, n).finite(),
        cells_among(parts, n).len() == 9 * n,
        cells_among(parts, n).subset_of(all_cells()),
    decreases n,
{
    if n == 0 {
        assert(cells_among(parts, 0) =~= Set::empty());
    } else {
        lemma_cells_among(parts, n - 1);
        let before = cells_among(parts, n - 1);
        let next = parts[n - 1];
        assert(is_path(next));
        lemma_path_len(next);
        assert(cells_among(parts, n) =~= before.union(next));
        assert(before.disjoint(next)) by {
            assert forall|cell: Cell| !(before.contains(cell) && next.contains(cell)) by {
                if before.contains(cell) && next.contains(cell) {
                    let i = choose|i: int|
                        0 <= i < n - 1 && i < parts.len() && parts[i].contains(cell);
                    assert(parts[i].disjoint(parts[n - 1]));
                }
            }
        }
        vstd::set_lib::lemma_set_disjoint_lens(before, next);
    }
}

/// A path has nine cells.
pub proof fn lemma_path_len(s: Set<Cell>)
    requires
        is_path(s),
    ensures
        s.finite(),
        s.len() == 9,
{
    lemma_columns_of_path(s);
    lemma_cells_of_len(columns_of(s));
}

/// Nine paths of which no two share a cell fill the board: each cell lies on
/// one of them.
pub proof fn lemma_nine_paths_fill(parts: Seq<Set<Cell>>)
    requires
        parts.len() == 9,
        forall|i: int| 0 <= i < 9 ==> is_path(#[trigger] parts[i]),
        forall|i: int, j: int|
            0 <= i < j < 9 ==> (#[trigger] parts[i]).disjoint(#[trigger] parts[j]),
    ensures
        forall|cell: Cell|
            all_cells().contains(cell) ==> exists|i: int| 0 <= i < 9 && parts[i].contains(cell),
{
    lemma_cells_among(parts, 9);
    lemma_all_cells_finite();
    vstd::set_lib::lemma_subset_equality(cells_among(parts, 9), all_cells());
    assert forall|cell: Cell| all_cells().contains(cell) implies exists|i: int|
        0 <= i < 9 && parts[i].contains(cell) by {
        assert(cells_among(parts, 9).contains(cell));
        let i = choose|i: int| 0 <= i < 9 && i < parts.len() && parts[i].contains(cell);
        assert(0 <= i < 9 && parts[i].contains(cell));
    }
}

/// What `all_paths()` is.
pub proof fn lemma_all_paths()
    ensures
        is_path_list(all_paths()),
        all_paths().len() == 46656,
{
    lemma_path_count();
    let keep = keeper();
    let cells = |p: Seq<usize>| cells_of(p);
    let perms = all_permutations();
    let kept = perms.filter(keep);
    let s = all_paths();
    assert(s == kept.map_values(cells));
    lemma_all_permutations();
    lemma_filter_sorted(perms, keep);
    assert forall|i: int| 0 <= i < kept.len() implies is_permutation(#[trigger] kept[i]) && keep(
        kept[i],
    ) by {
        assert(kept.contains(kept[i]));
        perms.lemma_filter_contains_rev(keep, kept[i]);
    }
    assert forall|i: int| 0 <= i < s.len() implies is_path(#[trigger] s[i]) && columns_of(s[i])
        == kept[i] by {
        assert(is_permutation(kept[i]));
        lemma_cells_of_permutation(kept[i]);
    }
    assert forall|t: Set<Cell>| is_path(t) implies #[trigger] s.contains(t) by {
        let p = columns_of(t);
        lemma_columns_of_path(t);
        assert(perms.contains(p));
        let i = choose|i: int| 0 <= i < perms.len() && perms[i] == p;
        perms.lemma_filter_contains(keep, i);
        let k = choose|k: int| 0 <= k < kept.len() && kept[k] == p;
        assert(s[k] == t);
    }
    assert forall|i: int, j: int| 0 <= i < j < s.len() implies lex_less(
        columns_of(#[trigger] s[i]),
        columns_of(#[trigger] s[j]),
    ) by {
        assert(lex_less(kept[i], kept[j]));
    }
}

/// There is one list of the paths in order: generating the paths again gives
/// the same paths in the same order.
pub proof fn lemma_path_list_unique(a: Seq<Set<Cell>>, b: Seq<Set<Cell>>)
    requires
        is_path_list(a),
        is_path_list(b),
    ensures
        a == b,
{
    let columns = |s: Set<Cell>| columns_of(s);
    let x = a.map_values(columns);
    let y = b.map_values(columns);
    assert forall|p: Seq<usize>| x.contains(p) implies y.contains(p) by {
        let i = choose|i: int| 0 <= i < x.len() && x[i] == p;
        assert(is_path(a[i]));
        assert(b.contains(a[i]));
        let j = choose|j: int| 0 <= j < b.len() && b[j] == a[i];
        assert(y[j] == p);
    }
    assert forall|p: Seq<usize>| y.contains(p) implies x.contains(p) by {
        let i = choose|i: int| 0 <= i < y.len() && y[i] == p;
        assert(is_path(b[i]));
        assert(a.contains(b[i]));
        let j = choose|j: int| 0 <= j < a.len() && a[j] == b[i];
        assert(x[j] == p);
    }
    assert forall|i: int, j: int| 0 <= i < j < x.len() implies lex_less(
        #[trigger] x[i],
        #[trigger] x[j],
    ) by {
        assert(lex_less(columns_of(a[i]), columns_of(a[j])));
    }
    assert forall|i: int, j: int| 0 <= i < j < y.len() implies lex_less(
        #[trigger] y[i],
        #[trigger] y[j],
    ) by {
        assert(lex_less(columns_of(b[i]), columns_of(b[j])));
    }
    lemma_sorted_unique(x, y);
    assert(a.len() == x.len() && b.len() == y.len());
    assert forall|i: int| 0 <= i < a.len() implies a[i] == b[i] by {
        assert(is_path(a[i]));
        assert(is_path(b[i]));
        lemma_columns_of_path(a[i]);
        lemma_columns_of_path(b[i]);
        assert(x[i] == columns_of(a[i]));
        assert(y[i] == columns_of(b[i]));
    }
    assert(a =~= b);
}

/// Generating the paths is idempotent: two vectors of fields that each hold
/// every path in order hold the same fields.
pub proof fn lemma_generated_paths_unique(a: Seq<Bitfield>, b: Seq<Bitfield>)
    requires
        is_path_list(views(a)),
        is_path_list(views(b)),
        forall|i: int| 0 <= i < a.len() ==> (#[trigger] a[i]).wf(),
        forall|i: int| 0 <= i < b.len() ==> (#[trigger] b[i]).wf(),
    ensures
        a == b,
{
    lemma_path_list_unique(views(a), views(b));
    assert(a.len() == views(a).len() && b.len() == views(b).len());
    assert forall|i: int| 0 <= i < a.len() implies a[i] == b[i] by {
        assert(views(a)[i] == a[i]@);
        assert(views(b)[i] == b[i]@);
        a[i].lemma_equal_views(b[i]);
    }
    assert(a =~= b);
}

} // verus!
