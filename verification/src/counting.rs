//! The number of paths.
//!
//! A permutation is built row by row. A start of it obeys the boxes as long as
//! no two rows of one band of rows take their columns from the same band of
//! columns. Such a start of `d` rows can go on in `(3 - d % 3) * (3 - d / 3)`
//! ways, whatever it is, which gives 9 * 6 * 3 * 6 * 4 * 2 * 3 * 2 * 1 paths.
use crate::bitfield::{all_cells, lemma_all_cells_finite};
use crate::path::{box_cells, cells_of, keeper, lemma_one, lemma_only, one_per_box};
use crate::permutation::{
    all_permutations, choices, completions, is_permutation, lemma_all_permutations_made,
    lemma_completions_members, lemma_partial_push, partial,
};
use vstd::prelude::*;

verus! {

/// Whether no two rows of one band of three rows take their columns from the
/// same band of three columns, as far as `p` goes.
spec fn bands_differ(p: Seq<usize>) -> bool {
    forall|i: int, j: int|
        0 <= i < j < p.len() && i / 3 == j / 3 ==> #[trigger] p[i] / 3 != #[trigger] p[j] / 3
}

/// Whether a row of the band of rows that `p` has begun takes its column from
/// the band `band` of columns.
spec fn band_taken(p: Seq<usize>, band: int) -> bool {
    let start = 3 * (p.len() as int / 3);
    ||| (p.len() % 3 >= 1 && p[start] / 3 == band)
    ||| (p.len() % 3 == 2 && p[start + 1] / 3 == band)
}

/// In how many ways a start of `rows` rows that obeys the boxes can go on by
/// one row: the bands of columns that the begun band of rows has not taken
/// yet, times the columns that are left in each of them.
spec fn branches(rows: int) -> int {
    (3 - rows % 3) * (3 - rows / 3)
}

/// In how many ways a start of `rows` rows that obeys the boxes can be
/// completed to a path.
spec fn ways(rows: int) -> int
    decreases 9 - rows,
{
    if rows >= 9 {
        1
    } else {
        branches(rows) * ways(rows + 1)
    }
}

/// How many of the values below `c` can follow `p`: they are unused, and
/// the boxes are obeyed with them.
spec fn good_below(p: Seq<usize>, c: int) -> int
    decreases c,
{
    if c <= 0 {
        0
    } else if !p.contains((c - 1) as usize) && bands_differ(p.push((c - 1) as usize)) {
        good_below(p, c - 1) + 1
    } else {
        good_below(p, c - 1)
    }
}

/// How many of the three columns of the band `band` occur in `p`.
spec fn columns_used(p: Seq<usize>, band: int) -> int {
    (if p.contains((3 * band) as usize) {
        1int
    } else {
        0int
    }) + (if p.contains((3 * band + 1) as usize) {
        1int
    } else {
        0int
    }) + (if p.contains((3 * band + 2) as usize) {
        1int
    } else {
        0int
    })
}

/// What `p` holds, once `v` is appended.
proof fn lemma_push_contains(p: Seq<usize>, v: usize, w: usize)
    ensures
        p.push(v).contains(w) <==> (p.contains(w) || w == v),
{
    let q = p.push(v);
    if p.contains(w) {
        let i = choose|i: int| 0 <= i < p.len() && p[i] == w;
        assert(q[i] == w);
    }
    if w == v {
        assert(q[p.len() as int] == w);
    }
    if q.contains(w) {
        let i = choose|i: int| 0 <= i < q.len() && q[i] == w;
        if i < p.len() {
            assert(p[i] == w);
        }
    }
}

/// Each row takes one column: of each band of columns, as many columns are
/// used as bands of rows are complete, and one more where the begun band of
/// rows has taken the band of columns.
proof fn lemma_columns_used(p: Seq<usize>, band: int)
    requires
        partial(p),
        bands_differ(p),
        0 <= band < 3,
    ensures
        columns_used(p, band) == p.len() / 3 + if band_taken(p, band) {
            1int
        } else {
            0int
        },
    decreases p.len(),
{
    if p.len() == 0 {
        assert(!p.contains((3 * band) as usize));
        assert(!p.contains((3 * band + 1) as usize));
        assert(!p.contains((3 * band + 2) as usize));
    } else {
        let front = p.drop_last();
        let v = p.last();
        let d = front.len() as int;
        assert(p =~= front.push(v));
        assert(partial(front));
        assert(bands_differ(front)) by {
            assert forall|i: int, j: int|
                0 <= i < j < front.len() && i / 3 == j / 3 implies #[trigger] front[i] / 3
                != #[trigger] front[j] / 3 by {
                assert(p[i] / 3 != p[j] / 3);
            }
        }
        lemma_columns_used(front, band);
        lemma_push_contains(front, v, (3 * band) as usize);
        lemma_push_contains(front, v, (3 * band + 1) as usize);
        lemma_push_contains(front, v, (3 * band + 2) as usize);
        assert(!front.contains(v)) by {
            if front.contains(v) {
                let i = choose|i: int| 0 <= i < front.len() && front[i] == v;
                assert(p[i] == p[d]);
            }
        }
        assert(columns_used(p, band) == columns_used(front, band) + if v / 3 == band {
            1int
        } else {
            0int
        });
        let start = 3 * (d / 3);
        if d % 3 == 1 {
            assert(p[start] / 3 != p[d] / 3);
            assert(front[start] == p[start]);
        } else if d % 3 == 2 {
            assert(p[start] / 3 != p[d] / 3);
            assert(p[start + 1] / 3 != p[d] / 3);
            assert(p[start] / 3 != p[start + 1] / 3);
            assert(front[start] == p[start]);
            assert(front[start + 1] == p[start + 1]);
        }
    }
}

/// With `v` appended, the boxes are obeyed where no row of the begun band
/// of rows has taken the band of columns of `v`.
proof fn lemma_bands_differ_push(p: Seq<usize>, v: usize)
    requires
        partial(p),
        p.len() < 9,
        bands_differ(p),
        v < 9,
    ensures
        bands_differ(p.push(v)) <==> !band_taken(p, v as int / 3),
{
    let q = p.push(v);
    let d = p.len() as int;
    let start = 3 * (d / 3);
    if !band_taken(p, v as int / 3) {
        assert forall|i: int, j: int|
            0 <= i < j < q.len() && i / 3 == j / 3 implies #[trigger] q[i] / 3 != #[trigger] q[j]
            / 3 by {
            if j < d {
                assert(p[i] / 3 != p[j] / 3);
            } else {
                assert(i == start || i == start + 1);
                assert(q[i] == p[i]);
            }
        }
    } else {
        if d % 3 >= 1 && p[start] / 3 == v as int / 3 {
            assert(q[start] / 3 == q[d] / 3);
        } else {
            assert(q[start + 1] / 3 == q[d] / 3);
        }
    }
}

/// A start that obeys the boxes can go on by one row in `branches` ways.
proof fn lemma_good(p: Seq<usize>)
    requires
        partial(p),
        p.len() < 9,
        bands_differ(p),
    ensures
        good_below(p, 9) == branches(p.len() as int),
{
    let d = p.len() as int;
    reveal_with_fuel(good_below, 10);
    lemma_columns_used(p, 0);
    lemma_columns_used(p, 1);
    lemma_columns_used(p, 2);
    lemma_bands_differ_push(p, 0);
    lemma_bands_differ_push(p, 1);
    lemma_bands_differ_push(p, 2);
    lemma_bands_differ_push(p, 3);
    lemma_bands_differ_push(p, 4);
    lemma_bands_differ_push(p, 5);
    lemma_bands_differ_push(p, 6);
    lemma_bands_differ_push(p, 7);
    lemma_bands_differ_push(p, 8);
    let free = |band: int|
        if band_taken(p, band) {
            0int
        } else {
            3 - columns_used(p, band)
        };
    assert(good_below(p, 3) == free(0));
    assert(good_below(p, 6) == free(0) + free(1));
    assert(good_below(p, 9) == free(0) + free(1) + free(2));
    let start = 3 * (d / 3);
    if d % 3 >= 1 {
        assert(0 <= p[start] / 3 < 3);
    }
    if d % 3 == 2 {
        assert(0 <= p[start + 1] / 3 < 3);
        assert(p[start] / 3 != p[start + 1] / 3);
    }
    assert(branches(d) == (3 - d % 3) * (3 - d / 3));
    assert(free(0) + free(1) + free(2) == (3 - d % 3) * (3 - d / 3)) by {
        let left = 3 - d / 3;
        if d % 3 == 0 {
            assert(3 * left == left + left + left);
        } else if d % 3 == 1 {
            assert(2 * left == left + left);
        } else {
            assert(1 * left == left);
        }
    }
}

/// A permutation takes one cell from each box exactly if it obeys the boxes
/// in terms of bands.
proof fn lemma_bands_and_boxes(q: Seq<usize>)
    requires
        is_permutation(q),
    ensures
        one_per_box(cells_of(q)) <==> bands_differ(q),
{
    let s = cells_of(q);
    lemma_all_cells_finite();
    if bands_differ(q) {
        assert forall|row: int, col: int| 0 <= row < 3 && 0 <= col < 3 implies (#[trigger] box_cells(
            row,
            col,
        )).intersect(s).len() == 1 by {
            let top = 3 * row;
            assert(q[top] / 3 != q[top + 1] / 3);
            assert(q[top] / 3 != q[top + 2] / 3);
            assert(q[top + 1] / 3 != q[top + 2] / 3);
            let r = if q[top] / 3 == col {
                top
            } else if q[top + 1] / 3 == col {
                top + 1
            } else {
                top + 2
            };
            assert(q[r] / 3 == col);
            lemma_one(box_cells(row, col).intersect(s), (r, q[r] as int));
        }
    }
    if one_per_box(s) && !bands_differ(q) {
        let (i, j) = choose|i: int, j: int|
            0 <= i < j < q.len() && i / 3 == j / 3 && #[trigger] q[i] / 3 == #[trigger] q[j] / 3;
        let here = box_cells(i / 3, q[i] as int / 3).intersect(s);
        vstd::set_lib::lemma_len_subset(here, all_cells());
        lemma_only(here);
        assert(here.contains((i, q[i] as int)));
        assert(here.contains((j, q[j] as int)));
    }
}

/// A filter that nothing passes leaves nothing.
proof fn lemma_filter_none<A>(s: Seq<A>, keep: spec_fn(A) -> bool)
    requires
        forall|i: int| 0 <= i < s.len() ==> !keep(#[trigger] s[i]),
    ensures
        s.filter(keep).len() == 0,
{
    let kept = s.filter(keep);
    if kept.len() > 0 {
        s.lemma_filter_pred(keep, 0);
        assert(kept.contains(kept[0]));
        s.lemma_filter_contains_rev(keep, kept[0]);
    }
}

/// How many of the permutations that start with `p` are paths.
proof fn lemma_completions_kept(p: Seq<usize>)
    requires
        partial(p),
    ensures
        completions(p).filter(keeper()).len() == if bands_differ(p) {
            ways(p.len() as int)
        } else {
            0
        },
    decreases 9 - p.len(), 10int,
{
    let all = completions(p);
    if !bands_differ(p) {
        let (i, j) = choose|i: int, j: int|
            0 <= i < j < p.len() && i / 3 == j / 3 && #[trigger] p[i] / 3 == #[trigger] p[j] / 3;
        assert forall|k: int| 0 <= k < all.len() implies !keeper()(#[trigger] all[k]) by {
            let q = all[k];
            assert(all.contains(q));
            lemma_completions_members(p, q);
            lemma_bands_and_boxes(q);
            assert(q.take(p.len() as int)[i] == q[i]);
            assert(q.take(p.len() as int)[j] == q[j]);
            assert(q[i] / 3 == q[j] / 3);
        }
        lemma_filter_none(all, keeper());
    } else if p.len() == 9 {
        lemma_bands_and_boxes(p);
        assert(all =~= Seq::<Seq<usize>>::empty().push(p));
        Seq::<Seq<usize>>::empty().lemma_filter_push(p, keeper());
        reveal(Seq::filter);
        assert(Seq::<Seq<usize>>::empty().filter(keeper()) =~= Seq::empty());
    } else {
        lemma_choices_kept(p, 9);
        lemma_good(p);
    }
}

proof fn lemma_choices_kept(p: Seq<usize>, c: int)
    requires
        partial(p),
        p.len() < 9,
        bands_differ(p),
        0 <= c <= 9,
    ensures
        choices(p, c).filter(keeper()).len() == good_below(p, c) * ways(p.len() as int + 1),
    decreases 9 - p.len(), c,
{
    let w = ways(p.len() as int + 1);
    if c > 0 {
        let v = (c - 1) as usize;
        lemma_choices_kept(p, c - 1);
        if !p.contains(v) {
            lemma_partial_push(p, v);
            lemma_completions_kept(p.push(v));
            Seq::filter_distributes_over_add(choices(p, c - 1), completions(p.push(v)), keeper());
            let n = good_below(p, c - 1);
            assert((n + 1) * w == n * w + w) by (nonlinear_arith);
        }
    } else {
        reveal(Seq::filter);
        assert(0 * w == 0);
    }
}

/// There are 46656 paths.
proof fn lemma_ways()
    ensures
        ways(0) == 46656,
{
    assert(branches(8) == 1 && branches(7) == 2 && branches(6) == 3) by (nonlinear_arith);
    assert(branches(5) == 2 && branches(4) == 4 && branches(3) == 6) by (nonlinear_arith);
    assert(branches(2) == 3 && branches(1) == 6 && branches(0) == 9) by (nonlinear_arith);
    assert(ways(9) == 1);
    assert(ways(8) == 1 * 1);
    assert(ways(7) == 2 * 1);
    assert(ways(6) == 3 * 2);
    assert(ways(5) == 2 * 6);
    assert(ways(4) == 4 * 12);
    assert(ways(3) == 6 * 48);
    assert(ways(2) == 3 * 288);
    assert(ways(1) == 6 * 864);
    assert(ways(0) == 9 * 5184);
}

/// Of the permutations, 46656 take one cell from each box.
pub(crate) proof fn lemma_path_count()
    ensures
        all_permutations().filter(keeper()).len() == 46656,
{
    lemma_all_permutations_made();
    lemma_completions_kept(Seq::empty());
    lemma_ways();
}

} // verus!
