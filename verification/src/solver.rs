//! The search for one path per digit.
//!
//! Each digit can take the paths that go through its clues and through no
//! clue of another digit. The search goes through the digits in rising order
//! and through the paths of each digit in the order in which they were
//! generated, and returns the first choice of nine paths that share no cell.
use crate::bitfield::{all_cells, Bitfield, Cell};
use crate::path::{is_path, lemma_nine_paths_fill};
use crate::board::Board;
use crate::digit::Digit;
use core::ops::{IndexMut, Not};
use vstd::prelude::*;
use vstd::set_lib::lemma_disjoint_iff_empty_intersection;
use vstd::slice::slice_subrange;

verus! {

/// The candidate lists of `s`, each as a sequence.
pub open spec fn lists(s: Seq<Vec<Bitfield>>) -> Seq<Seq<Bitfield>> {
    s.map_values(|list: Vec<Bitfield>| list@)
}

/// Whether `chosen` takes one member from each list of `candidates`, in their
/// order, such that no two of the chosen fields share a cell and none of them
/// has a cell of `taken`.
pub open spec fn is_assignment(
    candidates: Seq<Seq<Bitfield>>,
    taken: Set<Cell>,
    chosen: Seq<Bitfield>,
) -> bool {
    &&& chosen.len() == candidates.len()
    &&& forall|i: int| 0 <= i < chosen.len() ==> (#[trigger] candidates[i]).contains(chosen[i])
    &&& forall|i: int| 0 <= i < chosen.len() ==> (#[trigger] chosen[i])@.disjoint(taken)
    &&& forall|i: int, j: int|
        0 <= i < j < chosen.len() ==> (#[trigger] chosen[i])@.disjoint((#[trigger] chosen[j])@)
}

/// The assignment that a depth-first search comes upon first, where it tries
/// the members of each list in their order, or `None` where there is no
/// assignment.
pub open spec fn first_assignment(candidates: Seq<Seq<Bitfield>>, taken: Set<Cell>) -> Option<
    Seq<Bitfield>,
>
    decreases candidates.len(), candidates.first().len() + 1,
{
    if candidates.len() == 0 {
        Some(Seq::empty())
    } else {
        first_assignment_from(candidates, taken, 0)
    }
}

/// As `first_assignment`, but of the first list only the members from `start` on are tried.
pub open spec fn first_assignment_from(
    candidates: Seq<Seq<Bitfield>>,
    taken: Set<Cell>,
    start: int,
) -> Option<Seq<Bitfield>>
    decreases candidates.len(), candidates.first().len() - start,
{
    if candidates.len() == 0 || start < 0 || start >= candidates.first().len() {
        None
    } else {
        let path = candidates.first()[start];
        let rest = if path@.disjoint(taken) {
            first_assignment(candidates.drop_first(), taken.union(path@))
        } else {
            None
        };
        match rest {
            Some(tail) => Some(seq![path] + tail),
            None => first_assignment_from(candidates, taken, start + 1),
        }
    }
}

/// Whether a digit can take `path`, where `clues` are the cells that hold the
/// digit already and `opposing` those that hold another digit: the path goes
/// through all of the first and through none of the second.
pub open spec fn is_candidate(path: Set<Cell>, clues: Set<Cell>, opposing: Set<Cell>) -> bool {
    clues.subset_of(path) && path.disjoint(opposing)
}

/// The cells of `board` that hold a digit other than `digit`.
pub open spec fn opposing(board: Board, digit: Digit) -> Set<Cell> {
    board.filled().difference(board.placed(digit))
}

/// For each digit in rising order, the paths of `path_db` that the digit can
/// take on `board`, in the order of `path_db`.
pub open spec fn candidate_lists(board: Board, path_db: Seq<Bitfield>) -> Seq<Seq<Bitfield>> {
    Seq::new(
        9,
        |i: int|
            path_db.filter(
                |path: Bitfield|
                    is_candidate(
                        path@,
                        board.placed(Digit::of_number(i + 1)),
                        opposing(board, Digit::of_number(i + 1)),
                    ),
            ),
    )
}

/// Whether solving `before` with the paths of `path_db` ends with the answer
/// `solved` and the board `after`: where the search finds an assignment, each
/// digit has got its path; where it finds none, the board is as it was.
pub open spec fn solves_to(before: Board, path_db: Seq<Bitfield>, solved: bool, after: Board) -> bool {
    match first_assignment(candidate_lists(before, path_db), Set::empty()) {
        Some(chosen) => solved && forall|digit: Digit| #[trigger]
            after.field(digit) == chosen[digit.number() - 1],
        None => !solved && after == before,
    }
}

/// The members that `picks` takes from the lists of `candidates`: from each
/// list the one at the position that `picks` gives for it.
pub open spec fn picked(candidates: Seq<Seq<Bitfield>>, picks: Seq<int>) -> Seq<Bitfield> {
    Seq::new(candidates.len(), |i: int| candidates[i][picks[i]])
}

/// Whether `picks` gives a position in each list of `candidates` such that
/// the members at these positions are an assignment.
pub open spec fn is_pick(candidates: Seq<Seq<Bitfield>>, taken: Set<Cell>, picks: Seq<int>) -> bool {
    &&& picks.len() == candidates.len()
    &&& forall|i: int| 0 <= i < picks.len() ==> 0 <= #[trigger] picks[i] < candidates[i].len()
    &&& is_assignment(candidates, taken, picked(candidates, picks))
}

/// Whether a search that tries the members of each list in their order comes
/// to `a` before it comes to `b`: at the first list for which they differ, `a`
/// gives the earlier position.
pub open spec fn pick_before(a: Seq<int>, b: Seq<int>) -> bool {
    exists|k: int|
        0 <= k < a.len() && k < b.len() && #[trigger] a[k] < b[k] && a.take(k) == b.take(k)
}

/// Searches, depth first, for one path from each of the lists such that the
/// chosen paths share no cell with each other nor with `taken_spaces`, and
/// returns the first that it finds.
pub fn solve_helper(possible_paths: &[Vec<Bitfield>], taken_spaces: Bitfield) -> (r: Option<
    Vec<Bitfield>,
>)
    ensures
        match r {
            Some(chosen) => first_assignment(lists(possible_paths@), taken_spaces@) == Some(chosen@),
            None => first_assignment(lists(possible_paths@), taken_spaces@) is None,
        },
        r matches Some(chosen) ==> is_assignment(lists(possible_paths@), taken_spaces@, chosen@),
        r is None ==> forall|chosen: Seq<Bitfield>|
            !is_assignment(lists(possible_paths@), taken_spaces@, chosen),
    decreases possible_paths@.len(),
{
    let ghost candidates = lists(possible_paths@);
    if possible_paths.len() == 0 {
        return Some(Vec::new());
    }
    let first = &possible_paths[0];
    let rest = slice_subrange(possible_paths, 1, possible_paths.len());
    let mut i: usize = 0;
    while i < first.len()
        invariant
            i <= first.len(),
            candidates == lists(possible_paths@),
            candidates.len() > 0,
            candidates.first() == first@,
            lists(rest@) == candidates.drop_first(),
            rest@.len() < possible_paths@.len(),
            first_assignment(candidates, taken_spaces@) == first_assignment_from(
                candidates,
                taken_spaces@,
                i as int,
            ),
        decreases first.len() - i,
    {
        let path = first[i];
        proof {
            lemma_disjoint_iff_empty_intersection(path@, taken_spaces@);
            assert(path@.union(taken_spaces@) =~= taken_spaces@.union(path@));
        }
        if (path & taken_spaces).is_empty() {
            if let Some(mut output) = solve_helper(rest, path | taken_spaces) {
                output.insert(0, path);
                proof {
                    lemma_first_assignment_sound(candidates, taken_spaces@);
                }
                return Some(output);
            }
        }
        i += 1;
    }
    proof {
        assert forall|chosen: Seq<Bitfield>|
            !is_assignment(candidates, taken_spaces@, chosen) by {
            if is_assignment(candidates, taken_spaces@, chosen) {
                lemma_first_assignment_complete(candidates, taken_spaces@, chosen);
            }
        }
    }
    None
}

/// The paths of `path_db` that go through all of `clues` and through none of
/// `opposing_clues`, in the order of `path_db`.
pub fn candidates(path_db: &[Bitfield], clues: Bitfield, opposing_clues: Bitfield) -> (r: Vec<
    Bitfield,
>)
    ensures
        r@ == path_db@.filter(|path: Bitfield| is_candidate(path@, clues@, opposing_clues@)),
{
    let ghost keep = |path: Bitfield| is_candidate(path@, clues@, opposing_clues@);
    let mut r: Vec<Bitfield> = Vec::new();
    let mut i: usize = 0;
    while i < path_db.len()
        invariant
            i <= path_db.len(),
            keep == |path: Bitfield| is_candidate(path@, clues@, opposing_clues@),
            r@ == path_db@.take(i as int).filter(keep),
        decreases path_db.len() - i,
    {
        let path = path_db[i];
        let fits = path.contains(clues) && (path & opposing_clues).is_empty();
        proof {
            assert(path_db@.take(i + 1) =~= path_db@.take(i as int).push(path));
            path_db@.take(i as int).lemma_filter_push(path, keep);
            lemma_disjoint_iff_empty_intersection(path@, opposing_clues@);
        }
        if fits {
            r.push(path);
        }
        i += 1;
    }
    proof {
        assert(path_db@.take(i as int) =~= path_db@);
    }
    r
}

/// Solves `board` with the paths of `path_db`: gives each digit the first
/// path that goes through its clues and through no clue of another digit, such
/// that the nine paths share no cell. Where there are no such paths, the board
/// stays as it is.
pub fn solve(board: &mut Board, path_db: &[Bitfield]) -> (r: bool)
    ensures
        solves_to(*old(board), path_db@, r, *final(board)),
        r ==> forall|digit: Digit| path_db@.contains(#[trigger] final(board).field(digit)),
        r ==> forall|digit: Digit|
            old(board).placed(digit).subset_of(#[trigger] final(board).placed(digit)),
        r ==> forall|a: Digit, b: Digit|
            a != b ==> (#[trigger] final(board).placed(a)).disjoint(
                #[trigger] final(board).placed(b),
            ),
        r <==> exists|chosen: Seq<Bitfield>|
            is_assignment(candidate_lists(*old(board), path_db@), Set::empty(), chosen),
        (exists|a: Digit, b: Digit|
            a != b && !(#[trigger] old(board).placed(a)).disjoint(#[trigger] old(board).placed(b)))
            ==> !r,
{
    let digits = Digit::iter();
    let mut total_clues = Bitfield::default();
    let mut n: usize = 0;
    while n < 9
        invariant
            n <= 9,
            *board == *old(board),
            digits@ == Seq::new(9, |i: int| Digit::of_number(i + 1)),
            total_clues@ == board.placed_below(n + 1),
        decreases 9 - n,
    {
        let current = board[digits[n]];
        proof {
            let digit = digits@[n as int];
            assert(total_clues@.union(current@) =~= board.placed_below(n + 2)) by {
                assert forall|cell: Cell|
                    total_clues@.union(current@).contains(cell) implies board.placed_below(
                    n + 2,
                ).contains(cell) by {
                    if current@.contains(cell) {
                        assert(digit.number() < n + 2 && board.placed(digit).contains(cell));
                    } else {
                        let d = choose|d: Digit|
                            d.number() < n + 1 && board.placed(d).contains(cell);
                        assert(d.number() < n + 2 && board.placed(d).contains(cell));
                    }
                }
            }
        }
        total_clues = total_clues | current;
        n += 1;
    }
    let mut possible_paths: Vec<Vec<Bitfield>> = Vec::new();
    let mut n: usize = 0;
    while n < 9
        invariant
            n <= 9,
            *board == *old(board),
            digits@ == Seq::new(9, |i: int| Digit::of_number(i + 1)),
            total_clues@ == board.filled(),
            possible_paths@.len() == n,
            forall|i: int|
                0 <= i < n ==> (#[trigger] possible_paths@[i])@ == candidate_lists(*board, path_db@)[i],
        decreases 9 - n,
    {
        let clues = board[digits[n]];
        let opposing_clues = total_clues & clues.not();
        proof {
            use_type_invariant(&total_clues);
            total_clues.lemma_finite();
            assert(opposing_clues@ =~= opposing(*board, digits@[n as int]));
        }
        let list = candidates(path_db, clues, opposing_clues);
        possible_paths.push(list);
        n += 1;
    }
    proof {
        assert(lists(possible_paths@) =~= candidate_lists(*board, path_db@));
    }
    match solve_helper(possible_paths.as_slice(), Bitfield::default()) {
        Some(assigned_paths) => {
            proof {
                lemma_assignment_fits(*board, path_db@, assigned_paths@);
            }
            let mut n: usize = 0;
            while n < 9
                invariant
                    n <= 9,
                    assigned_paths@.len() == 9,
                    digits@ == Seq::new(9, |i: int| Digit::of_number(i + 1)),
                    forall|digit: Digit|
                        digit.number() <= n ==> #[trigger] board.field(digit)
                            == assigned_paths@[digit.number() - 1],
                decreases 9 - n,
            {
                *board.index_mut(digits[n]) = assigned_paths[n];
                n += 1;
            }
            true
        },
        None => false,
    }
}

/// What the search finds is an assignment.
pub proof fn lemma_first_assignment_sound(candidates: Seq<Seq<Bitfield>>, taken: Set<Cell>)
    ensures
        first_assignment(candidates, taken) matches Some(chosen) ==> is_assignment(
            candidates,
            taken,
            chosen,
        ),
    decreases candidates.len(), candidates.first().len() + 1,
{
    if candidates.len() > 0 {
        lemma_first_assignment_from_sound(candidates, taken, 0);
    }
}

proof fn lemma_first_assignment_from_sound(
    candidates: Seq<Seq<Bitfield>>,
    taken: Set<Cell>,
    start: int,
)
    requires
        0 <= start,
    ensures
        first_assignment_from(candidates, taken, start) matches Some(chosen) ==> is_assignment(
            candidates,
            taken,
            chosen,
        ),
    decreases candidates.len(), candidates.first().len() - start,
{
    if candidates.len() > 0 && start < candidates.first().len() {
        let path = candidates.first()[start];
        let later = candidates.drop_first();
        if path@.disjoint(taken) && first_assignment(later, taken.union(path@)) is Some {
            let tail = first_assignment(later, taken.union(path@))->0;
            let chosen = seq![path] + tail;
            lemma_first_assignment_sound(later, taken.union(path@));
            assert forall|i: int| 0 <= i < chosen.len() implies (#[trigger] candidates[i]).contains(
                chosen[i],
            ) by {
                if i > 0 {
                    assert(later[i - 1].contains(tail[i - 1]));
                }
            }
            assert forall|i: int| 0 <= i < chosen.len() implies (#[trigger] chosen[i])@.disjoint(
                taken,
            ) by {
                if i > 0 {
                    assert(tail[i - 1]@.disjoint(taken.union(path@)));
                }
            }
            assert forall|i: int, j: int| 0 <= i < j < chosen.len() implies (#[trigger] chosen[i])@.disjoint(
                (#[trigger] chosen[j])@,
            ) by {
                assert(tail[j - 1]@.disjoint(taken.union(path@)));
                if i > 0 {
                    assert(tail[i - 1]@.disjoint(tail[j - 1]@));
                }
            }
        } else {
            lemma_first_assignment_from_sound(candidates, taken, start + 1);
        }
    }
}

/// Where the search finds nothing, there is no assignment.
pub proof fn lemma_first_assignment_complete(
    candidates: Seq<Seq<Bitfield>>,
    taken: Set<Cell>,
    chosen: Seq<Bitfield>,
)
    requires
        is_assignment(candidates, taken, chosen),
    ensures
        first_assignment(candidates, taken) is Some,
    decreases candidates.len(), candidates.first().len() + 1,
{
    if candidates.len() > 0 {
        let k = choose|k: int| 0 <= k < candidates[0].len() && candidates[0][k] == chosen[0];
        lemma_first_assignment_from_complete(candidates, taken, 0, chosen, k);
    }
}

proof fn lemma_first_assignment_from_complete(
    candidates: Seq<Seq<Bitfield>>,
    taken: Set<Cell>,
    start: int,
    chosen: Seq<Bitfield>,
    k: int,
)
    requires
        is_assignment(candidates, taken, chosen),
        candidates.len() > 0,
        0 <= start <= k < candidates.first().len(),
        candidates.first()[k] == chosen[0],
    ensures
        first_assignment_from(candidates, taken, start) is Some,
    decreases candidates.len(), candidates.first().len() - start,
{
    let path = candidates.first()[start];
    let later = candidates.drop_first();
    if start == k {
        let tail = chosen.drop_first();
        assert forall|i: int| 0 <= i < tail.len() implies (#[trigger] later[i]).contains(
            tail[i],
        ) by {
            assert(candidates[i + 1].contains(chosen[i + 1]));
        }
        assert forall|i: int| 0 <= i < tail.len() implies (#[trigger] tail[i])@.disjoint(
            taken.union(path@),
        ) by {
            assert(chosen[i + 1]@.disjoint(taken));
            assert(chosen[0]@.disjoint(chosen[i + 1]@));
        }
        assert forall|i: int, j: int| 0 <= i < j < tail.len() implies (#[trigger] tail[i])@.disjoint(
            (#[trigger] tail[j])@,
        ) by {
            assert(chosen[i + 1]@.disjoint(chosen[j + 1]@));
        }
        assert(chosen[0]@.disjoint(taken));
        lemma_first_assignment_complete(later, taken.union(path@), tail);
    } else if !(path@.disjoint(taken) && first_assignment(later, taken.union(path@)) is Some) {
        lemma_first_assignment_from_complete(candidates, taken, start + 1, chosen, k);
    }
}

/// The positions of the members of `first_assignment`.
spec fn first_pick(candidates: Seq<Seq<Bitfield>>, taken: Set<Cell>) -> Option<Seq<int>>
    decreases candidates.len(), candidates.first().len() + 1,
{
    if candidates.len() == 0 {
        Some(Seq::empty())
    } else {
        first_pick_from(candidates, taken, 0)
    }
}

spec fn first_pick_from(candidates: Seq<Seq<Bitfield>>, taken: Set<Cell>, start: int) -> Option<
    Seq<int>,
>
    decreases candidates.len(), candidates.first().len() - start,
{
    if candidates.len() == 0 || start < 0 || start >= candidates.first().len() {
        None
    } else {
        let path = candidates.first()[start];
        let rest = if path@.disjoint(taken) {
            first_pick(candidates.drop_first(), taken.union(path@))
        } else {
            None
        };
        match rest {
            Some(tail) => Some(seq![start] + tail),
            None => first_pick_from(candidates, taken, start + 1),
        }
    }
}

/// The positions of `first_pick` are those of the members of `first_assignment`.
proof fn lemma_first_pick(candidates: Seq<Seq<Bitfield>>, taken: Set<Cell>)
    ensures
        match first_pick(candidates, taken) {
            Some(picks) => {
                &&& picks.len() == candidates.len()
                &&& forall|i: int|
                    0 <= i < picks.len() ==> 0 <= #[trigger] picks[i] < candidates[i].len()
                &&& first_assignment(candidates, taken) == Some(picked(candidates, picks))
            },
            None => first_assignment(candidates, taken) is None,
        },
    decreases candidates.len(), candidates.first().len() + 1,
{
    if candidates.len() == 0 {
        assert(picked(candidates, Seq::empty()) =~= Seq::empty());
    } else {
        lemma_first_pick_from(candidates, taken, 0);
    }
}

proof fn lemma_first_pick_from(candidates: Seq<Seq<Bitfield>>, taken: Set<Cell>, start: int)
    requires
        0 <= start,
    ensures
        match first_pick_from(candidates, taken, start) {
            Some(picks) => {
                &&& picks.len() == candidates.len()
                &&& forall|i: int|
                    0 <= i < picks.len() ==> 0 <= #[trigger] picks[i] < candidates[i].len()
                &&& picks[0] >= start
                &&& first_assignment_from(candidates, taken, start) == Some(
                    picked(candidates, picks),
                )
            },
            None => first_assignment_from(candidates, taken, start) is None,
        },
    decreases candidates.len(), candidates.first().len() - start,
{
    if candidates.len() > 0 && start < candidates.first().len() {
        let path = candidates.first()[start];
        let later = candidates.drop_first();
        if path@.disjoint(taken) {
            lemma_first_pick(later, taken.union(path@));
        }
        if path@.disjoint(taken) && first_pick(later, taken.union(path@)) is Some {
            let tail = first_pick(later, taken.union(path@))->0;
            let picks = seq![start] + tail;
            assert forall|i: int| 0 <= i < picks.len() implies 0 <= #[trigger] picks[i]
                < candidates[i].len() by {
                if i > 0 {
                    assert(picks[i] == tail[i - 1]);
                    assert(candidates[i] == later[i - 1]);
                }
            }
            assert(picked(candidates, picks) =~= seq![path] + picked(later, tail)) by {
                assert forall|i: int| 0 <= i < candidates.len() implies picked(candidates, picks)[i]
                    == (seq![path] + picked(later, tail))[i] by {
                    if i > 0 {
                        assert(picks[i] == tail[i - 1]);
                        assert(candidates[i] == later[i - 1]);
                    }
                }
            }
        } else {
            lemma_first_pick_from(candidates, taken, start + 1);
        }
    }
}

/// The positions that remain of a pick once the first list is settled.
proof fn lemma_pick_tail(candidates: Seq<Seq<Bitfield>>, taken: Set<Cell>, picks: Seq<int>)
    requires
        candidates.len() > 0,
        is_pick(candidates, taken, picks),
    ensures
        candidates.first()[picks[0]]@.disjoint(taken),
        is_pick(
            candidates.drop_first(),
            taken.union(candidates.first()[picks[0]]@),
            picks.drop_first(),
        ),
{
    let path = candidates.first()[picks[0]];
    let later = candidates.drop_first();
    let tail = picks.drop_first();
    let chosen = picked(candidates, picks);
    let rest = picked(later, tail);
    assert(chosen[0] == path);
    assert forall|i: int| 0 <= i < rest.len() implies rest[i] == chosen[i + 1] by {
        assert(later[i] == candidates[i + 1]);
        assert(tail[i] == picks[i + 1]);
    }
    assert forall|i: int| 0 <= i < tail.len() implies 0 <= #[trigger] tail[i] < later[i].len() by {
        assert(tail[i] == picks[i + 1]);
    }
    assert forall|i: int| 0 <= i < rest.len() implies (#[trigger] later[i]).contains(rest[i]) by {
        assert(candidates[i + 1].contains(chosen[i + 1]));
    }
    assert forall|i: int| 0 <= i < rest.len() implies (#[trigger] rest[i])@.disjoint(
        taken.union(path@),
    ) by {
        assert(chosen[i + 1]@.disjoint(taken));
        assert(chosen[0]@.disjoint(chosen[i + 1]@));
    }
    assert forall|i: int, j: int| 0 <= i < j < rest.len() implies (#[trigger] rest[i])@.disjoint(
        (#[trigger] rest[j])@,
    ) by {
        assert(chosen[i + 1]@.disjoint(chosen[j + 1]@));
    }
    assert(chosen[0]@.disjoint(taken));
}

proof fn lemma_first_pick_least(candidates: Seq<Seq<Bitfield>>, taken: Set<Cell>, picks: Seq<int>)
    requires
        is_pick(candidates, taken, picks),
    ensures
        first_pick(candidates, taken) is Some,
        !pick_before(picks, first_pick(candidates, taken)->0),
    decreases candidates.len(), candidates.first().len() + 1,
{
    if candidates.len() > 0 {
        lemma_first_pick_from_least(candidates, taken, 0, picks);
    }
}

proof fn lemma_first_pick_from_least(
    candidates: Seq<Seq<Bitfield>>,
    taken: Set<Cell>,
    start: int,
    picks: Seq<int>,
)
    requires
        candidates.len() > 0,
        is_pick(candidates, taken, picks),
        0 <= start <= picks[0],
    ensures
        first_pick_from(candidates, taken, start) is Some,
        !pick_before(picks, first_pick_from(candidates, taken, start)->0),
    decreases candidates.len(), candidates.first().len() - start,
{
    let path = candidates.first()[start];
    let later = candidates.drop_first();
    let found = if path@.disjoint(taken) {
        first_pick(later, taken.union(path@))
    } else {
        None
    };
    if start == picks[0] {
        lemma_pick_tail(candidates, taken, picks);
        lemma_first_pick_least(later, taken.union(path@), picks.drop_first());
    }
    if found is Some {
        let tail = found->0;
        let first = seq![start] + tail;
        if pick_before(picks, first) {
            let k = choose|k: int|
                0 <= k < picks.len() && k < first.len() && #[trigger] picks[k] < first[k]
                    && picks.take(k) == first.take(k);
            assert(k > 0) by {
                if k == 0 {
                    assert(first[0] == start);
                }
            }
            assert(picks.take(k)[0] == first.take(k)[0]);
            assert(picks[0] == start);
            assert(picks.drop_first()[k - 1] < tail[k - 1]);
            assert(picks.drop_first().take(k - 1) =~= tail.take(k - 1)) by {
                assert forall|i: int| 0 <= i < k - 1 implies picks.drop_first()[i] == tail[i] by {
                    assert(picks.take(k)[i + 1] == first.take(k)[i + 1]);
                }
            }
            assert(pick_before(picks.drop_first(), tail));
        }
    } else {
        lemma_first_pick_from_least(candidates, taken, start + 1, picks);
    }
}

/// The search returns the first assignment in its order: the members of the
/// lists at certain positions, and no assignment is made of members at
/// positions that the search comes to before these.
pub proof fn lemma_first_assignment_least(
    candidates: Seq<Seq<Bitfield>>,
    taken: Set<Cell>,
    picks: Seq<int>,
) -> (first: Seq<int>)
    requires
        is_pick(candidates, taken, picks),
    ensures
        is_pick(candidates, taken, first),
        first_assignment(candidates, taken) == Some(picked(candidates, first)),
        !pick_before(picks, first),
{
    lemma_first_pick_least(candidates, taken, picks);
    lemma_first_pick(candidates, taken);
    lemma_first_assignment_sound(candidates, taken);
    first_pick(candidates, taken)->0
}

/// What an assignment of the candidates of a board is: each digit gets a
/// path of `path_db` that goes through its clues and through no clue of
/// another digit, and no two digits share a cell. A board on which two digits
/// hold the same cell has no assignment.
pub proof fn lemma_assignment_fits(board: Board, path_db: Seq<Bitfield>, chosen: Seq<Bitfield>)
    requires
        is_assignment(candidate_lists(board, path_db), Set::empty(), chosen),
    ensures
        chosen.len() == 9,
        forall|digit: Digit| #[trigger] path_db.contains(chosen[digit.number() - 1]),
        forall|digit: Digit| #[trigger]
            board.placed(digit).subset_of(chosen[digit.number() - 1]@),
        forall|digit: Digit|
            chosen[digit.number() - 1]@.disjoint(#[trigger] opposing(board, digit)),
        forall|a: Digit, b: Digit|
            a != b ==> chosen[a.number() - 1]@.disjoint(chosen[b.number() - 1]@),
        forall|a: Digit, b: Digit|
            a != b ==> (#[trigger] board.placed(a)).disjoint(#[trigger] board.placed(b)),
{
    let lists = candidate_lists(board, path_db);
    assert forall|digit: Digit|
        {
            &&& #[trigger] path_db.contains(chosen[digit.number() - 1])
            &&& is_candidate(
                chosen[digit.number() - 1]@,
                board.placed(digit),
                opposing(board, digit),
            )
        } by {
        let i = digit.number() - 1;
        let keep = |path: Bitfield|
            is_candidate(
                path@,
                board.placed(Digit::of_number(i + 1)),
                opposing(board, Digit::of_number(i + 1)),
            );
        assert(Digit::of_number(i + 1) == digit);
        assert(lists[i] == path_db.filter(keep));
        assert(lists[i].contains(chosen[i]));
        path_db.lemma_filter_contains_rev(keep, chosen[i]);
        let k = choose|k: int| 0 <= k < lists[i].len() && lists[i][k] == chosen[i];
        path_db.lemma_filter_pred(keep, k);
    }
    assert forall|digit: Digit| #[trigger]
        board.placed(digit).subset_of(chosen[digit.number() - 1]@) by {
        assert(path_db.contains(chosen[digit.number() - 1]));
    }
    assert forall|digit: Digit|
        chosen[digit.number() - 1]@.disjoint(#[trigger] opposing(board, digit)) by {
        assert(path_db.contains(chosen[digit.number() - 1]));
    }
    assert forall|a: Digit, b: Digit| a != b implies chosen[a.number() - 1]@.disjoint(
        chosen[b.number() - 1]@,
    ) by {
        let i = a.number() - 1;
        let j = b.number() - 1;
        if i < j {
            assert(chosen[i]@.disjoint(chosen[j]@));
        } else {
            assert(chosen[j]@.disjoint(chosen[i]@));
        }
    }
    assert forall|a: Digit, b: Digit| a != b implies (#[trigger] board.placed(a)).disjoint(
        #[trigger] board.placed(b),
    ) by {
        assert(board.placed(a).subset_of(chosen[a.number() - 1]@));
        assert(board.placed(b).subset_of(chosen[b.number() - 1]@));
        assert(chosen[a.number() - 1]@.disjoint(chosen[b.number() - 1]@));
    }
}

/// Solving is deterministic: the same board and the same paths give the same
/// answer and the same board, bit for bit.
pub proof fn lemma_solve_deterministic(
    before: Board,
    path_db: Seq<Bitfield>,
    solved_1: bool,
    after_1: Board,
    solved_2: bool,
    after_2: Board,
)
    requires
        solves_to(before, path_db, solved_1, after_1),
        solves_to(before, path_db, solved_2, after_2),
    ensures
        solved_1 == solved_2,
        after_1 == after_2,
{
    if first_assignment(candidate_lists(before, path_db), Set::empty()) is Some {
        after_1.lemma_equal_fields(after_2);
    }
}

/// What a solved board looks like, where `path_db` holds nothing but paths:
/// each digit lies on a path that goes through its clues, no cell holds two
/// digits, and no cell is left empty.
pub proof fn lemma_solved_board(before: Board, path_db: Seq<Bitfield>, after: Board)
    requires
        solves_to(before, path_db, true, after),
        forall|i: int| 0 <= i < path_db.len() ==> is_path(#[trigger] path_db[i]@),
    ensures
        forall|digit: Digit| is_path(#[trigger] after.placed(digit)),
        forall|digit: Digit| before.placed(digit).subset_of(#[trigger] after.placed(digit)),
        forall|a: Digit, b: Digit|
            a != b ==> (#[trigger] after.placed(a)).disjoint(#[trigger] after.placed(b)),
        after.filled() == all_cells(),
{
    let candidates = candidate_lists(before, path_db);
    let chosen = first_assignment(candidates, Set::empty())->0;
    lemma_first_assignment_sound(candidates, Set::empty());
    lemma_assignment_fits(before, path_db, chosen);
    assert forall|digit: Digit| is_path(#[trigger] after.placed(digit)) by {
        assert(after.field(digit) == chosen[digit.number() - 1]);
        assert(path_db.contains(chosen[digit.number() - 1]));
    }
    assert forall|digit: Digit| before.placed(digit).subset_of(#[trigger] after.placed(digit)) by {
        assert(after.field(digit) == chosen[digit.number() - 1]);
        assert(before.placed(digit).subset_of(chosen[digit.number() - 1]@));
    }
    assert forall|a: Digit, b: Digit| a != b implies (#[trigger] after.placed(a)).disjoint(
        #[trigger] after.placed(b),
    ) by {
        assert(after.field(a) == chosen[a.number() - 1]);
        assert(after.field(b) == chosen[b.number() - 1]);
    }
    let parts = Seq::new(9, |i: int| after.placed(Digit::of_number(i + 1)));
    assert forall|i: int, j: int| 0 <= i < j < 9 implies (#[trigger] parts[i]).disjoint(
        #[trigger] parts[j],
    ) by {
        assert(after.placed(Digit::of_number(i + 1)).disjoint(
            after.placed(Digit::of_number(j + 1)),
        ));
    }
    lemma_nine_paths_fill(parts);
    assert forall|cell: Cell| all_cells().contains(cell) implies after.filled().contains(cell) by {
        let i = choose|i: int| 0 <= i < 9 && parts[i].contains(cell);
        let digit = Digit::of_number(i + 1);
        assert(digit.number() < 10 && after.placed(digit).contains(cell));
    }
    assert forall|cell: Cell| after.filled().contains(cell) implies all_cells().contains(cell) by {
        let digit = choose|digit: Digit| digit.number() < 10 && after.placed(digit).contains(cell);
        assert(is_path(after.placed(digit)));
    }
    assert(after.filled() =~= all_cells());
}

} // verus!
