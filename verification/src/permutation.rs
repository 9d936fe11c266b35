//! The permutations of the numbers from 0 to 8, in lexicographic order.
//!
//! A permutation gives each row of the board a column of its own. The paths
//! are the permutations that also obey the boxes.
use vstd::prelude::*;

verus! {

/// Whether `p` gives each of the nine rows a column of its own: `p[row]` is
/// the column chosen for `row`.
pub open spec fn is_permutation(p: Seq<usize>) -> bool {
    &&& p.len() == 9
    &&& forall|i: int| 0 <= i < 9 ==> p[i] < 9
    &&& forall|i: int, j: int| 0 <= i < j < 9 ==> p[i] != p[j]
}

/// Whether `p` and `q` agree before position `k`, where `p` is the smaller.
pub open spec fn first_differ_at(p: Seq<usize>, q: Seq<usize>, k: int) -> bool {
    &&& 0 <= k < p.len()
    &&& k < q.len()
    &&& p[k] < q[k]
    &&& forall|j: int| 0 <= j < k ==> p[j] == q[j]
}

/// Whether `p` comes before `q` in lexicographic order.
pub open spec fn lex_less(p: Seq<usize>, q: Seq<usize>) -> bool {
    exists|k: int| first_differ_at(p, q, k)
}

/// Whether `s` holds every permutation of the numbers between 0 and 8, and
/// nothing else, in lexicographic order. An order that is strict leaves no
/// room for a permutation to occur twice.
pub open spec fn is_permutation_list(s: Seq<Seq<usize>>) -> bool {
    &&& forall|i: int| 0 <= i < s.len() ==> is_permutation(#[trigger] s[i])
    &&& forall|p: Seq<usize>| is_permutation(p) ==> #[trigger] s.contains(p)
    &&& forall|i: int, j: int| 0 <= i < j < s.len() ==> lex_less(#[trigger] s[i], #[trigger] s[j])
}

/// The product of the numbers from 1 to `n`.
pub open spec fn factorial(n: nat) -> nat
    decreases n,
{
    if n == 0 {
        1
    } else {
        n * factorial((n - 1) as nat)
    }
}

/// The arrays of `s`, each as a sequence.
pub open spec fn rows(s: Seq<[usize; 9]>) -> Seq<Seq<usize>> {
    s.map_values(|a: [usize; 9]| a@)
}

/// The permutations of the numbers between 0 and 8, in lexicographic order.
pub closed spec fn all_permutations() -> Seq<Seq<usize>> {
    completions(Seq::empty())
}

/// Whether `p` can be the start of a permutation.
pub(crate) open spec fn partial(p: Seq<usize>) -> bool {
    &&& p.len() <= 9
    &&& forall|i: int| 0 <= i < p.len() ==> p[i] < 9
    &&& forall|i: int, j: int| 0 <= i < j < p.len() ==> p[i] != p[j]
}

/// The permutations that start with `p`, in lexicographic order.
pub(crate) open spec fn completions(p: Seq<usize>) -> Seq<Seq<usize>>
    decreases 9 - p.len(), 10int,
{
    if p.len() >= 9 {
        seq![p]
    } else {
        choices(p, 9)
    }
}

/// The permutations that start with `p` and go on with a value below `c`, in
/// lexicographic order.
pub(crate) open spec fn choices(p: Seq<usize>, c: int) -> Seq<Seq<usize>>
    decreases 9 - p.len(), c,
{
    if p.len() >= 9 || c <= 0 || c > 9 {
        Seq::empty()
    } else if p.contains((c - 1) as usize) {
        choices(p, c - 1)
    } else {
        choices(p, c - 1) + completions(p.push((c - 1) as usize))
    }
}

/// Whether the members of `s` stand in lexicographic order.
pub(crate) open spec fn sorted(s: Seq<Seq<usize>>) -> bool {
    forall|i: int, j: int| 0 <= i < j < s.len() ==> lex_less(#[trigger] s[i], #[trigger] s[j])
}

/// How many of the values below `c` do not occur in `p`.
spec fn unused_below(p: Seq<usize>, c: int) -> nat
    decreases c,
{
    if c <= 0 {
        0
    } else if p.contains((c - 1) as usize) {
        unused_below(p, c - 1)
    } else {
        unused_below(p, c - 1) + 1
    }
}

/// Whether bit `v` of `used` is set exactly for the values `v` that occur in `p`.
spec fn marks(used: u32, p: Seq<usize>) -> bool {
    forall|v: usize| v < 9 ==> ((used & (1u32 << v) != 0) <==> #[trigger] p.contains(v))
}

proof fn lemma_mark(used: u32, c: u32, v: u32)
    by (bit_vector)
    requires
        c < 32,
        v < 32,
    ensures
        0u32 & (1u32 << v) == 0,
        ((used | (1u32 << c)) & (1u32 << v) != 0) <==> (used & (1u32 << v) != 0 || v == c),
{
}

/// Appends to `out` the permutations that start with the first `depth` values
/// of `prefix`, of which `used` holds the marks.
fn extend(prefix: [usize; 9], depth: usize, used: u32, out: &mut Vec<[usize; 9]>)
    requires
        depth <= 9,
        partial(prefix@.take(depth as int)),
        marks(used, prefix@.take(depth as int)),
    ensures
        rows(final(out)@) == rows(old(out)@) + completions(prefix@.take(depth as int)),
    decreases 9 - depth,
{
    let ghost p = prefix@.take(depth as int);
    if depth == 9 {
        out.push(prefix);
        proof {
            assert(p =~= prefix@);
        }
        return ;
    }
    let mut c: usize = 0;
    while c < 9
        invariant
            c <= 9,
            depth < 9,
            p == prefix@.take(depth as int),
            partial(p),
            marks(used, p),
            rows(out@) == rows(old(out)@) + choices(p, c as int),
        decreases 9 - c,
    {
        if used & (1u32 << c) == 0 {
            let mut next = prefix;
            next[depth] = c;
            proof {
                let q = next@.take(depth + 1);
                assert(q =~= p.push(c));
                assert(!p.contains(c));
                assert forall|v: usize| v < 9 implies ((used | (1u32 << c)) & (1u32 << v) != 0
                    <==> #[trigger] q.contains(v)) by {
                    lemma_mark(used, c as u32, v as u32);
                    if p.contains(v) {
                        let i = choose|i: int| 0 <= i < p.len() && p[i] == v;
                        assert(q[i] == v);
                    }
                    assert(q[depth as int] == c);
                }
            }
            extend(next, depth + 1, used | (1u32 << c), out);
        }
        c += 1;
    }
}

/// All permutations of the numbers between 0 and 8, each once, in
/// lexicographic order.
pub fn permutations() -> (perms: Vec<[usize; 9]>)
    ensures
        is_permutation_list(rows(perms@)),
        perms@.len() == 362880,
        rows(perms@) == all_permutations(),
{
    let mut out: Vec<[usize; 9]> = Vec::new();
    let prefix: [usize; 9] = [0;9];
    proof {
        assert(prefix@.take(0) =~= Seq::empty());
        assert forall|v: usize| v < 9 implies ((0u32 & (1u32 << v) != 0) <==> #[trigger] prefix@.take(
            0,
        ).contains(v)) by {
            lemma_mark(0, 0, v as u32);
        }
    }
    extend(prefix, 0, 0, &mut out);
    proof {
        lemma_all_permutations();
    }
    out
}

proof fn lemma_concat_contains<A>(a: Seq<A>, b: Seq<A>, x: A)
    ensures
        (a + b).contains(x) <==> a.contains(x) || b.contains(x),
{
    if a.contains(x) {
        let i = choose|i: int| 0 <= i < a.len() && a[i] == x;
        assert((a + b)[i] == x);
    }
    if b.contains(x) {
        let i = choose|i: int| 0 <= i < b.len() && b[i] == x;
        assert((a + b)[a.len() + i] == x);
    }
    if (a + b).contains(x) {
        let i = choose|i: int| 0 <= i < (a + b).len() && (a + b)[i] == x;
        assert(i < a.len() ==> a[i] == x);
        assert(i >= a.len() ==> b[i - a.len()] == x);
    }
}

/// A start of a permutation, with a value that it does not hold yet, is one too.
pub(crate) proof fn lemma_partial_push(p: Seq<usize>, v: usize)
    requires
        partial(p),
        p.len() < 9,
        v < 9,
        !p.contains(v),
    ensures
        partial(p.push(v)),
{
}

/// What `completions(p)` holds: the permutations that start with `p`.
pub(crate) proof fn lemma_completions_members(p: Seq<usize>, q: Seq<usize>)
    requires
        partial(p),
    ensures
        completions(p).contains(q) <==> is_permutation(q) && q.take(p.len() as int) == p,
    decreases 9 - p.len(), 10int,
{
    if p.len() == 9 {
        assert(completions(p)[0] == p);
        if is_permutation(q) {
            assert(q.take(9) =~= q);
        }
    } else {
        lemma_choices_members(p, 9, q);
    }
}

/// What `choices(p, c)` holds: the permutations that start with `p` and go
/// on with a value below `c`.
proof fn lemma_choices_members(p: Seq<usize>, c: int, q: Seq<usize>)
    requires
        partial(p),
        p.len() < 9,
        0 <= c <= 9,
    ensures
        choices(p, c).contains(q) <==> is_permutation(q) && q.take(p.len() as int) == p && q[p.len() as int]
            < c,
    decreases 9 - p.len(), c,
{
    let d = p.len() as int;
    if c > 0 {
        let v = (c - 1) as usize;
        lemma_choices_members(p, c - 1, q);
        if is_permutation(q) && q.take(d) == p && q[d] == v {
            if p.contains(v) {
                let i = choose|i: int| 0 <= i < p.len() && p[i] == v;
                assert(q[i] == q[d]);
            }
            assert(q.take(d + 1) =~= p.push(v));
        }
        if !p.contains(v) {
            lemma_completions_members(p.push(v), q);
            lemma_concat_contains(choices(p, c - 1), completions(p.push(v)), q);
            if q.take(d + 1) == p.push(v) && q.len() == 9 {
                assert(q.take(d) =~= p);
                assert(q[d] == q.take(d + 1)[d]);
            }
        }
    }
}

proof fn lemma_completions_sorted(p: Seq<usize>)
    requires
        partial(p),
    ensures
        sorted(completions(p)),
    decreases 9 - p.len(), 10int,
{
    if p.len() < 9 {
        lemma_choices_sorted(p, 9);
    }
}

proof fn lemma_choices_sorted(p: Seq<usize>, c: int)
    requires
        partial(p),
        p.len() < 9,
        0 <= c <= 9,
    ensures
        sorted(choices(p, c)),
    decreases 9 - p.len(), c,
{
    let d = p.len() as int;
    if c > 0 {
        let v = (c - 1) as usize;
        lemma_choices_sorted(p, c - 1);
        if !p.contains(v) {
            lemma_completions_sorted(p.push(v));
            let a = choices(p, c - 1);
            let b = completions(p.push(v));
            let s = choices(p, c);
            assert forall|i: int, j: int| 0 <= i < j < s.len() implies lex_less(
                #[trigger] s[i],
                #[trigger] s[j],
            ) by {
                if i < a.len() <= j {
                    let x = a[i];
                    let y = b[j - a.len()];
                    lemma_choices_members(p, c - 1, x);
                    lemma_completions_members(p.push(v), y);
                    assert(y[d] == y.take(d + 1)[d]);
                    assert forall|k: int| 0 <= k < d implies x[k] == y[k] by {
                        assert(y[k] == y.take(d + 1)[k]);
                    }
                    assert(first_differ_at(x, y, d));
                }
            }
        }
    }
}

/// What is left of a sequence in lexicographic order is in that order too.
pub(crate) proof fn lemma_filter_sorted(s: Seq<Seq<usize>>, keep: spec_fn(Seq<usize>) -> bool)
    requires
        sorted(s),
    ensures
        sorted(s.filter(keep)),
    decreases s.len(),
{
    reveal(Seq::filter);
    if s.len() > 0 {
        let front = s.drop_last();
        lemma_filter_sorted(front, keep);
        if keep(s.last()) {
            let kept = front.filter(keep);
            let all = s.filter(keep);
            assert forall|i: int, j: int| 0 <= i < j < all.len() implies lex_less(
                #[trigger] all[i],
                #[trigger] all[j],
            ) by {
                if j == kept.len() {
                    front.lemma_filter_contains_rev(keep, kept[i]);
                    let k = choose|k: int| 0 <= k < front.len() && front[k] == kept[i];
                    assert(lex_less(s[k], s.last()));
                }
            }
        }
    }
}

/// Of the nine values, a start of a permutation leaves as many unused as it
/// falls short of nine.
proof fn lemma_unused(p: Seq<usize>)
    requires
        partial(p),
    ensures
        unused_below(p, 9) + p.len() == 9,
    decreases p.len(),
{
    if p.len() == 0 {
        reveal_with_fuel(unused_below, 10);
    } else {
        let front = p.drop_last();
        assert(p =~= front.push(p.last()));
        lemma_unused(front);
        lemma_unused_push(front, p.last(), 9);
    }
}

/// A further value takes one from the unused values below `c`, if it lies below `c`.
proof fn lemma_unused_push(p: Seq<usize>, x: usize, c: int)
    requires
        !p.contains(x),
        0 <= c <= 9,
    ensures
        unused_below(p, c) == unused_below(p.push(x), c) + if x < c {
            1int
        } else {
            0int
        },
    decreases c,
{
    if c > 0 {
        let v = (c - 1) as usize;
        let q = p.push(x);
        lemma_unused_push(p, x, c - 1);
        if p.contains(v) {
            let i = choose|i: int| 0 <= i < p.len() && p[i] == v;
            assert(q[i] == v);
        }
        if v == x {
            assert(q[p.len() as int] == v);
        }
        if q.contains(v) {
            let i = choose|i: int| 0 <= i < q.len() && q[i] == v;
            assert(i < p.len() ==> p[i] == v);
        }
    }
}

/// Where no value below `c` is unused, `p` holds each of them.
proof fn lemma_none_unused(p: Seq<usize>, c: int, v: usize)
    requires
        unused_below(p, c) == 0,
        0 <= v < c,
    ensures
        p.contains(v),
    decreases c,
{
    if v < c - 1 {
        lemma_none_unused(p, c - 1, v);
    }
}

/// A permutation takes each column in some row.
pub(crate) proof fn lemma_row_of(p: Seq<usize>, col: usize) -> (row: int)
    requires
        is_permutation(p),
        col < 9,
    ensures
        0 <= row < 9,
        p[row] == col,
{
    lemma_unused(p);
    lemma_none_unused(p, 9, col);
    choose|row: int| 0 <= row < p.len() && p[row] == col
}

proof fn lemma_completions_len(p: Seq<usize>)
    requires
        partial(p),
    ensures
        completions(p).len() == factorial((9 - p.len()) as nat),
    decreases 9 - p.len(), 10int,
{
    if p.len() < 9 {
        lemma_choices_len(p, 9);
        lemma_unused(p);
    }
}

proof fn lemma_choices_len(p: Seq<usize>, c: int)
    requires
        partial(p),
        p.len() < 9,
        0 <= c <= 9,
    ensures
        choices(p, c).len() == unused_below(p, c) * factorial((8 - p.len()) as nat),
    decreases 9 - p.len(), c,
{
    let f = factorial((8 - p.len()) as nat);
    if c > 0 {
        let v = (c - 1) as usize;
        lemma_choices_len(p, c - 1);
        if !p.contains(v) {
            lemma_completions_len(p.push(v));
            let n = unused_below(p, c - 1);
            assert((n + 1) * f == n * f + f) by (nonlinear_arith);
        }
    } else {
        assert(0 * f == 0);
    }
}

/// There are 9! permutations of nine values.
proof fn lemma_factorial_nine()
    ensures
        factorial(9) == 362880,
{
    reveal_with_fuel(factorial, 10);
}

/// The lexicographic order is strict: nothing comes before itself, and what
/// comes before something comes before all that comes after it.
proof fn lemma_lex_less_strict(p: Seq<usize>, q: Seq<usize>, r: Seq<usize>)
    ensures
        !lex_less(p, p),
        lex_less(p, q) && lex_less(q, r) ==> lex_less(p, r),
{
    if lex_less(p, q) && lex_less(q, r) {
        let i = choose|i: int| first_differ_at(p, q, i);
        let j = choose|j: int| first_differ_at(q, r, j);
        if i <= j {
            assert(first_differ_at(p, r, i));
        } else {
            assert(first_differ_at(p, r, j));
        }
    }
}

/// Two sequences in lexicographic order that have the same members are the same sequence.
pub(crate) proof fn lemma_sorted_unique(a: Seq<Seq<usize>>, b: Seq<Seq<usize>>)
    requires
        sorted(a),
        sorted(b),
        forall|p: Seq<usize>| a.contains(p) <==> b.contains(p),
    ensures
        a == b,
    decreases a.len(),
{
    if a.len() == 0 {
        if b.len() > 0 {
            assert(b.contains(b[0]));
        }
        assert(a =~= b);
    } else if b.len() == 0 {
        assert(a.contains(a[0]));
    } else {
        assert(a.contains(a[0]));
        assert(b.contains(b[0]));
        let j = choose|j: int| 0 <= j < b.len() && b[j] == a[0];
        let i = choose|i: int| 0 <= i < a.len() && a[i] == b[0];
        if i > 0 && j > 0 {
            assert(lex_less(a[0], a[i]));
            assert(lex_less(b[0], b[j]));
            lemma_lex_less_strict(a[0], b[0], a[0]);
        }
        assert(a[0] == b[0]);
        let x = a.drop_first();
        let y = b.drop_first();
        assert forall|p: Seq<usize>| x.contains(p) implies y.contains(p) by {
            let k = choose|k: int| 0 <= k < x.len() && x[k] == p;
            assert(lex_less(a[0], a[k + 1]));
            lemma_lex_less_strict(p, p, p);
            assert(a.contains(p));
            let m = choose|m: int| 0 <= m < b.len() && b[m] == p;
            assert(y[m - 1] == p);
        }
        assert forall|p: Seq<usize>| y.contains(p) implies x.contains(p) by {
            let k = choose|k: int| 0 <= k < y.len() && y[k] == p;
            assert(lex_less(b[0], b[k + 1]));
            lemma_lex_less_strict(p, p, p);
            assert(b.contains(p));
            let m = choose|m: int| 0 <= m < a.len() && a[m] == p;
            assert(x[m - 1] == p);
        }
        assert forall|i: int, j: int| 0 <= i < j < x.len() implies lex_less(
            #[trigger] x[i],
            #[trigger] x[j],
        ) by {
            assert(lex_less(a[i + 1], a[j + 1]));
        }
        assert forall|i: int, j: int| 0 <= i < j < y.len() implies lex_less(
            #[trigger] y[i],
            #[trigger] y[j],
        ) by {
            assert(lex_less(b[i + 1], b[j + 1]));
        }
        lemma_sorted_unique(x, y);
        assert(a =~= seq![a[0]] + x);
        assert(b =~= seq![b[0]] + y);
    }
}

/// How `all_permutations()` is made.
pub(crate) proof fn lemma_all_permutations_made()
    ensures
        all_permutations() == completions(Seq::empty()),
{
}

/// What `all_permutations()` is.
pub proof fn lemma_all_permutations()
    ensures
        is_permutation_list(all_permutations()),
        all_permutations().len() == 362880,
{
    let s = all_permutations();
    let e = Seq::<usize>::empty();
    lemma_completions_sorted(e);
    lemma_completions_len(e);
    lemma_factorial_nine();
    assert forall|i: int| 0 <= i < s.len() implies is_permutation(#[trigger] s[i]) by {
        lemma_completions_members(e, s[i]);
    }
    assert forall|p: Seq<usize>| is_permutation(p) implies #[trigger] s.contains(p) by {
        lemma_completions_members(e, p);
        assert(p.take(0) =~= e);
    }
}

/// There is one list of the permutations in order: whatever holds every
/// permutation, and nothing else, in lexicographic order, is that list.
pub proof fn lemma_permutation_list_unique(a: Seq<Seq<usize>>, b: Seq<Seq<usize>>)
    requires
        is_permutation_list(a),
        is_permutation_list(b),
    ensures
        a == b,
{
    lemma_sorted_unique(a, b);
}

} // verus!
