//! Sets of cells of the board, kept as the bits of one number.
//!
//! A [`Bitfield`] is seen in contracts as the set of the cells at which it is
//! set; the operators `|`, `&` and `!` are union, intersection and complement
//! within the board.
use crate::grid::{draw_grid, grid_text};
use vstd::prelude::*;
use vstd::std_specs::ops::{BitAndSpecImpl, BitOrSpecImpl, NotSpecImpl};

verus! {

/// A cell of the board, as `(row, column)`, both counted from zero.
pub type Cell = (int, int);

/// Whether bit `i` of `bits` is set. No bit is set outside `0..128`.
pub open spec fn bit_at(bits: u128, i: int) -> bool {
    0 <= i < 128 && (bits >> (i as u128)) & 1 == 1
}

/// The positions of the bits that are set in `bits`.
pub open spec fn ones(bits: u128) -> Set<int> {
    Set::new(|i: int| bit_at(bits, i))
}

/// `u128::count_ones` returns the number of bits that are set in its argument,
/// that is, of the positions in `0..128` at which the binary representation
/// holds a one.
pub assume_specification[ u128::count_ones ](bits: u128) -> (r: u32)
    ensures
        r == ones(bits).len(),
;

/// The 81 bits that stand for cells.
const MASK: u128 = 0x1_ffff_ffff_ffff_ffff_ffffu128;

proof fn lemma_bits_or_and(a: u128, b: u128, i: u128)
    by (bit_vector)
    requires
        i < 128,
    ensures
        ((a | b) >> i) & 1 == 1 <==> ((a >> i) & 1 == 1 || (b >> i) & 1 == 1),
        ((a & b) >> i) & 1 == 1 <==> ((a >> i) & 1 == 1 && (b >> i) & 1 == 1),
{
}

proof fn lemma_bits_not(a: u128, i: u128)
    by (bit_vector)
    requires
        i < 128,
    ensures
        ((!a & MASK) >> i) & 1 == 1 <==> (i < 81 && (a >> i) & 1 != 1),
{
}

proof fn lemma_bits_single(k: u128, i: u128)
    by (bit_vector)
    requires
        k < 128,
        i < 128,
    ensures
        ((1u128 << k) >> i) & 1 == 1 <==> i == k,
        (0u128 >> i) & 1 != 1,
{
}

proof fn lemma_bits_masked(a: u128, i: u128)
    by (bit_vector)
    requires
        a & !MASK == 0,
        81 <= i < 128,
    ensures
        (a >> i) & 1 != 1,
{
}

proof fn lemma_mask_kept(a: u128, b: u128, k: u128)
    by (bit_vector)
    requires
        k < 81,
    ensures
        (1u128 << k) & !MASK == 0,
        (!a & MASK) & !MASK == 0,
        a & !MASK == 0 ==> (a & b) & !MASK == 0,
        a & !MASK == 0 ==> (b & a) & !MASK == 0,
        a & !MASK == 0 && b & !MASK == 0 ==> (a | b) & !MASK == 0,
{
}

/// A value other than zero has a bit set below `hi`, if it has none from `hi` upwards.
proof fn lemma_set_bit_below(x: u128, hi: u128) -> (i: u128)
    requires
        x != 0,
        0 < hi <= 128,
        hi < 128 ==> x >> hi == 0,
    ensures
        i < hi,
        (x >> i) & 1 == 1,
    decreases hi,
{
    let top: u128 = (hi - 1) as u128;
    if (x >> top) & 1 == 1 {
        top
    } else {
        assert(top > 0 && x >> top == 0) by (bit_vector)
            requires
                x != 0,
                top < 128,
                (x >> top) & 1 != 1,
                top < 127 ==> x >> ((top + 1) as u128) == 0,
        ;
        lemma_set_bit_below(x, top)
    }
}

/// Two values that differ, differ in some bit.
proof fn lemma_differing_bit(a: u128, b: u128) -> (i: int)
    requires
        a != b,
    ensures
        0 <= i < 128,
        bit_at(a, i) != bit_at(b, i),
{
    let x = a ^ b;
    assert(x != 0) by (bit_vector)
        requires
            a != b,
            x == a ^ b,
    ;
    let i = lemma_set_bit_below(x, 128);
    assert(((a >> i) & 1 == 1) != ((b >> i) & 1 == 1)) by (bit_vector)
        requires
            i < 128,
            ((a ^ b) >> i) & 1 == 1,
    ;
    i as int
}

/// The 81 cells of the board.
pub open spec fn all_cells() -> Set<Cell> {
    Set::new(|cell: Cell| 0 <= cell.0 < 9 && 0 <= cell.1 < 9)
}

/// The cells of the board that come, row by row, before the `n`-th.
spec fn cells_before(n: int) -> Set<Cell> {
    Set::new(|cell: Cell| 0 <= cell.0 < 9 && 0 <= cell.1 < 9 && 9 * cell.0 + cell.1 < n)
}

proof fn lemma_cells_before(n: int)
    requires
        0 <= n <= 81,
    ensures
        cells_before(n).finite(),
        cells_before(n).len() == n,
    decreases n,
{
    if n == 0 {
        assert(cells_before(0) =~= Set::empty());
    } else {
        lemma_cells_before(n - 1);
        let cell: Cell = ((n - 1) / 9, (n - 1) % 9);
        assert(cells_before(n) =~= cells_before(n - 1).insert(cell));
    }
}

/// The board has 81 cells.
pub proof fn lemma_all_cells_finite()
    ensures
        all_cells().finite(),
        all_cells().len() == 81,
{
    lemma_cells_before(81);
    assert(all_cells() =~= cells_before(81));
}

/// A boolean field over the 9x9 grid of a Sudoku: one yes/no value per cell.
///
/// The cell at `(row, column)` is kept in bit `9 * row + column`, and the bits
/// from 81 upwards are always clear, so that two fields are equal exactly when
/// they are set at the same cells.
#[derive(Copy, Clone, Ord, PartialOrd, Eq, PartialEq, Structural, Hash, Debug)]
pub struct Bitfield(u128);

impl Bitfield {
    /// No bit is set that stands for no cell.
    #[verifier::type_invariant]
    pub closed spec fn wf(self) -> bool {
        self.0 & !MASK == 0
    }

    /// Whether the field is set at `(row, col)`.
    pub closed spec fn has(self, row: int, col: int) -> bool {
        0 <= row < 9 && 0 <= col < 9 && bit_at(self.0, 9 * row + col)
    }

    /// The set of cells at which the field is set.
    pub open spec fn view(self) -> Set<Cell> {
        Set::new(|cell: Cell| self.has(cell.0, cell.1))
    }

    /// The cells of `self` whose bit lies below `n`.
    spec fn cells_below(self, n: int) -> Set<Cell> {
        Set::new(|cell: Cell| self.has(cell.0, cell.1) && 9 * cell.0 + cell.1 < n)
    }

    proof fn lemma_count_below(self, n: int)
        requires
            0 <= n <= 81,
        ensures
            self.cells_below(n).finite(),
            ones(self.0).filter(|i: int| i < n).finite(),
            self.cells_below(n).len() == ones(self.0).filter(|i: int| i < n).len(),
        decreases n,
    {
        let low = |i: int| i < n;
        if n == 0 {
            assert(self.cells_below(0) =~= Set::empty());
            assert(ones(self.0).filter(low) =~= Set::empty());
        } else {
            let m = n - 1;
            let low_m = |i: int| i < m;
            self.lemma_count_below(m);
            let cell: Cell = (m / 9, m % 9);
            if bit_at(self.0, m) {
                assert(self.cells_below(n) =~= self.cells_below(m).insert(cell));
                assert(ones(self.0).filter(low) =~= ones(self.0).filter(low_m).insert(m));
            } else {
                assert(self.cells_below(n) =~= self.cells_below(m));
                assert(ones(self.0).filter(low) =~= ones(self.0).filter(low_m));
            }
        }
    }

    /// A field is set at a finite number of cells: as many as it has bits set.
    proof fn lemma_count(self)
        requires
            self.wf(),
        ensures
            self@.finite(),
            ones(self.0).finite(),
            self@.len() == ones(self.0).len(),
    {
        self.lemma_count_below(81);
        assert(self@ =~= self.cells_below(81));
        assert(ones(self.0) =~= ones(self.0).filter(|i: int| i < 81)) by {
            assert forall|i: int| bit_at(self.0, i) implies i < 81 by {
                if i >= 81 {
                    lemma_bits_masked(self.0, i as u128);
                }
            }
        }
    }

    /// A field is set at finitely many cells, all of them on the board.
    pub proof fn lemma_finite(self)
        requires
            self.wf(),
        ensures
            self@.finite(),
            self@.subset_of(all_cells()),
    {
        self.lemma_count();
    }

    /// A field that is set at one cell has one element, and fields that are
    /// set at different single cells differ.
    pub proof fn lemma_single_cell(self, cell: Cell, other: Bitfield, other_cell: Cell)
        requires
            self@ == set![cell],
            other@ == set![other_cell],
        ensures
            self@.len() == 1,
            cell != other_cell ==> self != other,
    {
        assert(self@.contains(cell));
        assert(other@.contains(other_cell));
    }

    /// Fields that are set at the same cells are the same field.
    pub proof fn lemma_equal_views(self, other: Bitfield)
        requires
            self.wf(),
            other.wf(),
            self@ == other@,
        ensures
            self == other,
    {
        if self.0 != other.0 {
            let i = lemma_differing_bit(self.0, other.0);
            if i >= 81 {
                lemma_bits_masked(self.0, i as u128);
                lemma_bits_masked(other.0, i as u128);
            } else {
                let cell: Cell = (i / 9, i % 9);
                assert(self@.contains(cell) == self.has(cell.0, cell.1));
                assert(other@.contains(cell) == other.has(cell.0, cell.1));
            }
        }
    }

    /// The field that is set wherever `self` or `other` is.
    pub closed spec fn union(self, other: Bitfield) -> Bitfield {
        Bitfield(self.0 | other.0)
    }

    /// The field that is set wherever both `self` and `other` are.
    pub closed spec fn intersection(self, other: Bitfield) -> Bitfield {
        Bitfield(self.0 & other.0)
    }

    /// The field that is set at the cells of the board at which `self` is not.
    pub closed spec fn complement(self) -> Bitfield {
        Bitfield(!self.0 & MASK)
    }

    /// The field that is set nowhere.
    pub closed spec fn empty() -> Bitfield {
        Bitfield(0)
    }

    proof fn lemma_has(self, other: Bitfield, row: int, col: int)
        ensures
            self.union(other).has(row, col) == (self.has(row, col) || other.has(row, col)),
            self.intersection(other).has(row, col) == (self.has(row, col) && other.has(row, col)),
            self.complement().has(row, col) == (0 <= row < 9 && 0 <= col < 9 && !self.has(
                row,
                col,
            )),
            !Self::empty().has(row, col),
    {
        if 0 <= row < 9 && 0 <= col < 9 {
            let i = (9 * row + col) as u128;
            lemma_bits_or_and(self.0, other.0, i);
            lemma_bits_not(self.0, i);
            lemma_bits_single(0, i);
        }
    }

    /// The set operations on fields are those on their sets of cells, and keep
    /// the bits clear that stand for no cell.
    pub proof fn lemma_set_algebra(self, other: Bitfield)
        ensures
            self.union(other)@ == self@.union(other@),
            self.intersection(other)@ == self@.intersect(other@),
            self.complement()@ == all_cells().difference(self@),
            Self::empty()@ == Set::<Cell>::empty(),
            self.wf() && other.wf() ==> self.union(other).wf(),
            self.wf() || other.wf() ==> self.intersection(other).wf(),
            self.complement().wf(),
            Self::empty().wf(),
    {
        lemma_mask_kept(self.0, other.0, 0);
        lemma_mask_kept(other.0, self.0, 0);
        assert(0u128 & !MASK == 0) by (bit_vector);
        assert(self.union(other)@ =~= self@.union(other@)) by {
            assert forall|cell: Cell|
                self.union(other)@.contains(cell) == self@.union(other@).contains(cell) by {
                self.lemma_has(other, cell.0, cell.1);
            }
        }
        assert(self.intersection(other)@ =~= self@.intersect(other@)) by {
            assert forall|cell: Cell|
                self.intersection(other)@.contains(cell) == self@.intersect(other@).contains(
                    cell,
                ) by {
                self.lemma_has(other, cell.0, cell.1);
            }
        }
        assert(self.complement()@ =~= all_cells().difference(self@)) by {
            assert forall|cell: Cell|
                self.complement()@.contains(cell) == all_cells().difference(self@).contains(
                    cell,
                ) by {
                self.lemma_has(other, cell.0, cell.1);
            }
        }
        assert(Self::empty()@ =~= Set::<Cell>::empty()) by {
            assert forall|cell: Cell| !Self::empty()@.contains(cell) by {
                self.lemma_has(other, cell.0, cell.1);
            }
        }
    }

    /// Create a new bitfield, with exactly one bit set, corresponding to the cell at position
    /// `row`, `col`.
    pub fn new(row: usize, col: usize) -> (r: Self)
        requires
            row < 9,
            col < 9,
        ensures
            r@ == set![(row as int, col as int)],
    {
        let bit: usize = 9 * row + col;
        let bits: u128 = 1u128 << bit;
        proof {
            lemma_mask_kept(0, 0, bit as u128);
            assert forall|cell: Cell|
                Bitfield(bits).has(cell.0, cell.1) <==> cell == (row as int, col as int) by {
                if 0 <= cell.0 < 9 && 0 <= cell.1 < 9 {
                    lemma_bits_single(bit as u128, (9 * cell.0 + cell.1) as u128);
                }
            }
        }
        Bitfield(bits)
    }

    /// Is this bitfield completely empty? A bitfield which satisfies this can be created with
    /// `Default::default()`.
    pub fn is_empty(self) -> (r: bool)
        ensures
            r <==> self@ == Set::<Cell>::empty(),
    {
        proof {
            use_type_invariant(&self);
            if self.0 == 0 {
                assert forall|cell: Cell| !self.has(cell.0, cell.1) by {
                    if 0 <= cell.0 < 9 && 0 <= cell.1 < 9 {
                        lemma_bits_single(0, (9 * cell.0 + cell.1) as u128);
                    }
                }
                assert(self@ =~= Set::<Cell>::empty());
            } else {
                let i = lemma_differing_bit(self.0, 0);
                assert(bit_at(self.0, i)) by {
                    lemma_bits_single(0, i as u128);
                }
                if i >= 81 {
                    lemma_bits_masked(self.0, i as u128);
                }
                let cell: Cell = (i / 9, i % 9);
                assert(self@.contains(cell));
            }
        }
        self.0 == 0
    }

    /// Is this bitfield a complete superset of the other bitfield?
    pub fn contains(self, other: Self) -> (r: bool)
        ensures
            r <==> other@.subset_of(self@),
    {
        proof {
            use_type_invariant(&self);
            use_type_invariant(&other);
            let both = other.0 & self.0;
            if both == other.0 {
                assert forall|cell: Cell| other@.contains(cell) implies self@.contains(cell) by {
                    lemma_bits_or_and(other.0, self.0, (9 * cell.0 + cell.1) as u128);
                }
            } else {
                let i = lemma_differing_bit(both, other.0);
                lemma_bits_or_and(other.0, self.0, i as u128);
                if i >= 81 {
                    lemma_bits_masked(other.0, i as u128);
                }
                let cell: Cell = (i / 9, i % 9);
                assert(other@.contains(cell) && !self@.contains(cell));
            }
        }
        other.0 & self.0 == other.0
    }

    /// How many true values are there within this bitfield?
    pub fn len(self) -> (r: u32)
        ensures
            self@.finite(),
            r == self@.len(),
    {
        proof {
            use_type_invariant(&self);
            self.lemma_count();
        }
        self.0.count_ones()
    }

    /// How the cells are drawn, row by row: an exclamation mark where the field is set.
    pub open spec fn marks(self) -> Seq<char> {
        Seq::new(
            81,
            |i: int|
                if self@.contains((i / 9, i % 9)) {
                    '!'
                } else {
                    ' '
                },
        )
    }

    /// The field as a binary number of 81 digits: the digit for the last cell
    /// of the board comes first, that for its first cell last.
    pub open spec fn binary_digits(self) -> Seq<char> {
        Seq::new(
            81,
            |i: int|
                if self@.contains(((80 - i) / 9, (80 - i) % 9)) {
                    '1'
                } else {
                    '0'
                },
        )
    }

    /// Draws the field as an ascii-art board, using "!" to show where it is set.
    pub fn to_string(&self) -> (text: String)
        ensures
            text@ == grid_text(self.marks()),
    {
        let mut cells = [' ';81];
        let mut row: usize = 0;
        while row < 9
            invariant
                row <= 9,
                forall|i: int| 0 <= i < 9 * row ==> cells@[i] == self.marks()[i],
            decreases 9 - row,
        {
            let mut col: usize = 0;
            while col < 9
                invariant
                    row < 9,
                    col <= 9,
                    forall|i: int| 0 <= i < 9 * row + col ==> cells@[i] == self.marks()[i],
                decreases 9 - col,
            {
                let ch = if self.contains(Bitfield::new(row, col)) {
                    '!'
                } else {
                    ' '
                };
                cells[9 * row + col] = ch;
                col += 1;
            }
            row += 1;
        }
        draw_grid(&cells)
    }

    /// Writes the field in binary, with exactly 81 digits.
    pub fn to_binary(&self) -> (text: String)
        ensures
            text@ == self.binary_digits(),
    {
        let mut text = String::new();
        let mut i: usize = 0;
        while i < 81
            invariant
                i <= 81,
                text@ == self.binary_digits().take(i as int),
            decreases 81 - i,
        {
            let bit = 80 - i;
            let ch = if self.contains(Bitfield::new(bit / 9, bit % 9)) {
                '1'
            } else {
                '0'
            };
            text.push(ch);
            i += 1;
        }
        text
    }
}

impl Default for Bitfield {
    /// The field that is set nowhere.
    fn default() -> (r: Self)
        ensures
            r == Bitfield::empty(),
            r@ == Set::<Cell>::empty(),
    {
        proof {
            Bitfield::empty().lemma_set_algebra(Bitfield::empty());
        }
        Bitfield(0)
    }
}

impl BitOrSpecImpl for Bitfield {
    open spec fn obeys_bitor_spec() -> bool {
        true
    }

    open spec fn bitor_req(self, rhs: Bitfield) -> bool {
        true
    }

    open spec fn bitor_spec(self, rhs: Bitfield) -> Bitfield {
        self.union(rhs)
    }
}

impl core::ops::BitOr for Bitfield {
    type Output = Self;

    /// The union of two fields.
    fn bitor(self, rhs: Self) -> (r: Self)
        ensures
            r@ == self@.union(rhs@),
    {
        proof {
            use_type_invariant(&self);
            use_type_invariant(&rhs);
            self.lemma_set_algebra(rhs);
        }
        Bitfield(self.0 | rhs.0)
    }
}

impl BitAndSpecImpl for Bitfield {
    open spec fn obeys_bitand_spec() -> bool {
        true
    }

    open spec fn bitand_req(self, rhs: Bitfield) -> bool {
        true
    }

    open spec fn bitand_spec(self, rhs: Bitfield) -> Bitfield {
        self.intersection(rhs)
    }
}

impl core::ops::BitAnd for Bitfield {
    type Output = Self;

    /// The intersection of two fields.
    fn bitand(self, rhs: Self) -> (r: Self)
        ensures
            r@ == self@.intersect(rhs@),
    {
        proof {
            use_type_invariant(&self);
            use_type_invariant(&rhs);
            self.lemma_set_algebra(rhs);
        }
        Bitfield(self.0 & rhs.0)
    }
}

impl NotSpecImpl for Bitfield {
    open spec fn obeys_not_spec() -> bool {
        true
    }

    open spec fn not_req(self) -> bool {
        true
    }

    open spec fn not_spec(self) -> Bitfield {
        self.complement()
    }
}

impl core::ops::Not for Bitfield {
    type Output = Self;

    /// The complement of a field within the board.
    fn not(self) -> (r: Self)
        ensures
            r@ == all_cells().difference(self@),
    {
        proof {
            self.lemma_set_algebra(self);
        }
        Bitfield(!self.0 & MASK)
    }
}

impl core::ops::BitOrAssign for Bitfield {
    fn bitor_assign(&mut self, rhs: Self)
        ensures
            *final(self) == old(self).union(rhs),
            final(self)@ == old(self)@.union(rhs@),
    {
        *self = *self | rhs;
    }
}

impl core::ops::BitAndAssign for Bitfield {
    fn bitand_assign(&mut self, rhs: Self)
        ensures
            *final(self) == old(self).intersection(rhs),
            final(self)@ == old(self)@.intersect(rhs@),
    {
        *self = *self & rhs;
    }
}

} // verus!

