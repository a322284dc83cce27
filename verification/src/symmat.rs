//! A symmetric matrix that stores only its upper triangular half.
//!
//! A cell `(i, j)` and its mirror `(j, i)` share one storage slot, so the
//! matrix is symmetric by construction. The backing vector holds the rows
//! of the upper triangle one after the other; a cell is addressed by a
//! computed offset, with no pointer structure.

use vstd::prelude::*;
use vstd::pervasive::VecAdditionalExecFns;

verus! {

/// Whether `(k, l)` and `(a, b)` name the same cell of a symmetric matrix,
/// that is, the same unordered pair of indices.
pub open spec fn same_cell(k: int, l: int, a: int, b: int) -> bool {
    (k == a && l == b) || (k == b && l == a)
}

/// Sum of the integers from 1 to `n` (the `n`-th triangular number).
///
/// A matrix of `n` lines stores `tri(n)` values, and row `i` of the upper
/// triangle starts `tri(i)` slots short of `n * i`.
pub open spec fn tri(n: int) -> int
    decreases n,
{
    if n <= 0 {
        0
    } else {
        tri(n - 1) + n
    }
}

/// The smaller of two indices.
pub open spec fn lo_idx(i: int, j: int) -> int {
    if i <= j {
        i
    } else {
        j
    }
}

/// The larger of two indices.
pub open spec fn hi_idx(i: int, j: int) -> int {
    if i <= j {
        j
    } else {
        i
    }
}

/// Storage offset of the cell `(i, j)` of a matrix with `size` lines,
/// for a normalized pair `i <= j`.
pub open spec fn lin(size: int, i: int, j: int) -> int {
    size * i + j - tri(i)
}

pub proof fn lemma_tri_double(n: int)
    requires
        n >= 0,
    ensures
        2 * tri(n) == n * (n + 1),
        tri(n) >= n,
    decreases n,
{
    if n > 0 {
        lemma_tri_double(n - 1);
        assert((n - 1) * n + 2 * n == n * (n + 1)) by (nonlinear_arith);
    }
}

/// Every offset of a normalized in-range pair falls inside the allocated
/// `tri(size)` slots.
pub proof fn lemma_lin_bounds(size: int, i: int, j: int)
    requires
        0 <= i <= j < size,
    ensures
        0 <= lin(size, i, j) < tri(size),
{
    lemma_tri_double(i);
    lemma_tri_double(size);
    assert(2 * (size * i + j - tri(i)) >= 0) by (nonlinear_arith)
        requires
            0 <= i <= j < size,
            2 * tri(i) == i * (i + 1),
    ;
    assert(2 * (size * i + j - tri(i)) < 2 * tri(size)) by (nonlinear_arith)
        requires
            0 <= i <= j < size,
            2 * tri(i) == i * (i + 1),
            2 * tri(size) == size * (size + 1),
    ;
}

/// The offsets of two distinct normalized in-range pairs differ: walking the
/// pairs in row-major order walks the storage strictly forward.
pub proof fn lemma_lin_strict_mono(size: int, i: int, j: int, k: int, l: int)
    requires
        0 <= i <= j < size,
        0 <= k <= l < size,
        i < k || (i == k && j < l),
    ensures
        lin(size, i, j) < lin(size, k, l),
{
    if i == k {
        lemma_tri_double(i);
    } else {
        lemma_tri_double(i);
        lemma_tri_double(k);
        assert(2 * (size * i + j - tri(i)) < 2 * (size * k + l - tri(k))) by (nonlinear_arith)
            requires
                0 <= i <= j < size,
                0 <= k <= l < size,
                i < k,
                2 * tri(i) == i * (i + 1),
                2 * tri(k) == k * (k + 1),
        ;
    }
}

/// Distinct normalized in-range pairs use distinct storage slots.
pub proof fn lemma_lin_injective(size: int, i: int, j: int, k: int, l: int)
    requires
        0 <= i <= j < size,
        0 <= k <= l < size,
        !(i == k && j == l),
    ensures
        lin(size, i, j) != lin(size, k, l),
{
    if i < k || (i == k && j < l) {
        lemma_lin_strict_mono(size, i, j, k, l);
    } else {
        lemma_lin_strict_mono(size, k, l, i, j);
    }
}

/// A symmetric matrix.
pub struct SymMat<T> {
    size: usize,
    values: Vec<T>,
}

impl<T> SymMat<T> {
    /// Number of lines (and of columns) of the matrix.
    pub closed spec fn spec_size(self) -> int {
        self.size as int
    }

    /// The backing storage: the rows of the upper triangle, one after the
    /// other.
    pub closed spec fn spec_values(self) -> Seq<T> {
        self.values@
    }

    /// Well-formed matrix: the storage holds exactly one slot per normalized
    /// pair, and the addressing arithmetic stays within machine bounds.
    pub open spec fn wf(self) -> bool {
        &&& self.spec_values().len() == tri(self.spec_size())
        &&& self.spec_size() * (self.spec_size() + 1) <= usize::MAX as int
    }

    /// The value stored for the cell `(i, j)`. Symmetric in `i` and `j` by
    /// construction: both orders address the same slot.
    pub open spec fn spec_at(self, i: int, j: int) -> T {
        self.spec_values()[lin(self.spec_size(), lo_idx(i, j), hi_idx(i, j))]
    }

    /// The size of a matrix is a machine integer.
    pub proof fn lemma_size_bounds(self)
        ensures
            0 <= self.spec_size() <= usize::MAX as int,
    {
    }

    /// The stored value never depends on the order of the two indices.
    pub proof fn lemma_symmetric(self, i: int, j: int)
        ensures
            self.spec_at(i, j) == self.spec_at(j, i),
    {
    }

    /// Sum of integers from 1 to `end` (inclusive).
    fn int_sum(end: usize) -> (r: usize)
        requires
            (end as int) * (end as int + 1) <= usize::MAX as int,
        ensures
            r as int == tri(end as int),
    {
        proof {
            lemma_tri_double(end as int);
            assert(end as int + 1 <= usize::MAX as int) by (nonlinear_arith)
                requires
                    (end as int) * (end as int + 1) <= usize::MAX as int,
                    end >= 0,
            ;
        }
        (end * (end + 1)) / 2
    }

    /// Get the index where the element of line `i` column `j` is stored in
    /// the matrix vector.
    fn index(&self, i: usize, j: usize) -> (r: usize)
        requires
            self.wf(),
            i < self.spec_size(),
            j < self.spec_size(),
        ensures
            r == lin(self.spec_size(), lo_idx(i as int, j as int), hi_idx(i as int, j as int)),
            r < self.spec_values().len(),
    {
        // The line must always be <= col.
        let line: usize = if i > j { j } else { i };
        let col: usize = if i > j { i } else { j };

        proof {
            assert((line as int) * (line as int + 1) <= (self.size as int) * (self.size as int
                + 1)) by (nonlinear_arith)
                requires
                    0 <= line < self.size as int,
            ;
            assert((self.size as int) * (line as int) + col as int <= (self.size as int) * (
            self.size as int + 1)) by (nonlinear_arith)
                requires
                    0 <= line < self.size as int,
                    0 <= col < self.size as int,
            ;
            lemma_lin_bounds(self.size as int, line as int, col as int);
        }
        let skip: usize = Self::int_sum(line);
        (self.size * line + col) - skip
    }

    /// Returns a reference to the element of the line `i` column `j` in the
    /// matrix or `None` if out of bounds.
    pub fn get(&self, i: usize, j: usize) -> (r: Option<&T>)
        requires
            self.wf(),
        ensures
            r is Some <==> (i < self.spec_size() && j < self.spec_size()),
            r matches Some(v) ==> *v == self.spec_at(i as int, j as int),
    {
        if i < self.size && j < self.size {
            let conn_index: usize = self.index(i, j);
            Some(&self.values[conn_index])
        } else {
            None
        }
    }

    /// Returns a mutable reference to the element of the line `a` column `b`
    /// in the matrix. Both indices must be in bounds. The contract speaks of
    /// the backing storage: writing through the reference updates the one
    /// slot that the cell `(a, b)` and its mirror `(b, a)` share.
    pub fn get_mut(&mut self, a: usize, b: usize) -> (r: &mut T)
        requires
            old(self).wf(),
            a < old(self).spec_size(),
            b < old(self).spec_size(),
        ensures
            *r == old(self).spec_at(a as int, b as int),
            final(self).wf(),
            final(self).spec_size() == old(self).spec_size(),
            final(self).spec_values() == old(self).spec_values().update(
                lin(old(self).spec_size(), lo_idx(a as int, b as int), hi_idx(a as int, b as int)),
                *final(r),
            ),
    {
        let conn_index: usize = self.index(a, b);
        &mut self.values[conn_index]
    }

    /// Set the element of line `i` column `j` to the given `value`. Both
    /// indices must be in bounds.
    pub fn set(&mut self, i: usize, j: usize, value: T)
        requires
            old(self).wf(),
            i < old(self).spec_size(),
            j < old(self).spec_size(),
        ensures
            final(self).wf(),
            final(self).spec_size() == old(self).spec_size(),
            final(self).spec_at(i as int, j as int) == value,
            final(self).spec_at(j as int, i as int) == value,
            forall|k: int, l: int|
                0 <= k < old(self).spec_size() && 0 <= l < old(self).spec_size() && !same_cell(
                    k,
                    l,
                    i as int,
                    j as int,
                ) ==> #[trigger] final(self).spec_at(k, l) == old(self).spec_at(k, l),
    {
        let r = self.get_mut(i, j);
        *r = value;
        proof {
            let size = old(self).spec_size();
            assert forall|k: int, l: int|
                0 <= k < size && 0 <= l < size && !same_cell(
                    k,
                    l,
                    i as int,
                    j as int,
                ) implies #[trigger] self.spec_at(k, l) == old(self).spec_at(k, l) by {
                lemma_lin_bounds(size, lo_idx(i as int, j as int), hi_idx(i as int, j as int));
                lemma_lin_bounds(size, lo_idx(k, l), hi_idx(k, l));
                lemma_lin_injective(
                    size,
                    lo_idx(k, l),
                    hi_idx(k, l),
                    lo_idx(i as int, j as int),
                    hi_idx(i as int, j as int),
                );
            }
            lemma_lin_bounds(size, lo_idx(i as int, j as int), hi_idx(i as int, j as int));
        }
    }

    /// Number of lines (and of columns) of the matrix.
    pub fn size(&self) -> (r: usize)
        ensures
            r == self.spec_size(),
    {
        self.size
    }

    /// Get the matrix items as a slice of values.
    pub fn values(&self) -> (r: &[T])
        ensures
            r@ == self.spec_values(),
    {
        self.values.as_slice()
    }
}

impl<T: Copy> SymMat<T> {
    /// Creates a new symmetric matrix with `size` lines and columns filled
    /// with the given `value`.
    pub fn fill(size: usize, value: T) -> (r: Self)
        requires
            (size as int) * (size as int + 1) <= usize::MAX as int,
        ensures
            r.wf(),
            r.spec_size() == size,
            forall|i: int, j: int|
                0 <= i < size && 0 <= j < size ==> #[trigger] r.spec_at(i, j) == value,
    {
        let n: usize = Self::int_sum(size);
        let mut values: Vec<T> = Vec::new();
        while values.len() < n
            invariant
                values@.len() <= n,
                forall|k: int| 0 <= k < values@.len() ==> values@[k] == value,
            decreases n - values@.len(),
        {
            values.push(value);
        }
        let r = SymMat { size, values };
        proof {
            assert forall|i: int, j: int| 0 <= i < size && 0 <= j < size implies #[trigger] r
                .spec_at(i, j) == value by {
                lemma_lin_bounds(size as int, lo_idx(i, j), hi_idx(i, j));
            }
        }
        r
    }
}

impl<T: Default + Copy> SymMat<T> {
    /// Creates a new symmetric matrix with `size` lines and columns filled
    /// with the default value of `T`.
    pub fn fill_default(size: usize) -> (r: Self)
        requires
            (size as int) * (size as int + 1) <= usize::MAX as int,
        ensures
            r.wf(),
            r.spec_size() == size,
            forall|i: int, j: int|
                0 <= i < size && 0 <= j < size ==> call_ensures(
                    T::default,
                    (),
                    #[trigger] r.spec_at(i, j),
                ),
    {
        SymMat::fill(size, T::default())
    }
}

} // verus!
