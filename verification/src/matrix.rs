//! A rectangular matrix of modular scalars, stored as outer entries
//! ("columns") of equal-length inner vectors ("rows").  The matrix
//! product treats the outer index as the row of the textbook product:
//! `(A * B)[i][j]` is the dot product of outer entry `i` of `A` with
//! inner entry `j` across the outer entries of `B`.

use vstd::prelude::*;
use crate::element::Element;
use crate::arith::{add_val, mul_val, sub_val};
use crate::linalg::{vals, row_vals, col_of, dot};

verus! {

#[derive(Debug)]
pub struct Matrix {
    pub data: Vec<Vec<Element>>,
}

impl View for Matrix {
    type V = Seq<Seq<Element>>;

    open spec fn view(&self) -> Seq<Seq<Element>> {
        Seq::new(self.data@.len(), |i: int| self.data@[i]@)
    }
}

impl Matrix {
    /// Length of the first inner vector, as a specification value.
    pub open spec fn spec_rows(self) -> nat {
        if self@.len() == 0 {
            0
        } else {
            self@[0].len()
        }
    }

    /// All inner vectors have the same length.
    pub open spec fn rect(self) -> bool {
        forall|i: int| 0 <= i < self@.len() ==> (#[trigger] self@[i]).len() == self.spec_rows()
    }

    /// Every contained scalar carries the modulus `q`.
    pub open spec fn all_q(self, q: u64) -> bool {
        forall|i: int, j: int|
            0 <= i < self@.len() && 0 <= j < self@[i].len() ==> (#[trigger] self@[i][j]).q == q
    }

    /// Every contained scalar is reduced below its modulus.
    pub open spec fn all_reduced(self) -> bool {
        forall|i: int, j: int|
            0 <= i < self@.len() && 0 <= j < self@[i].len() ==> (#[trigger] self@[i][j]).reduced()
    }

    /// A rectangular matrix whose scalars all carry the modulus `q`.
    pub open spec fn wf(self, q: u64) -> bool {
        self.rect() && self.all_q(q)
    }

    /// Initialise an empty matrix (0 by 0).
    pub fn new() -> (r: Matrix)
        ensures
            r@.len() == 0,
    {
        Matrix { data: Vec::new() }
    }

    /// Initialise a matrix holding a copy of the given entries.
    pub fn from(data: &Vec<Vec<Element>>) -> (r: Matrix)
        ensures
            r@.len() == data@.len(),
            forall|i: int| 0 <= i < data@.len() ==> r@[i] == #[trigger] data@[i]@,
    {
        let mut d: Vec<Vec<Element>> = Vec::new();
        let mut i: usize = 0;
        while i < data.len()
            invariant
                i <= data@.len(),
                d@.len() == i,
                forall|k: int| 0 <= k < i ==> d@[k]@ == #[trigger] data@[k]@,
            decreases data@.len() - i,
        {
            d.push(copy_row(&data[i]));
            i += 1;
        }
        Matrix { data: d }
    }

    /// A 1-by-1 matrix holding the given scalar.
    pub fn from_single(elem: &Element) -> (r: Matrix)
        ensures
            r@.len() == 1,
            r@[0].len() == 1,
            r@[0][0] == *elem,
    {
        let mut row: Vec<Element> = Vec::new();
        row.push(*elem);
        let mut d: Vec<Vec<Element>> = Vec::new();
        d.push(row);
        Matrix { data: d }
    }

    /// A matrix with a single outer entry holding a copy of the vector.
    pub fn from_col(col: &Vec<Element>) -> (r: Matrix)
        ensures
            r@.len() == 1,
            r@[0] == col@,
    {
        let mut d: Vec<Vec<Element>> = Vec::new();
        d.push(copy_row(col));
        Matrix { data: d }
    }

    /// A matrix of `rows` outer entries, each an inner vector of `cols`
    /// copies of `val`.
    pub fn from_val(rows: usize, cols: usize, val: Element) -> (r: Matrix)
        ensures
            r@.len() == rows,
            forall|i: int| 0 <= i < rows ==> (#[trigger] r@[i]).len() == cols,
            forall|i: int, j: int| 0 <= i < rows && 0 <= j < cols ==> #[trigger] r@[i][j] == val,
    {
        let mut d: Vec<Vec<Element>> = Vec::new();
        let mut i: usize = 0;
        while i < rows
            invariant
                i <= rows,
                d@.len() == i,
                forall|k: int| 0 <= k < i ==> (#[trigger] d@[k])@.len() == cols,
                forall|k: int, j: int| 0 <= k < i && 0 <= j < cols ==> #[trigger] d@[k]@[j] == val,
            decreases rows - i,
        {
            let mut row: Vec<Element> = Vec::new();
            let mut j: usize = 0;
            while j < cols
                invariant
                    j <= cols,
                    row@.len() == j,
                    forall|t: int| 0 <= t < j ==> #[trigger] row@[t] == val,
                decreases cols - j,
            {
                row.push(val);
                j += 1;
            }
            d.push(row);
            i += 1;
        }
        Matrix { data: d }
    }

    /// A matrix of `cols` outer entries of `rows` scalars each, every
    /// scalar drawn uniformly from `[0, q)`.
    pub fn gen_uniform_rand(q: u64, rows: usize, cols: usize) -> (r: Matrix)
        requires
            q >= 1,
        ensures
            r@.len() == cols,
            forall|i: int| 0 <= i < cols ==> (#[trigger] r@[i]).len() == rows,
            r.wf(q),
            r.all_reduced(),
    {
        let mut d: Vec<Vec<Element>> = Vec::new();
        let mut i: usize = 0;
        while i < cols
            invariant
                q >= 1,
                i <= cols,
                d@.len() == i,
                forall|k: int| 0 <= k < i ==> (#[trigger] d@[k])@.len() == rows,
                forall|k: int, j: int| 0 <= k < i && 0 <= j < rows
                    ==> (#[trigger] d@[k]@[j]).q == q && d@[k]@[j].uint < q,
            decreases cols - i,
        {
            let mut row: Vec<Element> = Vec::new();
            let mut j: usize = 0;
            while j < rows
                invariant
                    q >= 1,
                    j <= rows,
                    row@.len() == j,
                    forall|t: int| 0 <= t < j
                        ==> (#[trigger] row@[t]).q == q && row@[t].uint < q,
                decreases rows - j,
            {
                row.push(Element::gen_uniform_rand(q));
                j += 1;
            }
            d.push(row);
            i += 1;
        }
        Matrix { data: d }
    }

    /// Append an inner vector as a new outer entry.
    pub fn push(&mut self, row: Vec<Element>)
        ensures
            final(self)@ == old(self)@.push(row@),
    {
        self.data.push(row);
        assert(final(self)@ =~= old(self)@.push(row@));
    }

    /// Append a new outer entry, which must match the others in length.
    pub fn append_col(&mut self, col: Vec<Element>)
        requires
            old(self)@.len() == 0 || col@.len() == old(self).spec_rows(),
        ensures
            final(self)@ == old(self)@.push(col@),
    {
        self.data.push(col);
        assert(final(self)@ =~= old(self)@.push(col@));
    }

    /// Overwrite one entry.
    pub(crate) fn set_entry(&mut self, i: usize, j: usize, v: Element)
        requires
            i < old(self)@.len(),
            j < old(self)@[i as int].len(),
        ensures
            final(self)@ == old(self)@.update(
                i as int,
                old(self)@[i as int].update(j as int, v),
            ),
    {
        self.data[i][j] = v;
        assert(final(self)@ =~= old(self)@.update(
            i as int,
            old(self)@[i as int].update(j as int, v),
        ));
    }

    /// Rebind every scalar to the modulus `new_q`, leaving values as
    /// they are.
    pub fn change_q(&mut self, new_q: u64)
        ensures
            final(self)@.len() == old(self)@.len(),
            forall|i: int| 0 <= i < old(self)@.len()
                ==> (#[trigger] final(self)@[i]).len() == old(self)@[i].len(),
            forall|i: int, j: int|
                0 <= i < old(self)@.len() && 0 <= j < old(self)@[i].len()
                    ==> #[trigger] final(self)@[i][j]
                        == (Element { q: new_q, uint: old(self)@[i][j].uint }),
    {
        let ghost orig = self@;
        let mut d: Vec<Vec<Element>> = Vec::new();
        let mut i: usize = 0;
        while i < self.data.len()
            invariant
                self@ == orig,
                i <= orig.len(),
                d@.len() == i,
                forall|k: int| 0 <= k < i ==> (#[trigger] d@[k])@.len() == orig[k].len(),
                forall|k: int, j: int|
                    0 <= k < i && 0 <= j < orig[k].len()
                        ==> #[trigger] d@[k]@[j] == (Element { q: new_q, uint: orig[k][j].uint }),
            decreases orig.len() - i,
        {
            let mut row: Vec<Element> = Vec::new();
            let mut j: usize = 0;
            while j < self.data[i].len()
                invariant
                    self@ == orig,
                    0 <= i < orig.len(),
                    j <= orig[i as int].len(),
                    row@.len() == j,
                    forall|t: int| 0 <= t < j
                        ==> #[trigger] row@[t] == (Element { q: new_q, uint: orig[i as int][t].uint }),
                decreases orig[i as int].len() - j,
            {
                row.push(Element { q: new_q, uint: self.data[i][j].uint });
                j += 1;
            }
            d.push(row);
            i += 1;
        }
        self.data = d;
    }

    /// Total number of scalars held.
    pub fn num_vals(&self) -> (r: usize)
        requires
            self@.len() * self.spec_rows() <= usize::MAX,
        ensures
            r == self@.len() * self.spec_rows(),
    {
        if self.data.len() > 0 {
            return self.data.len() * self.data[0].len();
        }
        0
    }

    /// Length of the inner vectors.
    pub fn num_rows(&self) -> (r: usize)
        requires
            self@.len() > 0,
        ensures
            r == self.spec_rows(),
    {
        self.data[0].len()
    }

    /// Number of outer entries.
    pub fn num_cols(&self) -> (r: usize)
        ensures
            r == self@.len(),
    {
        self.data.len()
    }

    /// The pair `(num_rows, num_cols)`.
    pub fn dimensions(&self) -> (r: (usize, usize))
        requires
            self@.len() > 0,
        ensures
            r.0 == self.spec_rows(),
            r.1 == self@.len(),
    {
        (self.num_rows(), self.num_cols())
    }
}

impl Matrix {
    /// Modulus carried by the first scalar: the modulus of the whole
    /// matrix whenever the matrix is well-formed.
    pub open spec fn spec_q(self) -> u64 {
        self@[0][0].q
    }

    /// The transposed matrix: the two axes swapped.
    pub fn rotated(self) -> (r: Matrix)
        requires
            self@.len() > 0,
            self.rect(),
        ensures
            r@.len() == self.spec_rows(),
            forall|j: int| 0 <= j < self.spec_rows() ==> (#[trigger] r@[j]).len() == self@.len(),
            forall|j: int, i: int|
                0 <= j < self.spec_rows() && 0 <= i < self@.len()
                    ==> #[trigger] r@[j][i] == self@[i][j],
    {
        let rows = self.data[0].len();
        let cols = self.data.len();
        let mut d: Vec<Vec<Element>> = Vec::new();
        let mut j: usize = 0;
        while j < rows
            invariant
                rows == self.spec_rows(),
                cols == self@.len(),
                self@.len() > 0,
                self.rect(),
                j <= rows,
                d@.len() == j,
                forall|t: int| 0 <= t < j ==> (#[trigger] d@[t])@.len() == cols,
                forall|t: int, i: int|
                    0 <= t < j && 0 <= i < cols ==> #[trigger] d@[t]@[i] == self@[i][t],
            decreases rows - j,
        {
            let mut row: Vec<Element> = Vec::new();
            let mut i: usize = 0;
            while i < cols
                invariant
                    rows == self.spec_rows(),
                    cols == self@.len(),
                    self.rect(),
                    0 <= j < rows,
                    i <= cols,
                    row@.len() == i,
                    forall|t: int| 0 <= t < i ==> #[trigger] row@[t] == self@[t][j as int],
                decreases cols - i,
            {
                assert(self@[i as int].len() == rows);
                row.push(self.data[i][j]);
                i += 1;
            }
            d.push(row);
            j += 1;
        }
        Matrix { data: d }
    }

    /// Elementwise modular sum.  Both operands must have the same shape
    /// and matching moduli throughout.
    pub fn add(self, rhs: Matrix) -> (r: Matrix)
        requires
            self@.len() == rhs@.len(),
            forall|i: int| 0 <= i < self@.len() ==> (#[trigger] self@[i]).len() == rhs@[i].len(),
            forall|i: int, j: int|
                0 <= i < self@.len() && 0 <= j < self@[i].len()
                    ==> (#[trigger] self@[i][j]).q == rhs@[i][j].q && self@[i][j].q >= 1,
        ensures
            r@.len() == self@.len(),
            forall|i: int| 0 <= i < self@.len() ==> (#[trigger] r@[i]).len() == self@[i].len(),
            forall|i: int, j: int|
                0 <= i < self@.len() && 0 <= j < self@[i].len()
                    ==> #[trigger] r@[i][j] == (Element {
                        q: self@[i][j].q,
                        uint: add_val(
                            self@[i][j].uint as int,
                            rhs@[i][j].uint as int,
                            self@[i][j].q as int,
                        ) as u64,
                    }),
    {
        let mut d: Vec<Vec<Element>> = Vec::new();
        let mut i: usize = 0;
        while i < self.data.len()
            invariant
                self@.len() == rhs@.len(),
                forall|k: int| 0 <= k < self@.len()
                    ==> (#[trigger] self@[k]).len() == rhs@[k].len(),
                forall|k: int, j: int|
                    0 <= k < self@.len() && 0 <= j < self@[k].len()
                        ==> (#[trigger] self@[k][j]).q == rhs@[k][j].q && self@[k][j].q >= 1,
                i <= self@.len(),
                d@.len() == i,
                forall|k: int| 0 <= k < i ==> (#[trigger] d@[k])@.len() == self@[k].len(),
                forall|k: int, j: int|
                    0 <= k < i && 0 <= j < self@[k].len()
                        ==> #[trigger] d@[k]@[j] == (Element {
                            q: self@[k][j].q,
                            uint: add_val(
                                self@[k][j].uint as int,
                                rhs@[k][j].uint as int,
                                self@[k][j].q as int,
                            ) as u64,
                        }),
            decreases self@.len() - i,
        {
            let mut row: Vec<Element> = Vec::new();
            let mut j: usize = 0;
            while j < self.data[i].len()
                invariant
                    self@.len() == rhs@.len(),
                    0 <= i < self@.len(),
                    self@[i as int].len() == rhs@[i as int].len(),
                    forall|t: int| 0 <= t < self@[i as int].len()
                        ==> (#[trigger] self@[i as int][t]).q == rhs@[i as int][t].q
                            && self@[i as int][t].q >= 1,
                    j <= self@[i as int].len(),
                    row@.len() == j,
                    forall|t: int| 0 <= t < j
                        ==> #[trigger] row@[t] == (Element {
                            q: self@[i as int][t].q,
                            uint: add_val(
                                self@[i as int][t].uint as int,
                                rhs@[i as int][t].uint as int,
                                self@[i as int][t].q as int,
                            ) as u64,
                        }),
                decreases self@[i as int].len() - j,
            {
                row.push(self.data[i][j] + rhs.data[i][j]);
                j += 1;
            }
            d.push(row);
            i += 1;
        }
        Matrix { data: d }
    }

    /// Elementwise modular difference; wraps by adding the modulus.
    pub fn sub(self, rhs: Matrix) -> (r: Matrix)
        requires
            self@.len() == rhs@.len(),
            forall|i: int| 0 <= i < self@.len() ==> (#[trigger] self@[i]).len() == rhs@[i].len(),
            forall|i: int, j: int|
                0 <= i < self@.len() && 0 <= j < self@[i].len()
                    ==> (#[trigger] self@[i][j]).q == rhs@[i][j].q
                        && (self@[i][j].uint < rhs@[i][j].uint
                            ==> rhs@[i][j].uint - self@[i][j].uint <= self@[i][j].q),
        ensures
            r@.len() == self@.len(),
            forall|i: int| 0 <= i < self@.len() ==> (#[trigger] r@[i]).len() == self@[i].len(),
            forall|i: int, j: int|
                0 <= i < self@.len() && 0 <= j < self@[i].len()
                    ==> #[trigger] r@[i][j] == (Element {
                        q: self@[i][j].q,
                        uint: sub_val(
                            self@[i][j].uint as int,
                            rhs@[i][j].uint as int,
                            self@[i][j].q as int,
                        ) as u64,
                    }),
    {
        let mut d: Vec<Vec<Element>> = Vec::new();
        let mut i: usize = 0;
        while i < self.data.len()
            invariant
                self@.len() == rhs@.len(),
                forall|k: int| 0 <= k < self@.len()
                    ==> (#[trigger] self@[k]).len() == rhs@[k].len(),
                forall|k: int, j: int|
                    0 <= k < self@.len() && 0 <= j < self@[k].len()
                        ==> (#[trigger] self@[k][j]).q == rhs@[k][j].q
                            && (self@[k][j].uint < rhs@[k][j].uint
                                ==> rhs@[k][j].uint - self@[k][j].uint <= self@[k][j].q),
                i <= self@.len(),
                d@.len() == i,
                forall|k: int| 0 <= k < i ==> (#[trigger] d@[k])@.len() == self@[k].len(),
                forall|k: int, j: int|
                    0 <= k < i && 0 <= j < self@[k].len()
                        ==> #[trigger] d@[k]@[j] == (Element {
                            q: self@[k][j].q,
                            uint: sub_val(
                                self@[k][j].uint as int,
                                rhs@[k][j].uint as int,
                                self@[k][j].q as int,
                            ) as u64,
                        }),
            decreases self@.len() - i,
        {
            let mut row: Vec<Element> = Vec::new();
            let mut j: usize = 0;
            while j < self.data[i].len()
                invariant
                    self@.len() == rhs@.len(),
                    0 <= i < self@.len(),
                    self@[i as int].len() == rhs@[i as int].len(),
                    forall|t: int| 0 <= t < self@[i as int].len()
                        ==> (#[trigger] self@[i as int][t]).q == rhs@[i as int][t].q
                            && (self@[i as int][t].uint < rhs@[i as int][t].uint
                                ==> rhs@[i as int][t].uint - self@[i as int][t].uint
                                    <= self@[i as int][t].q),
                    j <= self@[i as int].len(),
                    row@.len() == j,
                    forall|t: int| 0 <= t < j
                        ==> #[trigger] row@[t] == (Element {
                            q: self@[i as int][t].q,
                            uint: sub_val(
                                self@[i as int][t].uint as int,
                                rhs@[i as int][t].uint as int,
                                self@[i as int][t].q as int,
                            ) as u64,
                        }),
                decreases self@[i as int].len() - j,
            {
                row.push(self.data[i][j] - rhs.data[i][j]);
                j += 1;
            }
            d.push(row);
            i += 1;
        }
        Matrix { data: d }
    }

    /// Every entry multiplied by the scalar `rhs`, modulo its modulus.
    pub fn mul_elem(self, rhs: &Element) -> (r: Matrix)
        requires
            rhs.q >= 1,
            self.all_q(rhs.q),
        ensures
            r@.len() == self@.len(),
            forall|i: int| 0 <= i < self@.len() ==> (#[trigger] r@[i]).len() == self@[i].len(),
            forall|i: int, j: int|
                0 <= i < self@.len() && 0 <= j < self@[i].len()
                    ==> #[trigger] r@[i][j] == (Element {
                        q: rhs.q,
                        uint: mul_val(self@[i][j].uint as int, rhs.uint as int, rhs.q as int) as u64,
                    }),
    {
        let e = *rhs;
        let mut d: Vec<Vec<Element>> = Vec::new();
        let mut i: usize = 0;
        while i < self.data.len()
            invariant
                e == *rhs,
                e.q >= 1,
                self.all_q(e.q),
                i <= self@.len(),
                d@.len() == i,
                forall|k: int| 0 <= k < i ==> (#[trigger] d@[k])@.len() == self@[k].len(),
                forall|k: int, j: int|
                    0 <= k < i && 0 <= j < self@[k].len()
                        ==> #[trigger] d@[k]@[j] == (Element {
                            q: e.q,
                            uint: mul_val(self@[k][j].uint as int, e.uint as int, e.q as int) as u64,
                        }),
            decreases self@.len() - i,
        {
            let mut row: Vec<Element> = Vec::new();
            let mut j: usize = 0;
            while j < self.data[i].len()
                invariant
                    e == *rhs,
                    e.q >= 1,
                    self.all_q(e.q),
                    0 <= i < self@.len(),
                    j <= self@[i as int].len(),
                    row@.len() == j,
                    forall|t: int| 0 <= t < j
                        ==> #[trigger] row@[t] == (Element {
                            q: e.q,
                            uint: mul_val(
                                self@[i as int][t].uint as int,
                                e.uint as int,
                                e.q as int,
                            ) as u64,
                        }),
                decreases self@[i as int].len() - j,
            {
                row.push(self.data[i][j] * e);
                j += 1;
            }
            d.push(row);
            i += 1;
        }
        Matrix { data: d }
    }

    /// The matrix product: entry `(i, j)` of the result is the modular
    /// dot product of outer entry `i` of `self` with column `j` of `rhs`,
    /// accumulated left to right.
    pub fn mul(self, rhs: Matrix) -> (r: Matrix)
        requires
            self@.len() > 0,
            self.spec_rows() > 0,
            self.rect(),
            rhs.rect(),
            rhs@.len() == self.spec_rows(),
            self.all_q(self.spec_q()),
            rhs.all_q(self.spec_q()),
            self.spec_q() >= 1,
        ensures
            r@.len() == self@.len(),
            forall|i: int| 0 <= i < self@.len() ==> (#[trigger] r@[i]).len() == rhs.spec_rows(),
            forall|i: int, j: int|
                0 <= i < self@.len() && 0 <= j < rhs.spec_rows()
                    ==> (#[trigger] r@[i][j]).q == self.spec_q(),
            forall|i: int, j: int|
                0 <= i < self@.len() && 0 <= j < rhs.spec_rows()
                    ==> (#[trigger] r@[i][j]).uint
                        == dot(vals(self@)[i], col_of(vals(rhs@), j), self.spec_q() as int),
    {
        let q0 = self.data[0][0].q;
        let inner = self.data[0].len();
        let p = rhs.data[0].len();
        let mut d: Vec<Vec<Element>> = Vec::new();
        let mut i: usize = 0;
        while i < self.data.len()
            invariant
                q0 == self.spec_q(),
                inner == self.spec_rows(),
                self@.len() > 0,
                self.spec_rows() > 0,
                self.rect(),
                rhs.rect(),
                rhs@.len() == inner,
                p == rhs.spec_rows(),
                self.all_q(q0),
                rhs.all_q(q0),
                q0 >= 1,
                i <= self@.len(),
                d@.len() == i,
                forall|k: int| 0 <= k < i ==> (#[trigger] d@[k])@.len() == p,
                forall|k: int, j: int|
                    0 <= k < i && 0 <= j < p
                        ==> (#[trigger] d@[k]@[j]).q == q0
                            && d@[k]@[j].uint == dot(vals(self@)[k], col_of(vals(rhs@), j), q0 as int),
            decreases self@.len() - i,
        {
            let mut row: Vec<Element> = Vec::new();
            let mut j: usize = 0;
            while j < p
                invariant
                    q0 == self.spec_q(),
                    inner == self.spec_rows(),
                    self@.len() > 0,
                    self.rect(),
                    rhs.rect(),
                    rhs@.len() == inner,
                    p == rhs.spec_rows(),
                    self.all_q(q0),
                    rhs.all_q(q0),
                    q0 >= 1,
                    0 <= i < self@.len(),
                    j <= p,
                    row@.len() == j,
                    forall|t: int| 0 <= t < j
                        ==> (#[trigger] row@[t]).q == q0
                            && row@[t].uint == dot(vals(self@)[i as int], col_of(vals(rhs@), t), q0 as int),
                decreases p - j,
            {
                let ghost rowv = vals(self@)[i as int];
                let ghost colv = col_of(vals(rhs@), j as int);
                let mut sum = Element::new(q0);
                let mut k: usize = 0;
                assert(rowv.take(0) =~= Seq::<int>::empty());
                assert(colv.take(0) =~= Seq::<int>::empty());
                while k < inner
                    invariant
                        q0 == self.spec_q(),
                        inner == self.spec_rows(),
                        self@.len() > 0,
                        self.rect(),
                        rhs.rect(),
                        rhs@.len() == inner,
                        p == rhs.spec_rows(),
                        self.all_q(q0),
                        rhs.all_q(q0),
                        q0 >= 1,
                        0 <= i < self@.len(),
                        0 <= j < p,
                        k <= inner,
                        rowv == vals(self@)[i as int],
                        colv == col_of(vals(rhs@), j as int),
                        rowv.len() == inner,
                        colv.len() == inner,
                        sum.q == q0,
                        sum.uint == dot(rowv.take(k as int), colv.take(k as int), q0 as int),
                    decreases inner - k,
                {
                    assert(self@[i as int].len() == inner);
                    assert(rhs@[k as int].len() == p);
                    let prod = self.data[i][k] * rhs.data[k][j];
                    sum = sum + prod;
                    proof {
                        crate::linalg::lemma_dot_take_step(rowv, colv, q0 as int, k as int);
                    }
                    k += 1;
                }
                assert(rowv.take(inner as int) =~= rowv);
                assert(colv.take(inner as int) =~= colv);
                row.push(sum);
                j += 1;
            }
            d.push(row);
            i += 1;
        }
        Matrix { data: d }
    }

    /// The product of `self` with `rhs` read as a column vector: a
    /// matrix with one inner entry per outer entry of `self`.
    pub fn mul_vec(self, rhs: &Vec<Element>) -> (r: Matrix)
        requires
            self@.len() > 0,
            self.spec_rows() > 0,
            self.rect(),
            rhs@.len() == self.spec_rows(),
            self.all_q(self.spec_q()),
            forall|k: int| 0 <= k < rhs@.len() ==> (#[trigger] rhs@[k]).q == self.spec_q(),
            self.spec_q() >= 1,
        ensures
            r@.len() == self@.len(),
            forall|i: int| 0 <= i < self@.len() ==> (#[trigger] r@[i]).len() == 1,
            forall|i: int| 0 <= i < self@.len()
                ==> (#[trigger] r@[i][0]).q == self.spec_q()
                    && r@[i][0].uint == dot(vals(self@)[i], row_vals(rhs@), self.spec_q() as int),
    {
        let rhs_matrix = Matrix::from_col(rhs).rotated();
        assert(forall|k: int| 0 <= k < rhs_matrix@.len()
            ==> (#[trigger] rhs_matrix@[k]).len() == 1);
        let r = self.mul(rhs_matrix);
        assert(col_of(vals(rhs_matrix@), 0) =~= row_vals(rhs@));
        r
    }

    /// In-place elementwise sum; same contract as `add`.
    pub fn add_assign(&mut self, rhs: Matrix)
        requires
            old(self)@.len() == rhs@.len(),
            forall|i: int| 0 <= i < old(self)@.len()
                ==> (#[trigger] old(self)@[i]).len() == rhs@[i].len(),
            forall|i: int, j: int|
                0 <= i < old(self)@.len() && 0 <= j < old(self)@[i].len()
                    ==> (#[trigger] old(self)@[i][j]).q == rhs@[i][j].q && old(self)@[i][j].q >= 1,
        ensures
            final(self)@.len() == old(self)@.len(),
            forall|i: int| 0 <= i < old(self)@.len()
                ==> (#[trigger] final(self)@[i]).len() == old(self)@[i].len(),
            forall|i: int, j: int|
                0 <= i < old(self)@.len() && 0 <= j < old(self)@[i].len()
                    ==> #[trigger] final(self)@[i][j] == (Element {
                        q: old(self)@[i][j].q,
                        uint: add_val(
                            old(self)@[i][j].uint as int,
                            rhs@[i][j].uint as int,
                            old(self)@[i][j].q as int,
                        ) as u64,
                    }),
    {
        let tmp = self.clone();
        *self = tmp.add(rhs);
    }

    /// In-place elementwise difference; same contract as `sub`.
    pub fn sub_assign(&mut self, rhs: Matrix)
        requires
            old(self)@.len() == rhs@.len(),
            forall|i: int| 0 <= i < old(self)@.len()
                ==> (#[trigger] old(self)@[i]).len() == rhs@[i].len(),
            forall|i: int, j: int|
                0 <= i < old(self)@.len() && 0 <= j < old(self)@[i].len()
                    ==> (#[trigger] old(self)@[i][j]).q == rhs@[i][j].q
                        && (old(self)@[i][j].uint < rhs@[i][j].uint
                            ==> rhs@[i][j].uint - old(self)@[i][j].uint <= old(self)@[i][j].q),
        ensures
            final(self)@.len() == old(self)@.len(),
            forall|i: int| 0 <= i < old(self)@.len()
                ==> (#[trigger] final(self)@[i]).len() == old(self)@[i].len(),
            forall|i: int, j: int|
                0 <= i < old(self)@.len() && 0 <= j < old(self)@[i].len()
                    ==> #[trigger] final(self)@[i][j] == (Element {
                        q: old(self)@[i][j].q,
                        uint: sub_val(
                            old(self)@[i][j].uint as int,
                            rhs@[i][j].uint as int,
                            old(self)@[i][j].q as int,
                        ) as u64,
                    }),
    {
        let tmp = self.clone();
        *self = tmp.sub(rhs);
    }

    /// In-place matrix product; same contract as `mul`.
    pub fn mul_assign(&mut self, rhs: Matrix)
        requires
            old(self)@.len() > 0,
            old(self).spec_rows() > 0,
            old(self).rect(),
            rhs.rect(),
            rhs@.len() == old(self).spec_rows(),
            old(self).all_q(old(self).spec_q()),
            rhs.all_q(old(self).spec_q()),
            old(self).spec_q() >= 1,
        ensures
            final(self)@.len() == old(self)@.len(),
            forall|i: int| 0 <= i < old(self)@.len()
                ==> (#[trigger] final(self)@[i]).len() == rhs.spec_rows(),
            forall|i: int, j: int|
                0 <= i < old(self)@.len() && 0 <= j < rhs.spec_rows()
                    ==> (#[trigger] final(self)@[i][j]).q == old(self).spec_q(),
            forall|i: int, j: int|
                0 <= i < old(self)@.len() && 0 <= j < rhs.spec_rows()
                    ==> (#[trigger] final(self)@[i][j]).uint
                        == dot(vals(old(self)@)[i], col_of(vals(rhs@), j), old(self).spec_q() as int),
    {
        let tmp = self.clone();
        *self = tmp.mul(rhs);
    }
}

/// Transposition is involutive: when `m1` holds the entries of `m` with
/// the axes swapped, as `rotated` produces them, and `m2` likewise holds
/// the entries of `m1`, then `m2` is `m` itself.
pub proof fn lemma_rotated_involutive(
    m: Seq<Seq<Element>>,
    m1: Seq<Seq<Element>>,
    m2: Seq<Seq<Element>>,
)
    requires
        m.len() > 0,
        m[0].len() > 0,
        forall|i: int| 0 <= i < m.len() ==> (#[trigger] m[i]).len() == m[0].len(),
        m1.len() == m[0].len(),
        forall|j: int| 0 <= j < m1.len() ==> (#[trigger] m1[j]).len() == m.len(),
        forall|j: int, i: int|
            0 <= j < m[0].len() && 0 <= i < m.len() ==> #[trigger] m1[j][i] == m[i][j],
        m2.len() == m1[0].len(),
        forall|i: int| 0 <= i < m2.len() ==> (#[trigger] m2[i]).len() == m1.len(),
        forall|i: int, j: int|
            0 <= i < m1[0].len() && 0 <= j < m1.len() ==> #[trigger] m2[i][j] == m1[j][i],
    ensures
        m2 == m,
{
    assert forall|i: int| 0 <= i < m.len() implies #[trigger] m2[i] =~= m[i] by {
        assert(forall|j: int| 0 <= j < m[0].len() ==> #[trigger] m2[i][j] == m1[j][i]);
    }
    assert(m2 =~= m);
}

impl std::ops::Add for Matrix {
    type Output = Matrix;

    fn add(self, rhs: Matrix) -> (r: Matrix) {
        self.add(rhs)
    }
}

impl vstd::std_specs::ops::AddSpecImpl for Matrix {
    open spec fn obeys_add_spec() -> bool {
        false
    }

    open spec fn add_req(self, rhs: Matrix) -> bool {
        self@.len() == rhs@.len()
            && (forall|i: int| 0 <= i < self@.len() ==> (#[trigger] self@[i]).len() == rhs@[i].len())
            && (forall|i: int, j: int|
                0 <= i < self@.len() && 0 <= j < self@[i].len()
                    ==> (#[trigger] self@[i][j]).q == rhs@[i][j].q && self@[i][j].q >= 1)
    }

    open spec fn add_spec(self, rhs: Matrix) -> Matrix {
        self
    }
}

impl std::ops::Sub for Matrix {
    type Output = Matrix;

    fn sub(self, rhs: Matrix) -> (r: Matrix) {
        self.sub(rhs)
    }
}

impl vstd::std_specs::ops::SubSpecImpl for Matrix {
    open spec fn obeys_sub_spec() -> bool {
        false
    }

    open spec fn sub_req(self, rhs: Matrix) -> bool {
        self@.len() == rhs@.len()
            && (forall|i: int| 0 <= i < self@.len() ==> (#[trigger] self@[i]).len() == rhs@[i].len())
            && (forall|i: int, j: int|
                0 <= i < self@.len() && 0 <= j < self@[i].len()
                    ==> (#[trigger] self@[i][j]).q == rhs@[i][j].q
                        && (self@[i][j].uint < rhs@[i][j].uint
                            ==> rhs@[i][j].uint - self@[i][j].uint <= self@[i][j].q))
    }

    open spec fn sub_spec(self, rhs: Matrix) -> Matrix {
        self
    }
}

impl std::ops::Mul for Matrix {
    type Output = Matrix;

    fn mul(self, rhs: Matrix) -> (r: Matrix) {
        self.mul(rhs)
    }
}

impl vstd::std_specs::ops::MulSpecImpl for Matrix {
    open spec fn obeys_mul_spec() -> bool {
        false
    }

    open spec fn mul_req(self, rhs: Matrix) -> bool {
        self@.len() > 0
            && self.spec_rows() > 0
            && self.rect()
            && rhs.rect()
            && rhs@.len() == self.spec_rows()
            && self.all_q(self.spec_q())
            && rhs.all_q(self.spec_q())
            && self.spec_q() >= 1
    }

    open spec fn mul_spec(self, rhs: Matrix) -> Matrix {
        self
    }
}

/// Copy of an inner vector.
pub(crate) fn copy_row(v: &Vec<Element>) -> (r: Vec<Element>)
    ensures
        r@ == v@,
{
    let mut r: Vec<Element> = Vec::new();
    let mut j: usize = 0;
    while j < v.len()
        invariant
            j <= v@.len(),
            r@ == v@.take(j as int),
        decreases v@.len() - j,
    {
        r.push(v[j]);
        assert(r@ =~= v@.take(j + 1));
        j += 1;
    }
    assert(r@ =~= v@);
    r
}

impl Clone for Matrix {
    /// A copy holding the same entries.
    fn clone(&self) -> (r: Matrix)
        ensures
            r@ == self@,
    {
        let mut d: Vec<Vec<Element>> = Vec::new();
        let mut i: usize = 0;
        while i < self.data.len()
            invariant
                i <= self@.len(),
                d@.len() == i,
                forall|k: int| 0 <= k < i ==> #[trigger] d@[k]@ == self@[k],
            decreases self@.len() - i,
        {
            d.push(copy_row(&self.data[i]));
            i += 1;
        }
        let r = Matrix { data: d };
        assert(r@ =~= self@);
        r
    }
}

impl PartialEq for Matrix {
    /// Equality of shape and of every entry.
    fn eq(&self, other: &Matrix) -> (r: bool) {
        if self.data.len() != other.data.len() {
            assert(self@.len() != other@.len());
            return false;
        }
        let mut i: usize = 0;
        while i < self.data.len()
            invariant
                self@.len() == other@.len(),
                i <= self@.len(),
                forall|k: int| 0 <= k < i ==> #[trigger] self@[k] == other@[k],
            decreases self@.len() - i,
        {
            if self.data[i].len() != other.data[i].len() {
                assert(self@[i as int].len() != other@[i as int].len());
                return false;
            }
            let mut j: usize = 0;
            while j < self.data[i].len()
                invariant
                    self@.len() == other@.len(),
                    0 <= i < self@.len(),
                    self@[i as int].len() == other@[i as int].len(),
                    j <= self@[i as int].len(),
                    forall|t: int| 0 <= t < j ==> #[trigger] self@[i as int][t] == other@[i as int][t],
                decreases self@[i as int].len() - j,
            {
                if self.data[i][j] != other.data[i][j] {
                    assert(self@[i as int][j as int] != other@[i as int][j as int]);
                    return false;
                }
                j += 1;
            }
            assert(self@[i as int] =~= other@[i as int]);
            i += 1;
        }
        assert(self@ =~= other@);
        true
    }
}

impl vstd::std_specs::cmp::PartialEqSpecImpl for Matrix {
    open spec fn obeys_eq_spec() -> bool {
        true
    }

    open spec fn eq_spec(&self, other: &Matrix) -> bool {
        self@ == other@
    }
}

} // verus!
