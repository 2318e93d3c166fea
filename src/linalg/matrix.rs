//! Row-major matrices over an arbitrary element type.
use vstd::prelude::*;
use vstd::std_specs::ops::{AddSpec, MulSpec, NegSpec, SubSpec};
use vstd::string::*;

use crate::complex::notation::texts;

verus! {

/// A `rows` x `cols` matrix whose entries are stored row by row.
pub struct Matrix<T> {
    rows: usize,
    cols: usize,
    data: Vec<T>,
}

impl<T> Matrix<T> {
    /// The entries, row by row.
    pub closed spec fn entries(&self) -> Seq<T> {
        self.data@
    }

    pub closed spec fn spec_rows(&self) -> nat {
        self.rows as nat
    }

    pub closed spec fn spec_cols(&self) -> nat {
        self.cols as nat
    }

    /// The storage holds exactly one entry per (row, column) pair.
    pub open spec fn wf(&self) -> bool {
        &&& self.entries().len() == self.spec_rows() * self.spec_cols()
        &&& self.spec_rows() * self.spec_cols() <= usize::MAX
    }

    /// The entry at row `i`, column `j`.
    pub open spec fn at(&self, i: int, j: int) -> T {
        self.entries()[i * self.spec_cols() + j]
    }

    /// Builds a matrix from its entries given row by row.
    pub fn new(rows: usize, cols: usize, data: Vec<T>) -> (m: Self)
        requires
            data@.len() == rows * cols,
        ensures
            m.wf(),
            m.spec_rows() == rows,
            m.spec_cols() == cols,
            m.entries() == data@,
    {
        // a vector's length is a usize, which bounds the matrix's size
        let _len = data.len();
        Matrix { rows, cols, data }
    }

    /// The entry at row `row`, column `col`.
    pub fn get(&self, row: usize, col: usize) -> (r: &T)
        requires
            self.wf(),
            row < self.spec_rows(),
            col < self.spec_cols(),
        ensures
            *r == self.at(row as int, col as int),
    {
        proof {
            lemma_index_in_bounds(row as int, col as int, self.spec_rows() as int, self.spec_cols() as int);
        }
        &self.data[row * self.cols + col]
    }

    /// Replaces the entry at row `row`, column `col` by `value`.
    pub fn set(&mut self, row: usize, col: usize, value: T)
        requires
            old(self).wf(),
            row < old(self).spec_rows(),
            col < old(self).spec_cols(),
        ensures
            final(self).wf(),
            final(self).spec_rows() == old(self).spec_rows(),
            final(self).spec_cols() == old(self).spec_cols(),
            final(self).entries() == old(self).entries().update(
                row * old(self).spec_cols() + col,
                value,
            ),
    {
        proof {
            lemma_index_in_bounds(row as int, col as int, self.spec_rows() as int, self.spec_cols() as int);
        }
        let k: usize = row * self.cols + col;
        self.data.set(k, value);
    }

    /// The number of rows.
    pub fn rows(&self) -> (r: usize)
        ensures
            r == self.spec_rows(),
    {
        self.rows
    }

    /// The number of columns.
    pub fn cols(&self) -> (r: usize)
        ensures
            r == self.spec_cols(),
    {
        self.cols
    }
}

impl<T: Default> Matrix<T> {
    /// A `rows` x `cols` matrix whose every entry is the element type's default value.
    pub fn zeros(rows: usize, cols: usize) -> (m: Self)
        requires
            rows * cols <= usize::MAX,
        ensures
            m.wf(),
            m.spec_rows() == rows,
            m.spec_cols() == cols,
            forall|k: int| 0 <= k < m.entries().len() ==> call_ensures(T::default, (), #[trigger] m.entries()[k]),
    {
        let n: usize = rows * cols;
        let mut data: Vec<T> = Vec::new();
        let mut k: usize = 0;
        while k < n
            invariant
                k <= n,
                data@.len() == k,
                forall|q: int| 0 <= q < k ==> call_ensures(T::default, (), #[trigger] data@[q]),
            decreases n - k,
        {
            data.push(T::default());
            k += 1;
        }
        Matrix { rows, cols, data }
    }
}

impl<T: Copy + core::ops::Add<Output = T>> Matrix<T> {
    /// The entrywise sum of two matrices of the same shape.
    pub fn add(&self, other: &Matrix<T>) -> (m: Matrix<T>)
        requires
            self.wf(),
            other.wf(),
            self.spec_rows() == other.spec_rows(),
            self.spec_cols() == other.spec_cols(),
            forall|k: int| 0 <= k < self.entries().len() ==>
                #[trigger] self.entries()[k].add_req(other.entries()[k]),
        ensures
            m.wf(),
            m.spec_rows() == self.spec_rows(),
            m.spec_cols() == self.spec_cols(),
            T::obeys_add_spec() ==> forall|k: int| 0 <= k < m.entries().len() ==>
                #[trigger] m.entries()[k] == self.entries()[k].add_spec(other.entries()[k]),
    {
        let mut data: Vec<T> = Vec::new();
        let n = self.data.len();
        let mut k: usize = 0;
        while k < n
            invariant
                k <= n,
                n == self.entries().len(),
                n == other.entries().len(),
                data@.len() == k,
                forall|q: int| 0 <= q < n ==>
                    #[trigger] self.entries()[q].add_req(other.entries()[q]),
                T::obeys_add_spec() ==> forall|q: int| 0 <= q < k ==>
                    #[trigger] data@[q] == self.entries()[q].add_spec(other.entries()[q]),
            decreases n - k,
        {
            data.push(self.data[k] + other.data[k]);
            k += 1;
        }
        Matrix { rows: self.rows, cols: self.cols, data }
    }
}

impl<T: Copy + core::ops::Sub<Output = T>> Matrix<T> {
    /// The entrywise difference of two matrices of the same shape.
    pub fn sub(&self, other: &Matrix<T>) -> (m: Matrix<T>)
        requires
            self.wf(),
            other.wf(),
            self.spec_rows() == other.spec_rows(),
            self.spec_cols() == other.spec_cols(),
            forall|k: int| 0 <= k < self.entries().len() ==>
                #[trigger] self.entries()[k].sub_req(other.entries()[k]),
        ensures
            m.wf(),
            m.spec_rows() == self.spec_rows(),
            m.spec_cols() == self.spec_cols(),
            T::obeys_sub_spec() ==> forall|k: int| 0 <= k < m.entries().len() ==>
                #[trigger] m.entries()[k] == self.entries()[k].sub_spec(other.entries()[k]),
    {
        let mut data: Vec<T> = Vec::new();
        let n = self.data.len();
        let mut k: usize = 0;
        while k < n
            invariant
                k <= n,
                n == self.entries().len(),
                n == other.entries().len(),
                data@.len() == k,
                forall|q: int| 0 <= q < n ==>
                    #[trigger] self.entries()[q].sub_req(other.entries()[q]),
                T::obeys_sub_spec() ==> forall|q: int| 0 <= q < k ==>
                    #[trigger] data@[q] == self.entries()[q].sub_spec(other.entries()[q]),
            decreases n - k,
        {
            data.push(self.data[k] - other.data[k]);
            k += 1;
        }
        Matrix { rows: self.rows, cols: self.cols, data }
    }
}

impl<T: Copy + core::ops::Neg<Output = T>> Matrix<T> {
    /// The matrix of the negated entries.
    pub fn neg(&self) -> (m: Matrix<T>)
        requires
            self.wf(),
            forall|k: int| 0 <= k < self.entries().len() ==> #[trigger] self.entries()[k].neg_req(),
        ensures
            m.wf(),
            m.spec_rows() == self.spec_rows(),
            m.spec_cols() == self.spec_cols(),
            T::obeys_neg_spec() ==> forall|k: int| 0 <= k < m.entries().len() ==>
                #[trigger] m.entries()[k] == self.entries()[k].neg_spec(),
    {
        let mut data: Vec<T> = Vec::new();
        let n = self.data.len();
        let mut k: usize = 0;
        while k < n
            invariant
                k <= n,
                n == self.entries().len(),
                data@.len() == k,
                forall|q: int| 0 <= q < n ==> #[trigger] self.entries()[q].neg_req(),
                T::obeys_neg_spec() ==> forall|q: int| 0 <= q < k ==>
                    #[trigger] data@[q] == self.entries()[q].neg_spec(),
            decreases n - k,
        {
            data.push(core::ops::Neg::neg(self.data[k]));
            k += 1;
        }
        Matrix { rows: self.rows, cols: self.cols, data }
    }
}

/// `z` is a value that the element type's `default` can return.
pub open spec fn is_default<T: Default>(z: T) -> bool {
    call_ensures(T::default, (), z)
}

impl<T: Copy + Default + core::ops::Add<Output = T> + core::ops::Mul<Output = T>> Matrix<T> {
    /// `z` plus the products of row `i` of `self` with column `j` of `other`,
    /// over the first `n` positions, added from left to right.
    pub open spec fn row_col_sum(&self, other: &Matrix<T>, z: T, i: int, j: int, n: nat) -> T
        decreases n,
    {
        if n == 0 {
            z
        } else {
            self.row_col_sum(other, z, i, j, (n - 1) as nat).add_spec(
                self.at(i, n - 1).mul_spec(other.at(n - 1, j)),
            )
        }
    }

    /// `v` is entry (`i`, `j`) of the product of `self` and `other`: the sum
    /// over the shared dimension, started from the element type's default.
    pub open spec fn is_product_entry(&self, other: &Matrix<T>, i: int, j: int, v: T) -> bool {
        exists|z: T| is_default(z) && v == self.row_col_sum(other, z, i, j, self.spec_cols())
    }

    /// `z` plus the products of row `i` of `self` with the entries of `v`,
    /// over the first `n` positions, added from left to right.
    pub open spec fn row_vec_sum(&self, v: Seq<T>, z: T, i: int, n: nat) -> T
        decreases n,
    {
        if n == 0 {
            z
        } else {
            self.row_vec_sum(v, z, i, (n - 1) as nat).add_spec(self.at(i, n - 1).mul_spec(v[n - 1]))
        }
    }

    /// `e` is entry `i` of the product of `self` with the vector `v`.
    pub open spec fn is_vector_product_entry(&self, v: Seq<T>, i: int, e: T) -> bool {
        exists|z: T| is_default(z) && e == self.row_vec_sum(v, z, i, self.spec_cols())
    }

    /// Every step of the product of `self` with the vector `v` is within the
    /// domain of the element operations (as for `product_defined`).
    pub open spec fn vector_product_defined(&self, v: Seq<T>) -> bool {
        ||| forall|a: T, b: T| a.add_req(b) && a.mul_req(b)
        ||| {
            &&& T::obeys_add_spec()
            &&& T::obeys_mul_spec()
            &&& forall|i: int, k: int| 0 <= i < self.spec_rows() && 0 <= k < self.spec_cols()
                ==> #[trigger] self.at(i, k).mul_req(v[k])
            &&& forall|z: T, i: int, k: nat| is_default(z) && 0 <= i < self.spec_rows() && k < self.spec_cols()
                ==> #[trigger] self.row_vec_sum(v, z, i, k).add_req(self.at(i, k as int).mul_spec(v[k as int]))
        }
    }

    /// The product of `self` with the column vector `v`: entry `i` sums
    /// `self[i][k] * v[k]` over `k`, started from the element type's default.
    pub fn mul_vector(&self, v: &Vec<T>) -> (r: Vec<T>)
        requires
            self.wf(),
            v@.len() == self.spec_cols(),
            self.vector_product_defined(v@),
        ensures
            r@.len() == self.spec_rows(),
            T::obeys_add_spec() && T::obeys_mul_spec() ==> forall|i: int| 0 <= i < r@.len() ==>
                self.is_vector_product_entry(v@, i, #[trigger] r@[i]),
    {
        let rows = self.rows;
        let cols = self.cols;
        let mut r: Vec<T> = Vec::new();
        let mut i: usize = 0;
        while i < rows
            invariant
                i <= rows,
                rows == self.spec_rows(),
                cols == self.spec_cols(),
                self.wf(),
                v@.len() == cols,
                self.vector_product_defined(v@),
                r@.len() == i,
                T::obeys_add_spec() && T::obeys_mul_spec() ==> forall|p: int| 0 <= p < i ==>
                    self.is_vector_product_entry(v@, p, #[trigger] r@[p]),
            decreases rows - i,
        {
            let zero = T::default();
            let mut sum = zero;
            let mut k: usize = 0;
            while k < cols
                invariant
                    i < rows,
                    k <= cols,
                    rows == self.spec_rows(),
                    cols == self.spec_cols(),
                    self.wf(),
                    v@.len() == cols,
                    self.vector_product_defined(v@),
                    is_default(zero),
                    T::obeys_add_spec() && T::obeys_mul_spec() ==>
                        sum == self.row_vec_sum(v@, zero, i as int, k as nat),
                decreases cols - k,
            {
                let a = *self.get(i, k);
                let b = v[k];
                let ab = a * b;
                proof {
                    if !(forall|x: T, y: T| x.add_req(y) && x.mul_req(y)) {
                        assert(self.row_vec_sum(v@, zero, i as int, k as nat).add_req(
                            self.at(i as int, k as int).mul_spec(v@[k as int]),
                        ));
                    }
                }
                sum = sum + ab;
                k += 1;
            }
            let ghost before = r@;
            r.push(sum);
            proof {
                if T::obeys_add_spec() && T::obeys_mul_spec() {
                    assert forall|p: int| 0 <= p < i + 1 implies
                        self.is_vector_product_entry(v@, p, #[trigger] r@[p]) by {
                        if p < i {
                            assert(r@[p] == before[p]);
                        } else {
                            assert(r@[p] == self.row_vec_sum(v@, zero, p, cols as nat));
                        }
                    }
                }
            }
            i += 1;
        }
        r
    }

    /// `m` is the product of `self` and `other`.
    pub open spec fn is_product(&self, other: &Matrix<T>, m: &Matrix<T>) -> bool {
        &&& m.wf()
        &&& m.spec_rows() == self.spec_rows()
        &&& m.spec_cols() == other.spec_cols()
        &&& T::obeys_add_spec() && T::obeys_mul_spec() ==> forall|i: int, j: int|
            0 <= i < m.spec_rows() && 0 <= j < m.spec_cols() ==>
                self.is_product_entry(other, i, j, #[trigger] m.at(i, j))
    }

    /// Every step of the product is within the domain of the element
    /// operations: either they are defined on all values, or they follow their
    /// specifications and each product and partial sum is defined.
    pub open spec fn product_defined(&self, other: &Matrix<T>) -> bool {
        ||| forall|a: T, b: T| a.add_req(b) && a.mul_req(b)
        ||| {
            &&& T::obeys_add_spec()
            &&& T::obeys_mul_spec()
            &&& forall|i: int, j: int, k: int|
                0 <= i < self.spec_rows() && 0 <= j < other.spec_cols() && 0 <= k < self.spec_cols()
                    ==> #[trigger] self.at(i, k).mul_req(other.at(k, j))
            &&& forall|z: T, i: int, j: int, k: nat|
                is_default(z) && 0 <= i < self.spec_rows() && 0 <= j < other.spec_cols() && k < self.spec_cols()
                    ==> #[trigger] self.row_col_sum(other, z, i, j, k).add_req(
                        self.at(i, k as int).mul_spec(other.at(k as int, j)),
                    )
        }
    }

    /// The matrix product: entry (`i`, `j`) sums `self[i][k] * other[k][j]` over `k`.
    pub fn mul(&self, other: &Matrix<T>) -> (m: Matrix<T>)
        requires
            self.wf(),
            other.wf(),
            self.spec_cols() == other.spec_rows(),
            self.spec_rows() * other.spec_cols() <= usize::MAX,
            self.product_defined(other),
        ensures
            self.is_product(other, &m),
    {
        let rows = self.rows;
        let cols = other.cols;
        let inner = self.cols;
        let mut data: Vec<T> = Vec::new();
        let mut i: usize = 0;
        while i < rows
            invariant
                i <= rows,
                rows == self.spec_rows(),
                cols == other.spec_cols(),
                inner == self.spec_cols(),
                self.wf(),
                other.wf(),
                inner == other.spec_rows(),
                rows * cols <= usize::MAX,
                self.product_defined(other),
                data@.len() == i * cols,
                T::obeys_add_spec() && T::obeys_mul_spec() ==> forall|p: int, q: int|
                    0 <= p < i && 0 <= q < cols ==>
                        self.is_product_entry(other, p, q, #[trigger] data@[p * cols + q]),
            decreases rows - i,
        {
            let mut j: usize = 0;
            proof {
                assert(i * cols <= (rows - 1) * cols) by (nonlinear_arith)
                    requires i < rows;
                assert((rows - 1) * cols + cols == rows * cols) by (nonlinear_arith);
            }
            while j < cols
                invariant
                    i < rows,
                    j <= cols,
                    rows == self.spec_rows(),
                    cols == other.spec_cols(),
                    inner == self.spec_cols(),
                    self.wf(),
                    other.wf(),
                    inner == other.spec_rows(),
                    i * cols + cols <= rows * cols,
                    rows * cols <= usize::MAX,
                    self.product_defined(other),
                    data@.len() == i * cols + j,
                    T::obeys_add_spec() && T::obeys_mul_spec() ==> forall|p: int, q: int|
                        0 <= p < i && 0 <= q < cols ==>
                            self.is_product_entry(other, p, q, #[trigger] data@[p * cols + q]),
                    T::obeys_add_spec() && T::obeys_mul_spec() ==> forall|q: int|
                        0 <= q < j ==>
                            self.is_product_entry(other, i as int, q, #[trigger] data@[i * cols + q]),
                decreases cols - j,
            {
                let zero = T::default();
                let mut sum = zero;
                let mut k: usize = 0;
                while k < inner
                    invariant
                        i < rows,
                        j < cols,
                        k <= inner,
                        rows == self.spec_rows(),
                        cols == other.spec_cols(),
                        inner == self.spec_cols(),
                        inner == other.spec_rows(),
                        self.wf(),
                        other.wf(),
                        self.product_defined(other),
                        is_default(zero),
                        T::obeys_add_spec() && T::obeys_mul_spec() ==>
                            sum == self.row_col_sum(other, zero, i as int, j as int, k as nat),
                    decreases inner - k,
                {
                    let a = *self.get(i, k);
                    let b = *other.get(k, j);
                    let ab = a * b;
                    proof {
                        if !(forall|x: T, y: T| x.add_req(y) && x.mul_req(y)) {
                            assert(self.row_col_sum(other, zero, i as int, j as int, k as nat).add_req(
                                self.at(i as int, k as int).mul_spec(other.at(k as int, j as int)),
                            ));
                        }
                    }
                    sum = sum + ab;
                    k += 1;
                }
                proof {
                    if T::obeys_add_spec() && T::obeys_mul_spec() {
                        assert(is_default(zero));
                        assert(self.is_product_entry(other, i as int, j as int, sum));
                    }
                }
                let ghost before = data@;
                data.push(sum);
                proof {
                    if T::obeys_add_spec() && T::obeys_mul_spec() {
                        assert forall|p: int, q: int|
                            0 <= p < i && 0 <= q < cols implies
                                self.is_product_entry(other, p, q, #[trigger] data@[p * cols + q]) by {
                            lemma_index_in_bounds(p, q, i as int, cols as int);
                            assert(data@[p * cols + q] == before[p * cols + q]);
                        }
                        assert forall|q: int| 0 <= q < j + 1 implies
                            self.is_product_entry(other, i as int, q, #[trigger] data@[i * cols + q]) by {
                            if q < j {
                                assert(data@[i * cols + q] == before[i * cols + q]);
                            }
                        }
                    }
                }
                j += 1;
            }
            proof {
                assert(i * cols + cols == (i + 1) * cols) by (nonlinear_arith);
            }
            i += 1;
        }
        Matrix { rows, cols, data }
    }
}

impl<T: Copy + Default> Matrix<T> {
    /// `self` is the `n` x `n` matrix with `one` on the diagonal and the
    /// element type's default everywhere else.
    pub open spec fn is_identity(&self, n: nat, one: T) -> bool {
        &&& self.wf()
        &&& self.spec_rows() == n
        &&& self.spec_cols() == n
        &&& forall|i: int| 0 <= i < n ==> #[trigger] self.at(i, i) == one
        &&& forall|i: int, j: int| 0 <= i < n && 0 <= j < n && i != j ==> is_default(#[trigger] self.at(i, j))
    }

    /// The `size` x `size` matrix with `one` on the diagonal and the element
    /// type's default everywhere else.
    pub fn identity(size: usize, one: T) -> (m: Self)
        requires
            size * size <= usize::MAX,
        ensures
            m.is_identity(size as nat, one),
    {
        let mut data: Vec<T> = Vec::new();
        let mut i: usize = 0;
        while i < size
            invariant
                i <= size,
                size * size <= usize::MAX,
                data@.len() == i * size,
                forall|p: int, q: int| 0 <= p < i && 0 <= q < size ==> {
                    let e = #[trigger] data@[p * size + q];
                    if p == q { e == one } else { is_default(e) }
                },
            decreases size - i,
        {
            proof {
                assert(i * size + size == (i + 1) * size) by (nonlinear_arith);
                assert((i + 1) * size <= size * size) by (nonlinear_arith)
                    requires i < size;
            }
            let mut j: usize = 0;
            while j < size
                invariant
                    i < size,
                    j <= size,
                    i * size + size <= size * size,
                    size * size <= usize::MAX,
                    data@.len() == i * size + j,
                    forall|p: int, q: int| 0 <= p < i && 0 <= q < size ==> {
                        let e = #[trigger] data@[p * size + q];
                        if p == q { e == one } else { is_default(e) }
                    },
                    forall|q: int| 0 <= q < j ==> {
                        let e = #[trigger] data@[i * size + q];
                        if i == q { e == one } else { is_default(e) }
                    },
                decreases size - j,
            {
                let ghost before = data@;
                if i == j {
                    data.push(one);
                } else {
                    data.push(T::default());
                }
                proof {
                    assert forall|p: int, q: int| 0 <= p < i && 0 <= q < size implies {
                        let e = #[trigger] data@[p * size + q];
                        if p == q { e == one } else { is_default(e) }
                    } by {
                        lemma_index_in_bounds(p, q, i as int, size as int);
                        assert(data@[p * size + q] == before[p * size + q]);
                    }
                    assert forall|q: int| 0 <= q < j + 1 implies {
                        let e = #[trigger] data@[i * size + q];
                        if i == q { e == one } else { is_default(e) }
                    } by {
                        if q < j {
                            assert(data@[i * size + q] == before[i * size + q]);
                        }
                    }
                }
                j += 1;
            }
            i += 1;
        }
        let m = Matrix { rows: size, cols: size, data };
        proof {
            assert forall|i: int| 0 <= i < size implies #[trigger] m.at(i, i) == one by {
                assert(m.at(i, i) == m.data@[i * size + i]);
            }
            assert forall|i: int, j: int| 0 <= i < size && 0 <= j < size && i != j implies is_default(
                #[trigger] m.at(i, j),
            ) by {
                assert(m.at(i, j) == m.data@[i * size + j]);
            }
        }
        m
    }
}

impl<T: Copy> Matrix<T> {
    /// `m` is the transpose of `self` with every entry passed through `conj`.
    pub open spec fn is_conjugate_transpose<F: Fn(T) -> T>(&self, m: &Matrix<T>, conj: F) -> bool {
        &&& m.wf()
        &&& m.spec_rows() == self.spec_cols()
        &&& m.spec_cols() == self.spec_rows()
        &&& forall|i: int, j: int| 0 <= i < m.spec_rows() && 0 <= j < m.spec_cols() ==>
            call_ensures(conj, (self.at(j, i),), #[trigger] m.at(i, j))
    }

    /// The transpose of `self` with every entry passed through `conj`, the
    /// element type's conjugation: entry (`i`, `j`) of the result is
    /// `conj(self[j][i])`.
    pub fn conjugate_transpose<F: Fn(T) -> T>(&self, conj: F) -> (m: Matrix<T>)
        requires
            self.wf(),
            forall|x: T| call_requires(conj, (x,)),
        ensures
            self.is_conjugate_transpose(&m, conj),
    {
        let rows = self.cols;
        let cols = self.rows;
        let mut data: Vec<T> = Vec::new();
        let mut i: usize = 0;
        while i < rows
            invariant
                i <= rows,
                self.wf(),
                rows == self.spec_cols(),
                cols == self.spec_rows(),
                forall|x: T| call_requires(conj, (x,)),
                data@.len() == i * cols,
                forall|p: int, q: int| 0 <= p < i && 0 <= q < cols ==>
                    call_ensures(conj, (self.at(q, p),), #[trigger] data@[p * cols + q]),
            decreases rows - i,
        {
            proof {
                assert(i * cols + cols == (i + 1) * cols) by (nonlinear_arith);
                assert((i + 1) * cols <= rows * cols) by (nonlinear_arith)
                    requires i < rows;
                assert(rows * cols == cols * rows) by (nonlinear_arith);
            }
            let mut j: usize = 0;
            while j < cols
                invariant
                    i < rows,
                    j <= cols,
                    self.wf(),
                    rows == self.spec_cols(),
                    cols == self.spec_rows(),
                    forall|x: T| call_requires(conj, (x,)),
                    i * cols + cols <= rows * cols,
                    data@.len() == i * cols + j,
                    forall|p: int, q: int| 0 <= p < i && 0 <= q < cols ==>
                        call_ensures(conj, (self.at(q, p),), #[trigger] data@[p * cols + q]),
                    forall|q: int| 0 <= q < j ==>
                        call_ensures(conj, (self.at(q, i as int),), #[trigger] data@[i * cols + q]),
                decreases cols - j,
            {
                let ghost before = data@;
                let e = conj(*self.get(j, i));
                data.push(e);
                proof {
                    assert forall|p: int, q: int| 0 <= p < i && 0 <= q < cols implies
                        call_ensures(conj, (self.at(q, p),), #[trigger] data@[p * cols + q]) by {
                        lemma_index_in_bounds(p, q, i as int, cols as int);
                        assert(data@[p * cols + q] == before[p * cols + q]);
                    }
                    assert forall|q: int| 0 <= q < j + 1 implies
                        call_ensures(conj, (self.at(q, i as int),), #[trigger] data@[i * cols + q]) by {
                        if q < j {
                            assert(data@[i * cols + q] == before[i * cols + q]);
                        }
                    }
                }
                j += 1;
            }
            i += 1;
        }
        proof {
            assert(rows * cols == cols * rows) by (nonlinear_arith);
        }
        Matrix { rows, cols, data }
    }
}

impl<T: Copy + Default + core::ops::Add<Output = T> + core::ops::Mul<Output = T>> Matrix<T> {
    /// `c`, `p` and `id` are the intermediate matrices of the unitarity test
    /// of `self`: its conjugate transpose, the product of `self` with it, and
    /// the identity of the same size.
    pub open spec fn unitary_steps<F: Fn(T) -> T>(
        &self,
        one: T,
        conj: F,
        c: Matrix<T>,
        p: Matrix<T>,
        id: Matrix<T>,
    ) -> bool {
        &&& self.is_conjugate_transpose(&c, conj)
        &&& self.is_product(&c, &p)
        &&& id.is_identity(self.spec_rows(), one)
    }

    /// Whether `self` is unitary: it is square and its product with its
    /// conjugate transpose is, entry by entry, `close` to the identity.
    pub fn is_unitary<F: Fn(T) -> T, G: Fn(T, T) -> bool>(&self, one: T, conj: F, close: G) -> (r: bool)
        requires
            self.wf(),
            forall|x: T| call_requires(conj, (x,)),
            forall|a: T, b: T| call_requires(close, (a, b)),
            forall|c: Matrix<T>| self.is_conjugate_transpose(&c, conj) ==> #[trigger] self.product_defined(&c),
        ensures
            self.spec_rows() != self.spec_cols() ==> !r,
            r ==> exists|c: Matrix<T>, p: Matrix<T>, id: Matrix<T>| {
                &&& #[trigger] self.unitary_steps(one, conj, c, p, id)
                &&& forall|i: int, j: int| 0 <= i < self.spec_rows() && 0 <= j < self.spec_rows()
                    ==> call_ensures(close, (p.at(i, j), id.at(i, j)), true)
            },
            !r && self.spec_rows() == self.spec_cols() ==> exists|c: Matrix<T>, p: Matrix<T>, id: Matrix<T>| {
                &&& #[trigger] self.unitary_steps(one, conj, c, p, id)
                &&& exists|i: int, j: int| 0 <= i < self.spec_rows() && 0 <= j < self.spec_rows()
                    && call_ensures(close, (p.at(i, j), id.at(i, j)), false)
            },
    {
        if self.rows != self.cols {
            return false;
        }
        let size = self.rows;
        let id = Matrix::identity(size, one);
        let c = self.conjugate_transpose(conj);
        let p = self.mul(&c);
        let mut i: usize = 0;
        while i < size
            invariant
                i <= size,
                size == self.spec_rows(),
                p.wf(),
                p.spec_rows() == size,
                p.spec_cols() == size,
                self.unitary_steps(one, conj, c, p, id),
                forall|a: T, b: T| call_requires(close, (a, b)),
                forall|a: int, b: int| 0 <= a < i && 0 <= b < size
                    ==> call_ensures(close, (#[trigger] p.at(a, b), id.at(a, b)), true),
            decreases size - i,
        {
            let mut j: usize = 0;
            while j < size
                invariant
                    i < size,
                    j <= size,
                    size == self.spec_rows(),
                    p.wf(),
                    p.spec_rows() == size,
                    p.spec_cols() == size,
                    self.unitary_steps(one, conj, c, p, id),
                    forall|a: T, b: T| call_requires(close, (a, b)),
                    forall|a: int, b: int| 0 <= a < i && 0 <= b < size
                        ==> call_ensures(close, (#[trigger] p.at(a, b), id.at(a, b)), true),
                    forall|b: int| 0 <= b < j ==> call_ensures(close, (#[trigger] p.at(i as int, b), id.at(i as int, b)), true),
                decreases size - j,
            {
                let near = close(*p.get(i, j), *id.get(i, j));
                if !near {
                    return false;
                }
                j += 1;
            }
            i += 1;
        }
        true
    }
}

/// Row `i`, column `j` of a `rows` x `cols` matrix lies within its storage,
/// and distinct positions occupy distinct slots.
pub proof fn lemma_index_in_bounds(i: int, j: int, rows: int, cols: int)
    requires
        0 <= i < rows,
        0 <= j < cols,
    ensures
        0 <= i * cols + j < rows * cols,
        i * cols <= (rows - 1) * cols,
{
    assert(i * cols <= (rows - 1) * cols) by (nonlinear_arith)
        requires 0 <= i <= rows - 1, 0 <= cols;
    assert((rows - 1) * cols + cols == rows * cols) by (nonlinear_arith);
    assert(0 <= i * cols) by (nonlinear_arith) requires 0 <= i, 0 <= cols;
}

/// Two well-formed matrices of one shape that agree at every position hold
/// the same entries.
pub proof fn lemma_same_entries<T>(a: Matrix<T>, b: Matrix<T>)
    requires
        a.wf(),
        b.wf(),
        a.spec_rows() == b.spec_rows(),
        a.spec_cols() == b.spec_cols(),
        forall|i: int, j: int| 0 <= i < a.spec_rows() && 0 <= j < a.spec_cols() ==> #[trigger] a.at(i, j) == b.at(i, j),
    ensures
        a.entries() == b.entries(),
{
    let c = a.spec_cols() as int;
    let r = a.spec_rows() as int;
    assert forall|k: int| 0 <= k < a.entries().len() implies a.entries()[k] == b.entries()[k] by {
        let i = k / c;
        let j = k % c;
        assert(c > 0) by (nonlinear_arith)
            requires 0 <= k < r * c, r >= 0;
        assert(k == i * c + j && 0 <= j < c) by (nonlinear_arith)
            requires c > 0, i == k / c, j == k % c;
        assert(0 <= i < r) by (nonlinear_arith)
            requires k == i * c + j, 0 <= j < c, 0 <= k < r * c;
        assert(a.at(i, j) == b.at(i, j));
    }
    assert(a.entries() =~= b.entries());
}

/// Taking the conjugate transpose twice gives the matrix back, whenever the
/// conjugation undoes itself.
pub proof fn lemma_conjugate_transpose_twice<T: Copy, F: Fn(T) -> T>(m: Matrix<T>, c: Matrix<T>, cc: Matrix<T>, conj: F)
    requires
        m.wf(),
        m.is_conjugate_transpose(&c, conj),
        c.is_conjugate_transpose(&cc, conj),
        forall|x: T, y: T, z: T| call_ensures(conj, (x,), y) && call_ensures(conj, (y,), z) ==> z == x,
    ensures
        cc.spec_rows() == m.spec_rows(),
        cc.spec_cols() == m.spec_cols(),
        cc.entries() == m.entries(),
{
    assert forall|i: int, j: int| 0 <= i < cc.spec_rows() && 0 <= j < cc.spec_cols() implies #[trigger] cc.at(i, j)
        == m.at(i, j) by {
        assert(call_ensures(conj, (m.at(i, j),), c.at(j, i)));
        assert(call_ensures(conj, (c.at(j, i),), cc.at(i, j)));
    }
    lemma_same_entries(cc, m);
}

/// Along row `i` of the identity, the partial sums of a product stay at the
/// starting value up to the diagonal, and are the entry of `m` after it.
proof fn lemma_identity_row_sum<T: Copy + Default + core::ops::Add<Output = T> + core::ops::Mul<Output = T>>(
    id: Matrix<T>,
    m: Matrix<T>,
    one: T,
    z: T,
    i: int,
    j: int,
    n: nat,
)
    requires
        id.is_identity(m.spec_rows(), one),
        m.wf(),
        0 <= i < m.spec_rows(),
        0 <= j < m.spec_cols(),
        n <= m.spec_rows(),
        is_default(z),
        forall|x: T| #[trigger] one.mul_spec(x) == x,
        forall|d: T, x: T, y: T| is_default(d) ==> #[trigger] y.add_spec(d.mul_spec(x)) == y,
        forall|d: T, x: T| is_default(d) ==> #[trigger] d.add_spec(x) == x,
    ensures
        id.row_col_sum(&m, z, i, j, n) == if n <= i { z } else { m.at(i, j) },
    decreases n,
{
    if n > 0 {
        lemma_identity_row_sum(id, m, one, z, i, j, (n - 1) as nat);
        let k = n - 1;
        if k != i {
            assert(is_default(id.at(i, k)));
        }
    }
}

/// The identity times any matrix of matching size is that matrix, for
/// elements where `one` is neutral for multiplication, the default neutral for
/// addition, and a product with the default adds nothing.
pub proof fn lemma_identity_mul<T: Copy + Default + core::ops::Add<Output = T> + core::ops::Mul<Output = T>>(
    id: Matrix<T>,
    m: Matrix<T>,
    p: Matrix<T>,
    one: T,
)
    requires
        m.wf(),
        id.is_identity(m.spec_rows(), one),
        id.is_product(&m, &p),
        T::obeys_add_spec(),
        T::obeys_mul_spec(),
        forall|x: T| #[trigger] one.mul_spec(x) == x,
        forall|d: T, x: T, y: T| is_default(d) ==> #[trigger] y.add_spec(d.mul_spec(x)) == y,
        forall|d: T, x: T| is_default(d) ==> #[trigger] d.add_spec(x) == x,
    ensures
        p.spec_rows() == m.spec_rows(),
        p.spec_cols() == m.spec_cols(),
        p.entries() == m.entries(),
{
    assert forall|i: int, j: int| 0 <= i < p.spec_rows() && 0 <= j < p.spec_cols() implies #[trigger] p.at(i, j)
        == m.at(i, j) by {
        assert(id.is_product_entry(&m, i, j, p.at(i, j)));
        let z = choose|z: T| is_default(z) && p.at(i, j) == id.row_col_sum(&m, z, i, j, id.spec_cols());
        lemma_identity_row_sum(id, m, one, z, i, j, m.spec_rows());
    }
    lemma_same_entries(p, m);
}

/// The decimal digit `d`.
pub open spec fn digit_char(d: nat) -> char {
    seq!['0', '1', '2', '3', '4', '5', '6', '7', '8', '9'][d as int]
}

/// The decimal notation of `n`, without leading zeros.
pub open spec fn decimal(n: nat) -> Seq<char>
    decreases n,
{
    if n < 10 {
        seq![digit_char(n)]
    } else {
        decimal(n / 10).push(digit_char(n % 10))
    }
}

/// The text of the digit `d`.
fn digit_text(d: usize) -> (r: &'static str)
    requires
        d < 10,
    ensures
        r@ == seq![digit_char(d as nat)],
{
    proof {
        reveal_strlit("0");
        reveal_strlit("1");
        reveal_strlit("2");
        reveal_strlit("3");
        reveal_strlit("4");
        reveal_strlit("5");
        reveal_strlit("6");
        reveal_strlit("7");
        reveal_strlit("8");
        reveal_strlit("9");
    }
    let r = if d == 0 {
        "0"
    } else if d == 1 {
        "1"
    } else if d == 2 {
        "2"
    } else if d == 3 {
        "3"
    } else if d == 4 {
        "4"
    } else if d == 5 {
        "5"
    } else if d == 6 {
        "6"
    } else if d == 7 {
        "7"
    } else if d == 8 {
        "8"
    } else {
        "9"
    };
    assert(r@ =~= seq![digit_char(d as nat)]);
    r
}

/// The decimal notation of `n`.
pub fn decimal_text(n: usize) -> (r: String)
    ensures
        r@ == decimal(n as nat),
    decreases n,
{
    if n < 10 {
        digit_text(n).to_owned()
    } else {
        let mut r = decimal_text(n / 10);
        r.append(digit_text(n % 10));
        r
    }
}

/// One row of the layout: every cell followed by a space, then a line break.
pub open spec fn row_line(cells: Seq<Seq<char>>) -> Seq<char>
    decreases cells.len(),
{
    if cells.len() == 0 {
        seq!['\n']
    } else {
        cells[0] + seq![' '] + row_line(cells.drop_first())
    }
}

/// The rows of the layout, `cols` cells each, from the first `n` rows.
pub open spec fn row_lines(cells: Seq<Seq<char>>, cols: nat, n: nat) -> Seq<char>
    decreases n,
{
    if n == 0 {
        Seq::empty()
    } else {
        row_lines(cells, cols, (n - 1) as nat) + row_line(
            cells.subrange(((n - 1) * cols) as int, (n * cols) as int),
        )
    }
}

/// The layout of a `rows` x `cols` matrix whose entries read `cells`, row by
/// row: a line `Matrix(<rows>x<cols>)`, then one line per row.
pub open spec fn layout_of(rows: nat, cols: nat, cells: Seq<Seq<char>>) -> Seq<char> {
    seq!['M', 'a', 't', 'r', 'i', 'x', '('] + decimal(rows) + seq!['x'] + decimal(cols) + seq![')', '\n']
        + row_lines(cells, cols, rows)
}

impl<T> Matrix<T> {
    /// The text of the matrix, given the text of each entry row by row: its
    /// size on the first line, then each row on a line of its own, every entry
    /// followed by a space.
    pub fn layout(&self, cells: &Vec<String>) -> (r: String)
        requires
            self.wf(),
            cells@.len() == self.entries().len(),
        ensures
            r@ == layout_of(self.spec_rows(), self.spec_cols(), texts(cells@)),
    {
        let ghost cs = texts(cells@);
        let mut out = String::new();
        out.append("Matrix(");
        let rows_text = decimal_text(self.rows);
        out.append(rows_text.as_str());
        out.append("x");
        let cols_text = decimal_text(self.cols);
        out.append(cols_text.as_str());
        out.append(")\n");
        proof {
            reveal_strlit("Matrix(");
            reveal_strlit("x");
            reveal_strlit(")\n");
            assert(out@ =~= seq!['M', 'a', 't', 'r', 'i', 'x', '('] + decimal(self.spec_rows()) + seq!['x']
                + decimal(self.spec_cols()) + seq![')', '\n']);
        }
        let ghost header = out@;
        let total = cells.len();
        let rows = self.rows;
        let cols = self.cols;
        let mut i: usize = 0;
        while i < rows
            invariant
                i <= rows,
                rows == self.spec_rows(),
                cols == self.spec_cols(),
                cells@.len() == rows * cols,
                total == rows * cols,
                cs == texts(cells@),
                out@ == header + row_lines(cs, cols as nat, i as nat),
            decreases rows - i,
        {
            proof {
                assert(i * cols + cols == (i + 1) * cols) by (nonlinear_arith);
                assert((i + 1) * cols <= rows * cols) by (nonlinear_arith)
                    requires i < rows;
            }
            let ghost line_start = out@;
            let mut j: usize = 0;
            while j < cols
                invariant
                    i < rows,
                    j <= cols,
                    rows == self.spec_rows(),
                    cols == self.spec_cols(),
                    cells@.len() == rows * cols,
                    total == rows * cols,
                    (i + 1) * cols <= rows * cols,
                    i * cols + cols == (i + 1) * cols,
                    cs == texts(cells@),
                    row_line(cs.subrange(i * cols, (i + 1) * cols)) == out@.subrange(line_start.len() as int, out@.len() as int)
                        + row_line(cs.subrange(i * cols + j, (i + 1) * cols)),
                    line_start.len() <= out@.len(),
                    out@.subrange(0, line_start.len() as int) == line_start,
                decreases cols - j,
            {
                let k: usize = i * cols + j;
                let ghost before = out@;
                out.append(cells[k].as_str());
                out.append(" ");
                proof {
                    reveal_strlit(" ");
                    let rest = cs.subrange(k as int, (i + 1) * cols);
                    assert(rest[0] == cells@[k as int]@);
                    assert(rest.drop_first() =~= cs.subrange(k + 1, (i + 1) * cols));
                    assert(out@.subrange(line_start.len() as int, out@.len() as int) =~= before.subrange(
                        line_start.len() as int,
                        before.len() as int,
                    ) + cells@[k as int]@ + seq![' ']);
                    assert(out@.subrange(0, line_start.len() as int) =~= before.subrange(0, line_start.len() as int));
                }
                j += 1;
            }
            out.append("\n");
            proof {
                reveal_strlit("\n");
                assert(cs.subrange(i * cols + cols, (i + 1) * cols).len() == 0);
                assert(out@ =~= line_start + row_line(cs.subrange(i * cols, (i + 1) * cols)));
            }
            i += 1;
        }
        out
    }
}

} // verus!
