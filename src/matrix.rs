use vstd::prelude::*;
use crate::error::QecError;
use crate::kernel::{
    in_row_space, lemma_common_hits, is_echelon_form_of, is_reduced_echelon, lemma_clear_keeps_kernel, lemma_null_vector_orthogonal,
    lemma_zero_row_orthogonal, null_vector, orthogonal_to_all,
};
use crate::vector::{
    bits_of, dot_bits, lemma_common_symmetric, lemma_common_xor, ones_below, strictly_increasing, valid_positions, xor_bits,
    zero_bits, BinaryVector,
};

verus! {

/// Column `c` of a matrix given by its rows.
pub open spec fn column(m: Seq<Seq<bool>>, c: int) -> Seq<bool> {
    Seq::new(m.len(), |i: int| m[i][c])
}

/// Row `i` of a matrix with `ncols` columns, or zeros past its last row.
pub open spec fn padded_row(m: Seq<Seq<bool>>, ncols: nat, i: int) -> Seq<bool> {
    if 0 <= i < m.len() {
        m[i]
    } else {
        zero_bits(ncols)
    }
}

/// The bits of each vector of `rows`.
pub open spec fn views_of(rows: Seq<BinaryVector>) -> Seq<Seq<bool>> {
    Seq::new(rows.len(), |i: int| rows[i]@)
}

/// Every vector of `rows` is well formed with `n` elements.
pub open spec fn rows_wf(rows: Seq<BinaryVector>, n: nat) -> bool {
    forall|t: int| #![trigger rows[t]] 0 <= t < rows.len() ==> rows[t].wf() && rows[t]@.len() == n
}

/// Adds `pivot` to each row that has a one in column `col`.
fn clear_column(rows: &Vec<BinaryVector>, pivot: &BinaryVector, col: usize) -> (out: Vec<BinaryVector>)
    requires
        pivot.wf(),
        col < pivot@.len(),
        rows_wf(rows@, pivot@.len()),
    ensures
        out@.len() == rows@.len(),
        rows_wf(out@, pivot@.len()),
        forall|t: int|
            #![trigger out@[t]]
            0 <= t < rows@.len() ==> out@[t]@ == if rows@[t]@[col as int] {
                xor_bits(rows@[t]@, pivot@)
            } else {
                rows@[t]@
            },
{
    let mut out: Vec<BinaryVector> = Vec::new();
    let mut t: usize = 0;
    while t < rows.len()
        invariant
            pivot.wf(),
            col < pivot@.len(),
            rows_wf(rows@, pivot@.len()),
            t <= rows@.len(),
            out@.len() == t,
            rows_wf(out@, pivot@.len()),
            forall|k: int|
                #![trigger out@[k]]
                0 <= k < t ==> out@[k]@ == if rows@[k]@[col as int] {
                    xor_bits(rows@[k]@, pivot@)
                } else {
                    rows@[k]@
                },
        decreases rows@.len() - t,
    {
        let row = &rows[t];
        if row.has_position(col) {
            out.push(row.xor(pivot));
        } else {
            out.push(row.clone());
        }
        t = t + 1;
    }
    out
}

/// The kernel vector of the reduced echelon form `piv` attached to the
/// non-leading column `f`.
fn null_bits(piv: &Vec<BinaryVector>, cols: &Vec<usize>, f: usize, n: usize) -> (bits: Vec<bool>)
    requires
        rows_wf(piv@, n as nat),
        is_reduced_echelon(views_of(piv@), cols@, n as nat),
        f < n,
        !cols@.contains(f),
    ensures
        bits@ == null_vector(views_of(piv@), cols@, f as int, n as nat),
{
    let ghost e = views_of(piv@);
    let mut bits: Vec<bool> = Vec::new();
    let mut t: usize = 0;
    while t < n
        invariant
            t <= n,
            bits@ =~= Seq::new(t as nat, |u: int| u == f),
        decreases n - t,
    {
        bits.push(t == f);
        t = t + 1;
    }
    let mut i: usize = 0;
    while i < cols.len()
        invariant
            rows_wf(piv@, n as nat),
            is_reduced_echelon(e, cols@, n as nat),
            e == views_of(piv@),
            f < n,
            !cols@.contains(f),
            i <= cols@.len(),
            bits@.len() == n,
            forall|u: int|
                0 <= u < n ==> #[trigger] bits@[u] == (u == f || exists|j: int| 0 <= j < i && cols@[j] == u && e[j][f as int]),
        decreases cols@.len() - i,
    {
        let c = cols[i];
        assert(e[i as int].len() == n);
        let b = piv[i].has_position(f);
        assert(b == e[i as int][f as int]);
        assert(c != f) by {
            assert(cols@[i as int] == c);
        }
        let ghost before = bits@;
        bits.set(c, b);
        assert forall|u: int|
            0 <= u < n implies #[trigger] bits@[u] == (u == f || exists|j: int| 0 <= j < i + 1 && cols@[j] == u && e[j][f as int]) by {
            if u == c {
                if exists|j: int| 0 <= j < i && cols@[j] == u && e[j][f as int] {
                    let j = choose|j: int| 0 <= j < i && cols@[j] == u && e[j][f as int];
                    assert(cols@[j] < cols@[i as int]);
                }
                if b {
                    assert(cols@[i as int] == u && e[i as int][f as int]);
                }
            } else {
                assert(bits@[u] == before[u]);
                if exists|j: int| 0 <= j < i + 1 && cols@[j] == u && e[j][f as int] {
                    let j = choose|j: int| 0 <= j < i + 1 && cols@[j] == u && e[j][f as int];
                    assert(j != i);
                }
            }
        }
        i = i + 1;
    }
    assert(bits@ =~= null_vector(e, cols@, f as int, n as nat));
    bits
}

/// The number of ones in the first `k` rows of `m`.
pub open spec fn ones_in_rows(m: Seq<Seq<bool>>, k: int) -> nat
    decreases k,
{
    if k <= 0 {
        0
    } else {
        ones_in_rows(m, k - 1) + ones_below(m[k - 1], m[k - 1].len() as int)
    }
}

/// A row of `n` bits has at most `n` ones.
proof fn lemma_ones_at_most(bits: Seq<bool>, n: int)
    requires
        0 <= n,
    ensures
        ones_below(bits, n) <= n,
    decreases n,
{
    if n > 0 {
        lemma_ones_at_most(bits, n - 1);
    }
}

/// `k` rows of `c` bits have at most `k * c` ones.
proof fn lemma_ones_in_rows_at_most(m: Seq<Seq<bool>>, k: int, c: nat)
    requires
        0 <= k <= m.len(),
        forall|i: int| 0 <= i < m.len() ==> (#[trigger] m[i]).len() == c,
    ensures
        ones_in_rows(m, k) <= k * c,
    decreases k,
{
    if k > 0 {
        lemma_ones_in_rows_at_most(m, k - 1, c);
        lemma_ones_at_most(m[k - 1], c as int);
        assert((k - 1) * c + c == k * c) by (nonlinear_arith);
    }
}

/// The count over a prefix of the rows is at most the count over all of them.
proof fn lemma_ones_in_rows_prefix(m: Seq<Seq<bool>>, k: int, all: int)
    requires
        0 <= k <= all,
    ensures
        ones_in_rows(m, k) <= ones_in_rows(m, all),
    decreases all - k,
{
    if k < all {
        lemma_ones_in_rows_prefix(m, k, all - 1);
    }
}

/// Row `j` has a one at column `units[j]`, where every other row has a zero.
pub open spec fn has_unit_columns(rows: Seq<Seq<bool>>, units: Seq<int>) -> bool {
    &&& units.len() == rows.len()
    &&& forall|j: int|
        0 <= j < units.len() ==> 0 <= #[trigger] units[j] < rows[j].len() && rows[j][units[j]] && forall|k: int|
            0 <= k < rows.len() && k != j ==> !rows[k][units[j]]
}

/// A binary matrix stored as a sequence of sparse rows.
#[derive(Debug, Hash)]
pub struct BinaryMatrix {
    num_columns: usize,
    rows: Vec<BinaryVector>,
}

impl View for BinaryMatrix {
    type V = Seq<Seq<bool>>;

    open spec fn view(&self) -> Seq<Seq<bool>> {
        views_of(self.row_vecs())
    }
}

impl BinaryMatrix {
    /// The number of columns.
    pub closed spec fn ncols(&self) -> nat {
        self.num_columns as nat
    }

    /// The stored rows.
    pub closed spec fn row_vecs(&self) -> Seq<BinaryVector> {
        self.rows@
    }

    /// The number of rows.
    pub open spec fn nrows(&self) -> nat {
        self.row_vecs().len()
    }

    /// Every row is a well-formed vector with one element per column.
    pub open spec fn wf(&self) -> bool {
        &&& self.ncols() <= usize::MAX
        &&& forall|i: int| #![trigger self.row_vecs()[i]] 0 <= i < self.nrows() ==> self.row_vecs()[i].wf() && self.row_vecs()[i]@.len() == self.ncols()
    }

    /// The matrix with the given well-formed rows.
    pub fn from_vectors(num_columns: usize, rows: Vec<BinaryVector>) -> (r: Self)
        requires
            forall|i: int| #![trigger rows@[i]] 0 <= i < rows@.len() ==> rows@[i].wf() && rows@[i]@.len() == num_columns,
        ensures
            r.wf(),
            r.ncols() == num_columns,
            r.row_vecs() == rows@,
    {
        BinaryMatrix { num_columns, rows }
    }

    /// The matrix with `num_columns` columns whose row `i` has ones at the
    /// positions `rows[i]`.
    pub fn new(num_columns: usize, rows: Vec<Vec<usize>>) -> (r: Result<Self, QecError>)
        ensures
            (forall|i: int| 0 <= i < rows@.len() ==> valid_positions(num_columns as nat, #[trigger] rows@[i]@))
                ==> (r matches Ok(m) && m.wf() && m.ncols() == num_columns
                    && m@ == Seq::new(rows@.len(), |i: int| bits_of(num_columns as nat, rows@[i]@))),
            !(forall|i: int| 0 <= i < rows@.len() ==> valid_positions(num_columns as nat, #[trigger] rows@[i]@))
                ==> r == Err::<Self, QecError>(QecError::InvalidConstruction),
    {
        let mut out: Vec<BinaryVector> = Vec::new();
        let mut i: usize = 0;
        while i < rows.len()
            invariant
                i <= rows@.len(),
                out@.len() == i,
                forall|k: int| 0 <= k < i ==> valid_positions(num_columns as nat, #[trigger] rows@[k]@),
                forall|k: int| #![trigger out@[k]] 0 <= k < i ==> out@[k].wf() && out@[k]@ == bits_of(num_columns as nat, rows@[k]@),
            decreases rows@.len() - i,
        {
            let positions = rows[i].clone();
            assert(positions@ =~= rows@[i as int]@);
            match BinaryVector::new(num_columns, positions) {
                Ok(v) => {
                    out.push(v);
                },
                Err(e) => {
                    return Err(e);
                },
            }
            i = i + 1;
        }
        let m = BinaryMatrix { num_columns, rows: out };
        assert(m@ =~= Seq::new(rows@.len(), |i: int| bits_of(num_columns as nat, rows@[i]@)));
        Ok(m)
    }

    /// The `length` by `length` identity matrix.
    pub fn identity(length: usize) -> (r: Self)
        ensures
            r.wf(),
            r.ncols() == length,
            r.nrows() == length,
            forall|i: int, j: int| 0 <= i < length && 0 <= j < length ==> r@[i][j] == (i == j),
    {
        let mut out: Vec<BinaryVector> = Vec::new();
        let mut i: usize = 0;
        while i < length
            invariant
                i <= length,
                out@.len() == i,
                forall|k: int| #![trigger out@[k]] 0 <= k < i ==> out@[k].wf() && out@[k]@.len() == length
                    && forall|j: int| 0 <= j < length ==> out@[k]@[j] == (k == j),
            decreases length - i,
        {
            let v = BinaryVector::from_sorted(length, vec![i]);
            assert forall|j: int| 0 <= j < length implies v@[j] == (i == j) by {
                if j == i {
                    assert(seq![i][0] == i);
                }
                if seq![i].contains(j as usize) {
                    let t = choose|t: int| 0 <= t < 1 && seq![i][t] == j as usize;
                }
            }
            out.push(v);
            i = i + 1;
        }
        BinaryMatrix { num_columns: length, rows: out }
    }

    /// The `num_rows` by `num_columns` matrix of zeros.
    pub fn zeros(num_rows: usize, num_columns: usize) -> (r: Self)
        ensures
            r.wf(),
            r.ncols() == num_columns,
            r.nrows() == num_rows,
            r@ == Seq::new(num_rows as nat, |i: int| zero_bits(num_columns as nat)),
    {
        let mut out: Vec<BinaryVector> = Vec::new();
        let mut i: usize = 0;
        while i < num_rows
            invariant
                i <= num_rows,
                out@.len() == i,
                forall|k: int| #![trigger out@[k]] 0 <= k < i ==> out@[k].wf() && out@[k]@ == zero_bits(num_columns as nat),
            decreases num_rows - i,
        {
            out.push(BinaryVector::zeros(num_columns));
            i = i + 1;
        }
        let r = BinaryMatrix { num_columns, rows: out };
        assert(r@ =~= Seq::new(num_rows as nat, |i: int| zero_bits(num_columns as nat)));
        r
    }

    /// The matrix with no rows and no columns.
    pub fn empty() -> (r: Self)
        ensures
            r.wf(),
            r.ncols() == 0,
            r.nrows() == 0,
    {
        Self::zeros(0, 0)
    }

    /// The number of columns.
    pub fn num_columns(&self) -> (r: usize)
        ensures
            r == self.ncols(),
    {
        self.num_columns
    }

    /// The number of rows.
    pub fn num_rows(&self) -> (r: usize)
        ensures
            r == self.nrows(),
    {
        self.rows.len()
    }

    /// The numbers of rows and of columns.
    pub fn shape(&self) -> (r: (usize, usize))
        ensures
            r == (self.nrows() as usize, self.ncols() as usize),
    {
        (self.rows.len(), self.num_columns)
    }

    /// The number of ones.
    pub fn num_ones(&self) -> (r: usize)
        requires
            self.wf(),
            ones_in_rows(self@, self.nrows() as int) <= usize::MAX,
        ensures
            r == ones_in_rows(self@, self.nrows() as int),
    {
        let mut total: usize = 0;
        let mut i: usize = 0;
        while i < self.rows.len()
            invariant
                self.wf(),
                ones_in_rows(self@, self.nrows() as int) <= usize::MAX,
                i <= self.nrows(),
                total == ones_in_rows(self@, i as int),
            decreases self.nrows() - i,
        {
            proof {
                lemma_ones_in_rows_prefix(self@, i as int + 1, self.nrows() as int);
            }
            assert(self@[i as int] == self.row_vecs()[i as int]@);
            total = total + self.rows[i].weight();
            i = i + 1;
        }
        total
    }

    /// The number of zeros.
    pub fn num_zeros(&self) -> (r: usize)
        requires
            self.wf(),
            self.nrows() * self.ncols() <= usize::MAX,
        ensures
            r == self.nrows() * self.ncols() - ones_in_rows(self@, self.nrows() as int),
    {
        proof {
            lemma_ones_in_rows_at_most(self@, self.nrows() as int, self.ncols());
        }
        let ones = self.num_ones();
        self.rows.len() * self.num_columns - ones
    }

    /// Whether the matrix has no rows and no columns.
    pub fn is_empty(&self) -> (r: bool)
        ensures
            r == (self.nrows() == 0 && self.ncols() == 0),
    {
        self.rows.len() == 0 && self.num_columns == 0
    }

    /// Whether every element is 0.
    pub fn is_zero(&self) -> (r: bool)
        requires
            self.wf(),
        ensures
            r == (forall|i: int, j: int| 0 <= i < self.nrows() && 0 <= j < self.ncols() ==> !self@[i][j]),
    {
        let mut i: usize = 0;
        while i < self.rows.len()
            invariant
                self.wf(),
                i <= self.nrows(),
                forall|k: int, j: int| 0 <= k < i && 0 <= j < self.ncols() ==> !self@[k][j],
            decreases self.nrows() - i,
        {
            assert(self@[i as int] == self.row_vecs()[i as int]@);
            if !self.rows[i].is_zero() {
                assert(self.row_vecs()[i as int]@ != zero_bits(self.ncols()));
                assert(exists|j: int| 0 <= j < self.ncols() && self@[i as int][j]) by {
                    if !(exists|j: int| 0 <= j < self.ncols() && self@[i as int][j]) {
                        assert(self.row_vecs()[i as int]@ =~= zero_bits(self.ncols()));
                    }
                }
                return false;
            }
            assert forall|j: int| 0 <= j < self.ncols() implies !self@[i as int][j] by {
                assert(self.row_vecs()[i as int]@ == zero_bits(self.ncols()));
            }
            i = i + 1;
        }
        true
    }

    /// Row `row`.
    pub fn row(&self, row: usize) -> (r: Result<BinaryVector, QecError>)
        requires
            self.wf(),
        ensures
            row < self.nrows() ==> (r matches Ok(v) && v.wf() && v@ == self@[row as int]),
            row >= self.nrows() ==> r == Err::<BinaryVector, QecError>(QecError::OutOfBounds),
    {
        if row < self.rows.len() {
            Ok(self.rows[row].clone())
        } else {
            Err(QecError::OutOfBounds)
        }
    }

    /// All rows, in order.
    pub fn rows(&self) -> (r: &[BinaryVector])
        ensures
            r@ == self.row_vecs(),
    {
        self.rows.as_slice()
    }

    /// Whether the element at (`row`, `column`) is 1.
    pub fn is_one_at(&self, row: usize, column: usize) -> (r: Result<bool, QecError>)
        requires
            self.wf(),
        ensures
            row < self.nrows() && column < self.ncols() ==> r == Ok::<bool, QecError>(self@[row as int][column as int]),
            !(row < self.nrows() && column < self.ncols()) ==> r == Err::<bool, QecError>(QecError::OutOfBounds),
    {
        if row >= self.rows.len() || column >= self.num_columns {
            return Err(QecError::OutOfBounds);
        }
        self.rows[row].is_one_at(column)
    }

    /// Whether the element at (`row`, `column`) is 0.
    pub fn is_zero_at(&self, row: usize, column: usize) -> (r: Result<bool, QecError>)
        requires
            self.wf(),
        ensures
            row < self.nrows() && column < self.ncols() ==> r == Ok::<bool, QecError>(!self@[row as int][column as int]),
            !(row < self.nrows() && column < self.ncols()) ==> r == Err::<bool, QecError>(QecError::OutOfBounds),
    {
        if row >= self.rows.len() || column >= self.num_columns {
            return Err(QecError::OutOfBounds);
        }
        self.rows[row].is_zero_at(column)
    }

    /// The element at (`row`, `column`), 0 or 1.
    pub fn element(&self, row: usize, column: usize) -> (r: Result<u8, QecError>)
        requires
            self.wf(),
        ensures
            row < self.nrows() && column < self.ncols() ==> r == Ok::<u8, QecError>(
                if self@[row as int][column as int] { 1u8 } else { 0u8 },
            ),
            !(row < self.nrows() && column < self.ncols()) ==> r == Err::<u8, QecError>(QecError::OutOfBounds),
    {
        if row >= self.rows.len() || column >= self.num_columns {
            return Err(QecError::OutOfBounds);
        }
        self.rows[row].element(column)
    }

    fn column_bits(&self, j: usize) -> (bits: Vec<bool>)
        requires
            self.wf(),
            j < self.ncols(),
        ensures
            bits@ == column(self@, j as int),
    {
        let mut bits: Vec<bool> = Vec::new();
        let mut i: usize = 0;
        while i < self.rows.len()
            invariant
                self.wf(),
                j < self.ncols(),
                i <= self.nrows(),
                bits@ =~= Seq::new(i as nat, |t: int| self@[t][j as int]),
            decreases self.nrows() - i,
        {
            let b = self.rows[i].has_position(j);
            assert(b == self@[i as int][j as int]);
            bits.push(b);
            i = i + 1;
            assert(bits@ =~= Seq::new(i as nat, |t: int| self@[t][j as int]));
        }
        assert(bits@ =~= column(self@, j as int));
        bits
    }

    /// The transpose: row `j` of the result holds the rows of `self` with a
    /// one in column `j`.
    pub fn transposed(&self) -> (r: Self)
        requires
            self.wf(),
        ensures
            r.wf(),
            r.ncols() == self.nrows(),
            r.nrows() == self.ncols(),
            forall|j: int| 0 <= j < self.ncols() ==> #[trigger] r@[j] == column(self@, j),
    {
        let mut out: Vec<BinaryVector> = Vec::new();
        let mut j: usize = 0;
        while j < self.num_columns
            invariant
                self.wf(),
                j <= self.ncols(),
                out@.len() == j,
                forall|k: int| #![trigger out@[k]] 0 <= k < j ==> out@[k].wf() && out@[k]@ == column(self@, k),
            decreases self.ncols() - j,
        {
            let bits = self.column_bits(j);
            let v = BinaryVector::from_bits(&bits);
            assert(v@ =~= column(self@, j as int));
            let ghost before = out@;
            out.push(v);
            assert(out@[j as int] == v);
            assert(forall|k: int| #![trigger out@[k]] 0 <= k < j ==> out@[k] == before[k]);
            assert(out@[j as int].wf());
            assert(out@[j as int]@ == column(self@, j as int));
            j = j + 1;
        }
        BinaryMatrix { num_columns: self.rows.len(), rows: out }
    }

    /// The product of `self` with a column vector of matching length.
    pub fn times_vector(&self, vector: &BinaryVector) -> (r: BinaryVector)
        requires
            self.wf(),
            vector.wf(),
            vector@.len() == self.ncols(),
        ensures
            r.wf(),
            r@ == Seq::new(self.nrows(), |i: int| dot_bits(self@[i], vector@)),
    {
        let mut bits: Vec<bool> = Vec::new();
        let mut i: usize = 0;
        while i < self.rows.len()
            invariant
                self.wf(),
                vector.wf(),
                vector@.len() == self.ncols(),
                i <= self.nrows(),
                bits@ =~= Seq::new(i as nat, |t: int| dot_bits(self@[t], vector@)),
            decreases self.nrows() - i,
        {
            let b = self.rows[i].dot(vector);
            bits.push(b);
            i = i + 1;
            assert(bits@ =~= Seq::new(i as nat, |t: int| dot_bits(self@[t], vector@)));
        }
        BinaryVector::from_bits(&bits)
    }

    /// The product of `self` with a column vector: fails unless the vector's
    /// length is the number of columns.
    pub fn dot_with_vector(&self, vector: &BinaryVector) -> (r: Result<BinaryVector, QecError>)
        requires
            self.wf(),
            vector.wf(),
        ensures
            vector@.len() != self.ncols() ==> r == Err::<BinaryVector, QecError>(QecError::DimensionMismatch),
            vector@.len() == self.ncols() ==> (r matches Ok(v) && v.wf()
                && v@ == Seq::new(self.nrows(), |i: int| dot_bits(self@[i], vector@))),
    {
        if vector.len() != self.num_columns {
            return Err(QecError::DimensionMismatch);
        }
        Ok(self.times_vector(vector))
    }

    /// The matrix product; the number of columns of `self` must be the
    /// number of rows of `other`.
    pub fn times_matrix(&self, other: &Self) -> (r: Self)
        requires
            self.wf(),
            other.wf(),
            self.ncols() == other.nrows(),
        ensures
            r.wf(),
            r.nrows() == self.nrows(),
            r.ncols() == other.ncols(),
            forall|i: int, c: int| 0 <= i < self.nrows() && 0 <= c < other.ncols()
                ==> #[trigger] r@[i][c] == dot_bits(self@[i], column(other@, c)),
    {
        let t = other.transposed();
        let mut out: Vec<BinaryVector> = Vec::new();
        let mut i: usize = 0;
        while i < self.rows.len()
            invariant
                self.wf(),
                other.wf(),
                t.wf(),
                self.ncols() == other.nrows(),
                t.ncols() == other.nrows(),
                t.nrows() == other.ncols(),
                forall|j: int| 0 <= j < other.ncols() ==> #[trigger] t@[j] == column(other@, j),
                i <= self.nrows(),
                out@.len() == i,
                forall|k: int| #![trigger out@[k]] 0 <= k < i ==> out@[k].wf() && out@[k]@.len() == other.ncols()
                    && forall|c: int| 0 <= c < other.ncols() ==> out@[k]@[c] == dot_bits(self@[k], column(other@, c)),
            decreases self.nrows() - i,
        {
            let v = t.times_vector(&self.rows[i]);
            assert forall|c: int| 0 <= c < other.ncols() implies v@[c] == dot_bits(self@[i as int], column(other@, c)) by {
                assert(t@[c] == column(other@, c));
                lemma_common_symmetric(t@[c], self@[i as int], t@[c].len() as int);
            }
            out.push(v);
            i = i + 1;
        }
        BinaryMatrix { num_columns: other.num_columns, rows: out }
    }

    /// The matrix product: fails unless the number of columns of `self` is
    /// the number of rows of `other`.
    pub fn dot_with_matrix(&self, other: &Self) -> (r: Result<Self, QecError>)
        requires
            self.wf(),
            other.wf(),
        ensures
            self.ncols() != other.nrows() ==> r == Err::<Self, QecError>(QecError::DimensionMismatch),
            self.ncols() == other.nrows() ==> (r matches Ok(m) && m.wf() && m.nrows() == self.nrows()
                && m.ncols() == other.ncols()
                && forall|i: int, c: int| 0 <= i < self.nrows() && 0 <= c < other.ncols()
                    ==> #[trigger] m@[i][c] == dot_bits(self@[i], column(other@, c))),
    {
        if self.num_columns != other.rows.len() {
            return Err(QecError::DimensionMismatch);
        }
        Ok(self.times_matrix(other))
    }

    /// The element-wise sum modulo 2 of two matrices of one shape.
    pub fn bitwise_xor(&self, other: &Self) -> (r: Result<Self, QecError>)
        requires
            self.wf(),
            other.wf(),
        ensures
            (self.nrows() != other.nrows() || self.ncols() != other.ncols())
                ==> r == Err::<Self, QecError>(QecError::DimensionMismatch),
            (self.nrows() == other.nrows() && self.ncols() == other.ncols()) ==> (r matches Ok(m) && m.wf()
                && m.ncols() == self.ncols() && m@ == Seq::new(self.nrows(), |i: int| xor_bits(self@[i], other@[i]))),
    {
        if self.rows.len() != other.rows.len() || self.num_columns != other.num_columns {
            return Err(QecError::DimensionMismatch);
        }
        let mut out: Vec<BinaryVector> = Vec::new();
        let mut i: usize = 0;
        while i < self.rows.len()
            invariant
                self.wf(),
                other.wf(),
                self.nrows() == other.nrows(),
                self.ncols() == other.ncols(),
                i <= self.nrows(),
                out@.len() == i,
                forall|k: int| #![trigger out@[k]] 0 <= k < i ==> out@[k].wf() && out@[k]@ == xor_bits(self@[k], other@[k]),
            decreases self.nrows() - i,
        {
            out.push(self.rows[i].xor(&other.rows[i]));
            i = i + 1;
        }
        let m = BinaryMatrix { num_columns: self.num_columns, rows: out };
        assert(m@ =~= Seq::new(self.nrows(), |i: int| xor_bits(self@[i], other@[i])));
        Ok(m)
    }

    /// `self` and `other` side by side; the one with fewer rows is padded
    /// with rows of zeros.
    pub fn horizontal_concat_with(&self, other: &Self) -> (r: Self)
        requires
            self.wf(),
            other.wf(),
            self.ncols() + other.ncols() <= usize::MAX,
        ensures
            r.wf(),
            r.ncols() == self.ncols() + other.ncols(),
            r.nrows() == if self.nrows() >= other.nrows() { self.nrows() } else { other.nrows() },
            forall|i: int| 0 <= i < r.nrows() ==> #[trigger] r@[i] == padded_row(self@, self.ncols(), i)
                + padded_row(other@, other.ncols(), i),
    {
        let n = if self.rows.len() >= other.rows.len() { self.rows.len() } else { other.rows.len() };
        let mut out: Vec<BinaryVector> = Vec::new();
        let mut i: usize = 0;
        while i < n
            invariant
                self.wf(),
                other.wf(),
                self.ncols() + other.ncols() <= usize::MAX,
                n == if self.nrows() >= other.nrows() { self.nrows() } else { other.nrows() },
                i <= n,
                out@.len() == i,
                forall|k: int| #![trigger out@[k]] 0 <= k < i ==> out@[k].wf() && out@[k]@ == padded_row(self@, self.ncols(), k)
                    + padded_row(other@, other.ncols(), k),
            decreases n - i,
        {
            let left = if i < self.rows.len() { self.rows[i].clone() } else { BinaryVector::zeros(self.num_columns) };
            let right = if i < other.rows.len() { other.rows[i].clone() } else { BinaryVector::zeros(other.num_columns) };
            proof {
                if i < self.nrows() {
                    BinaryVector::lemma_canonical(&left, &self.row_vecs()[i as int]);
                }
                if i < other.nrows() {
                    BinaryVector::lemma_canonical(&right, &other.row_vecs()[i as int]);
                }
            }
            out.push(left.concat(&right));
            i = i + 1;
        }
        BinaryMatrix { num_columns: self.num_columns + other.num_columns, rows: out }
    }

    /// Gaussian elimination: the rows of a reduced echelon form of `self`,
    /// and their leading columns.
    fn reduce(&self) -> (res: (Vec<BinaryVector>, Vec<usize>))
        requires
            self.wf(),
        ensures
            rows_wf(res.0@, self.ncols()),
            is_echelon_form_of(views_of(res.0@), res.1@, self@, self.ncols()),
    {
        let n = self.num_columns;
        let mut work: Vec<BinaryVector> = Vec::new();
        let mut t: usize = 0;
        while t < self.rows.len()
            invariant
                self.wf(),
                t <= self.nrows(),
                work@.len() == t,
                rows_wf(work@, self.ncols()),
                forall|k: int| #![trigger work@[k]] 0 <= k < t ==> work@[k]@ == self@[k],
            decreases self.nrows() - t,
        {
            work.push(self.rows[t].clone());
            t = t + 1;
        }
        assert(views_of(work@) =~= self@);
        let mut piv: Vec<BinaryVector> = Vec::new();
        let mut cols: Vec<usize> = Vec::new();
        let mut col: usize = 0;
        assert(is_reduced_echelon(views_of(piv@), cols@, n as nat));
        while col < n
            invariant
                self.wf(),
                n == self.ncols(),
                col <= n,
                rows_wf(work@, n as nat),
                rows_wf(piv@, n as nat),
                forall|k: int, c: int| 0 <= k < work@.len() && 0 <= c < col ==> !(#[trigger] work@[k]@[c]),
                is_reduced_echelon(views_of(piv@), cols@, n as nat),
                forall|k: int| 0 <= k < cols@.len() ==> #[trigger] cols@[k] < col,
                forall|x: Seq<bool>|
                    x.len() == n ==> (orthogonal_to_all(views_of(piv@), x) && orthogonal_to_all(views_of(work@), x)
                        <==> #[trigger] orthogonal_to_all(self@, x)),
            decreases n - col,
        {
            let mut k: usize = 0;
            let mut found = false;
            while k < work.len() && !found
                invariant
                    rows_wf(work@, n as nat),
                    col < n,
                    k <= work@.len(),
                    found ==> k < work@.len() && work@[k as int]@[col as int],
                    !found ==> forall|u: int| 0 <= u < k ==> !(#[trigger] work@[u]@[col as int]),
                decreases work@.len() - k + if found { 0int } else { 1int },
            {
                if work[k].has_position(col) {
                    found = true;
                } else {
                    k = k + 1;
                }
            }
            if found {
                let p = work[k].clone();
                let ghost pv = p@;
                let ghost old_piv = views_of(piv@);
                let ghost old_work = views_of(work@);
                let ghost old_work_rows = work@;
                let ghost old_cols = cols@;
                assert(pv == old_work[k as int]);
                let new_work = clear_column(&work, &p, col);
                let mut new_piv = clear_column(&piv, &p, col);
                let ghost cleared = views_of(new_piv@);
                new_piv.push(p);
                cols.push(col);
                piv = new_piv;
                work = new_work;
                assert(views_of(piv@) =~= cleared.push(pv));
                assert forall|u: int, c: int| 0 <= u < work@.len() && 0 <= c < col + 1 implies !(#[trigger] work@[u]@[c]) by {
                    assert(old_work[u] == views_of(old_work_rows)[u]);
                }
                assert forall|i: int| 0 <= i < cols@.len() implies #[trigger] cols@[i] < col + 1 by {
                    if i < old_cols.len() {
                        assert(cols@[i] == old_cols[i]);
                    }
                }
                assert(is_reduced_echelon(views_of(piv@), cols@, n as nat)) by {
                    let e = views_of(piv@);
                    assert forall|i: int| 0 <= i < e.len() implies (#[trigger] e[i]).len() == n && crate::kernel::leads_at(e[i], cols@[i] as int) by {
                        if i < old_piv.len() {
                            assert(cols@[i] == old_cols[i]);
                            assert(old_cols[i] < col);
                            assert(crate::kernel::leads_at(old_piv[i], old_cols[i] as int));
                            assert(e[i] == cleared[i]);
                        } else {
                            assert(e[i] == pv);
                        }
                    }
                    assert forall|i: int, j: int|
                        #![trigger e[j][cols@[i] as int]]
                        0 <= i < e.len() && 0 <= j < e.len() && i != j implies !e[j][cols@[i] as int] by {
                        if i < old_piv.len() {
                            assert(cols@[i] == old_cols[i]);
                            assert(old_cols[i] < col);
                            if j < old_piv.len() {
                                assert(e[j] == cleared[j]);
                                assert(!old_piv[j][old_cols[i] as int]);
                            } else {
                                assert(e[j] == pv);
                            }
                        } else {
                            assert(cols@[i] == col);
                            assert(e[j] == cleared[j]);
                        }
                    }
                    assert(strictly_increasing(cols@)) by {
                        assert forall|a: int, b: int| 0 <= a < b < cols@.len() implies cols@[a] < cols@[b] by {
                            if b < old_cols.len() {
                                assert(cols@[a] == old_cols[a] && cols@[b] == old_cols[b]);
                            } else {
                                assert(cols@[a] == old_cols[a]);
                                assert(old_cols[a] < col);
                            }
                        }
                    }
                }
                assert forall|x: Seq<bool>| x.len() == n implies (orthogonal_to_all(views_of(piv@), x)
                    && orthogonal_to_all(views_of(work@), x) <==> #[trigger] orthogonal_to_all(self@, x)) by {
                    if dot_bits(pv, x) {
                        assert(!orthogonal_to_all(old_work, x));
                        assert(views_of(piv@)[old_piv.len() as int] == pv);
                        assert(!orthogonal_to_all(views_of(piv@), x));
                    } else {
                        lemma_clear_keeps_kernel(old_work, views_of(work@), pv, col as int, x);
                        lemma_clear_keeps_kernel(old_piv, cleared, pv, col as int, x);
                        if orthogonal_to_all(cleared, x) {
                            assert forall|i: int| 0 <= i < views_of(piv@).len() implies !dot_bits(#[trigger] views_of(piv@)[i], x) by {
                                if i < cleared.len() {
                                    assert(views_of(piv@)[i] == cleared[i]);
                                }
                            }
                        }
                        if orthogonal_to_all(views_of(piv@), x) {
                            assert forall|i: int| 0 <= i < cleared.len() implies !dot_bits(#[trigger] cleared[i], x) by {
                                assert(views_of(piv@)[i] == cleared[i]);
                            }
                        }
                    }
                }
            } else {
                assert forall|u: int, c: int| 0 <= u < work@.len() && 0 <= c < col + 1 implies !(#[trigger] work@[u]@[c]) by {
                    if c == col {
                        assert(!work@[u]@[col as int]);
                    }
                }
            }
            col = col + 1;
        }
        assert forall|x: Seq<bool>| x.len() == n implies orthogonal_to_all(views_of(work@), x) by {
            assert forall|i: int| 0 <= i < views_of(work@).len() implies !dot_bits(#[trigger] views_of(work@)[i], x) by {
                assert forall|c: int| 0 <= c < views_of(work@)[i].len() implies !views_of(work@)[i][c] by {
                    assert(!work@[i]@[c]);
                }
                lemma_zero_row_orthogonal(views_of(work@)[i], x);
            }
        }
        (piv, cols)
    }

    /// A reduced row echelon form of `self`, obtained by Gaussian elimination:
    /// its rows lead at increasing columns, no row has a one in another
    /// row's leading column, and it has the same kernel (hence the same row
    /// space) as `self`.
    pub fn echelon_form(&self) -> (r: Self)
        requires
            self.wf(),
        ensures
            r.wf(),
            r.ncols() == self.ncols(),
            exists|pc: Seq<usize>| is_echelon_form_of(r@, pc, self@, self.ncols()),
    {
        let (piv, cols) = self.reduce();
        let r = BinaryMatrix::from_vectors(self.num_columns, piv);
        assert(is_echelon_form_of(r@, cols@, self@, self.ncols()));
        r
    }

    /// The rank: the number of rows of a reduced echelon form of `self`.
    pub fn rank(&self) -> (r: usize)
        requires
            self.wf(),
        ensures
            exists|e: Seq<Seq<bool>>, pc: Seq<usize>| is_echelon_form_of(e, pc, self@, self.ncols()) && e.len() == r,
    {
        let (piv, cols) = self.reduce();
        assert(is_echelon_form_of(views_of(piv@), cols@, self@, self.ncols()) && views_of(piv@).len() == piv.len());
        piv.len()
    }

    /// A matrix whose rows lie in the kernel of `self` and generate it: one
    /// row for each column that leads no row of the reduced echelon form, so
    /// that the number of rows plus the rank is the number of columns.
    pub fn nullspace(&self) -> (r: Self)
        requires
            self.wf(),
        ensures
            r.wf(),
            r.ncols() == self.ncols(),
            forall|i: int| 0 <= i < r.nrows() ==> #[trigger] orthogonal_to_all(self@, r@[i]),
            exists|e: Seq<Seq<bool>>, pc: Seq<usize>|
                is_echelon_form_of(e, pc, self@, self.ncols()) && r.nrows() + e.len() == self.ncols(),
            forall|x: Seq<bool>| x.len() == self.ncols() && #[trigger] orthogonal_to_all(self@, x) ==> in_row_space(r@, x, self.ncols()),
            exists|units: Seq<int>| has_unit_columns(r@, units),
    {
        let n = self.num_columns;
        let (piv, cols) = self.reduce();
        let ghost e = views_of(piv@);
        let mut out: Vec<BinaryVector> = Vec::new();
        let mut q: usize = 0;
        let mut f: usize = 0;
        let ghost mut row_of: Seq<int> = Seq::new(n as nat, |t: int| 0);
        let ghost mut units: Seq<int> = Seq::empty();
        while f < n
            invariant
                self.wf(),
                n == self.ncols(),
                rows_wf(piv@, n as nat),
                e == views_of(piv@),
                is_echelon_form_of(e, cols@, self@, n as nat),
                f <= n,
                q <= cols@.len(),
                out@.len() + q == f,
                forall|t: int| 0 <= t < q ==> #[trigger] cols@[t] < f,
                q < cols@.len() ==> cols@[q as int] >= f,
                rows_wf(out@, n as nat),
                forall|i: int| #![trigger out@[i]] 0 <= i < out@.len() ==> orthogonal_to_all(self@, out@[i]@),
                row_of.len() == n,
                units.len() == out@.len(),
                forall|j: int|
                    #![trigger units[j]]
                    0 <= j < units.len() ==> 0 <= units[j] < f && !cols@.contains(units[j] as usize) && out@[j]@ == null_vector(
                        e,
                        cols@,
                        units[j],
                        n as nat,
                    ),
                forall|a: int, b: int| 0 <= a < b < units.len() ==> #[trigger] units[a] < #[trigger] units[b],
                forall|t: int|
                    #![trigger row_of[t]]
                    0 <= t < f && !cols@.contains(t as usize) ==> 0 <= row_of[t] < out@.len() && out@[row_of[t]]@ == null_vector(e, cols@, t, n as nat),
            decreases n - f,
        {
            if q < cols.len() && cols[q] == f {
                assert(cols@.contains(f)) by {
                    assert(cols@[q as int] == f);
                }
                assert forall|t: int|
                    #![trigger row_of[t]]
                    0 <= t < f + 1 && !cols@.contains(t as usize) implies 0 <= row_of[t] < out@.len() && out@[row_of[t]]@ == null_vector(e, cols@, t, n as nat) by {
                    assert(t != f);
                }
                q = q + 1;
                assert forall|t: int| 0 <= t < q implies #[trigger] cols@[t] < f + 1 by {
                    if t < q - 1 {
                        assert(cols@[t] < f);
                    }
                }
                assert(q < cols@.len() ==> cols@[q as int] >= f + 1) by {
                    if q < cols@.len() {
                        assert(cols@[q - 1] < cols@[q as int]);
                    }
                }
            } else {
                assert(!cols@.contains(f)) by {
                    if cols@.contains(f) {
                        let t = choose|t: int| 0 <= t < cols@.len() && cols@[t] == f;
                        if t < q {
                            assert(cols@[t] < f);
                        } else if t > q {
                            assert(cols@[q as int] < cols@[t]);
                        }
                    }
                }
                let bits = null_bits(&piv, &cols, f, n);
                let v = BinaryVector::from_bits(&bits);
                proof {
                    lemma_null_vector_orthogonal(e, cols@, f as int, n as nat);
                    assert(orthogonal_to_all(e, v@) == orthogonal_to_all(self@, v@));
                }
                let ghost before = out@;
                let ghost old_row_of = row_of;
                proof {
                    row_of = row_of.update(f as int, out@.len() as int);
                    units = units.push(f as int);
                }
                out.push(v);
                assert forall|t: int|
                    #![trigger row_of[t]]
                    0 <= t < f + 1 && !cols@.contains(t as usize) implies 0 <= row_of[t] < out@.len() && out@[row_of[t]]@ == null_vector(e, cols@, t, n as nat) by {
                    if t < f {
                        assert(row_of[t] == old_row_of[t]);
                        assert(0 <= old_row_of[t] < before.len());
                        assert(out@[old_row_of[t]] == before[old_row_of[t]]);
                    }
                }
                assert forall|t: int| 0 <= t < q implies #[trigger] cols@[t] < f + 1 by {
                    assert(cols@[t] < f);
                }
            }
            f = f + 1;
        }
        assert(q == cols@.len()) by {
            if q < cols@.len() {
                assert(e[q as int].len() == n);
                assert(crate::kernel::leads_at(e[q as int], cols@[q as int] as int));
            }
        }
        let r = BinaryMatrix::from_vectors(n, out);
        proof {
            assert forall|j: int| 0 <= j < units.len() implies 0 <= #[trigger] units[j] < r.ncols() && r@[j][units[j]] && forall|k: int|
                0 <= k < r@.len() && k != j ==> !r@[k][units[j]] by {
                assert(r@[j] == out@[j]@);
                lemma_null_vector_orthogonal(e, cols@, units[j], n as nat);
                assert forall|k: int| 0 <= k < r@.len() && k != j implies !r@[k][units[j]] by {
                    assert(r@[k] == out@[k]@);
                    if k < j {
                        assert(units[k] < units[j]);
                    } else {
                        assert(units[j] < units[k]);
                    }
                    if exists|i: int| 0 <= i < cols@.len() && cols@[i] == units[j] && e[i][units[k]] {
                        let i = choose|i: int| 0 <= i < cols@.len() && cols@[i] == units[j] && e[i][units[k]];
                        assert(cols@.contains(units[j] as usize));
                    }
                }
            }
            assert(has_unit_columns(r@, units));
        }
        assert forall|i: int| 0 <= i < r.nrows() implies #[trigger] orthogonal_to_all(self@, r@[i]) by {
            assert(r@[i] == out@[i]@);
        }
        assert(is_echelon_form_of(e, cols@, self@, self.ncols()) && r.nrows() + e.len() == self.ncols());
        assert forall|x: Seq<bool>| x.len() == self.ncols() && #[trigger] orthogonal_to_all(self@, x) implies in_row_space(r@, x, self.ncols()) by {
            assert forall|z: Seq<bool>| z.len() == n && #[trigger] orthogonal_to_all(r@, z) implies !dot_bits(x, z) by {
                assert forall|t: int| 0 <= t < n && !cols@.contains(t as usize) implies !dot_bits(#[trigger] null_vector(e, cols@, t, n as nat), z) by {
                    let j = row_of[t];
                    assert(r@[j] == out@[j]@);
                }
                assert(orthogonal_to_all(e, x));
                crate::kernel::lemma_null_vectors_generate(e, cols@, n as nat, x, z);
            }
        }
        r
    }

    /// Whether every row of `self` is orthogonal to every row of `other`,
    /// that is whether `self · otherᵀ` is zero.
    pub fn rows_orthogonal_to(&self, other: &Self) -> (r: bool)
        requires
            self.wf(),
            other.wf(),
            self.ncols() == other.ncols(),
        ensures
            r == forall|i: int, j: int| 0 <= i < self.nrows() && 0 <= j < other.nrows() ==> !dot_bits(#[trigger] self@[i], #[trigger] other@[j]),
    {
        let mut i: usize = 0;
        while i < self.rows.len()
            invariant
                self.wf(),
                other.wf(),
                self.ncols() == other.ncols(),
                i <= self.nrows(),
                forall|a: int, b: int| 0 <= a < i && 0 <= b < other.nrows() ==> !dot_bits(#[trigger] self@[a], #[trigger] other@[b]),
            decreases self.nrows() - i,
        {
            let mut j: usize = 0;
            while j < other.rows.len()
                invariant
                    self.wf(),
                    other.wf(),
                    self.ncols() == other.ncols(),
                    i < self.nrows(),
                    j <= other.nrows(),
                    forall|a: int, b: int| 0 <= a < i && 0 <= b < other.nrows() ==> !dot_bits(#[trigger] self@[a], #[trigger] other@[b]),
                    forall|b: int| 0 <= b < j ==> !dot_bits(self@[i as int], #[trigger] other@[b]),
                decreases other.nrows() - j,
            {
                if self.rows[i].dot(&other.rows[j]) {
                    assert(self@[i as int] == self.row_vecs()[i as int]@);
                    assert(other@[j as int] == other.row_vecs()[j as int]@);
                    assert(dot_bits(self@[i as int], other@[j as int]));
                    return false;
                }
                j = j + 1;
            }
            i = i + 1;
        }
        true
    }

    /// Whether `v` is a sum of rows of `self`.
    pub fn row_space_contains(&self, v: &BinaryVector) -> (r: bool)
        requires
            self.wf(),
            v.wf(),
            v@.len() == self.ncols(),
        ensures
            r == in_row_space(self@, v@, self.ncols()),
    {
        let n = self.num_columns;
        let (piv, cols) = self.reduce();
        let ghost e = views_of(piv@);
        let mut w = v.clone();
        let mut i: usize = 0;
        while i < piv.len()
            invariant
                self.wf(),
                n == self.ncols(),
                v.wf(),
                v@.len() == n,
                w.wf(),
                w@.len() == n,
                rows_wf(piv@, n as nat),
                e == views_of(piv@),
                is_echelon_form_of(e, cols@, self@, n as nat),
                i <= piv@.len(),
                forall|j: int| 0 <= j < i ==> !w@[#[trigger] cols@[j] as int],
                forall|x: Seq<bool>| x.len() == n && #[trigger] orthogonal_to_all(e, x) ==> dot_bits(w@, x) == dot_bits(v@, x),
            decreases piv@.len() - i,
        {
            assert(e[i as int] == piv@[i as int]@);
            if w.has_position(cols[i]) {
                let ghost before = w@;
                w = w.xor(&piv[i]);
                assert forall|j: int| 0 <= j < i + 1 implies !w@[#[trigger] cols@[j] as int] by {
                    if j < i {
                        assert(!e[i as int][cols@[j] as int]);
                    }
                }
                assert forall|x: Seq<bool>| x.len() == n && #[trigger] orthogonal_to_all(e, x) implies dot_bits(w@, x) == dot_bits(v@, x) by {
                    lemma_common_xor(before, e[i as int], x, n as int);
                    assert(!dot_bits(e[i as int], x));
                }
            }
            i = i + 1;
        }
        let z = w.is_zero();
        proof {
            if z {
                assert forall|x: Seq<bool>| x.len() == n && #[trigger] orthogonal_to_all(self@, x) implies !dot_bits(v@, x) by {
                    assert(orthogonal_to_all(e, x));
                    crate::vector::lemma_common_zero(w@, x, n as int);
                }
            } else {
                let f = w.support()[0];
                assert(w@[f as int]);
                assert(!cols@.contains(f)) by {
                    if cols@.contains(f) {
                        let j = choose|j: int| 0 <= j < cols@.len() && cols@[j] == f;
                    }
                }
                lemma_null_vector_orthogonal(e, cols@, f as int, n as nat);
                let x = null_vector(e, cols@, f as int, n as nat);
                assert forall|t: int| 0 <= t < n && t != f && t != -1 implies !(w@[t] && x[t]) by {
                    if w@[t] && x[t] {
                        let j = choose|j: int| 0 <= j < cols@.len() && cols@[j] == t && e[j][f as int];
                        assert(!w@[cols@[j] as int]);
                    }
                }
                lemma_common_hits(w@, x, f as int, -1, n as int);
                assert(orthogonal_to_all(self@, x));
                assert(dot_bits(v@, x));
            }
        }
        z
    }

    /// `self` above `other`; the one with fewer columns is padded with zeros
    /// on the right.
    pub fn vertical_concat_with(&self, other: &Self) -> (r: Self)
        requires
            self.wf(),
            other.wf(),
        ensures
            r.wf(),
            r.ncols() == if self.ncols() >= other.ncols() { self.ncols() } else { other.ncols() },
            r.nrows() == self.nrows() + other.nrows(),
            forall|i: int| 0 <= i < self.nrows() ==> #[trigger] r@[i] == self@[i] + zero_bits((r.ncols() - self.ncols()) as nat),
            forall|i: int| 0 <= i < other.nrows() ==> #[trigger] r@[self.nrows() + i] == other@[i] + zero_bits((r.ncols() - other.ncols()) as nat),
    {
        let n = if self.num_columns >= other.num_columns { self.num_columns } else { other.num_columns };
        let mut out: Vec<BinaryVector> = Vec::new();
        let pad_self = BinaryVector::zeros(n - self.num_columns);
        let pad_other = BinaryVector::zeros(n - other.num_columns);
        let mut i: usize = 0;
        while i < self.rows.len()
            invariant
                self.wf(),
                pad_self.wf(),
                pad_self@ == zero_bits((n - self.ncols()) as nat),
                n >= self.ncols(),
                i <= self.nrows(),
                out@.len() == i,
                rows_wf(out@, n as nat),
                forall|k: int| #![trigger out@[k]] 0 <= k < i ==> out@[k]@ == self@[k] + zero_bits((n - self.ncols()) as nat),
            decreases self.nrows() - i,
        {
            out.push(self.rows[i].concat(&pad_self));
            i = i + 1;
        }
        let mut j: usize = 0;
        while j < other.rows.len()
            invariant
                other.wf(),
                pad_other.wf(),
                pad_other@ == zero_bits((n - other.ncols()) as nat),
                n >= other.ncols(),
                j <= other.nrows(),
                out@.len() == self.nrows() + j,
                rows_wf(out@, n as nat),
                forall|k: int| #![trigger out@[k]] 0 <= k < self.nrows() ==> out@[k]@ == self@[k] + zero_bits((n - self.ncols()) as nat),
                forall|k: int| #![trigger out@[k]] self.nrows() <= k < self.nrows() + j ==> out@[k]@ == other@[k - self.nrows()] + zero_bits((n - other.ncols()) as nat),
            decreases other.nrows() - j,
        {
            out.push(other.rows[j].concat(&pad_other));
            j = j + 1;
        }
        let r = BinaryMatrix { num_columns: n, rows: out };
        assert forall|i: int| 0 <= i < other.nrows() implies #[trigger] r@[self.nrows() + i] == other@[i] + zero_bits((r.ncols() - other.ncols()) as nat) by {
            assert(r@[self.nrows() + i] == out@[self.nrows() + i]@);
        }
        r
    }

    /// The positions `(row, column)` of the ones, row by row and from left
    /// to right within a row.
    pub fn non_trivial_elements(&self) -> (r: Vec<(usize, usize)>)
        requires
            self.wf(),
        ensures
            forall|row: usize, col: usize| #![trigger r@.contains((row, col))] r@.contains((row, col)) <==> (row < self.nrows() && col < self.ncols() && self@[row as int][col as int]),
    {
        let mut out: Vec<(usize, usize)> = Vec::new();
        let mut i: usize = 0;
        while i < self.rows.len()
            invariant
                self.wf(),
                i <= self.nrows(),
                forall|row: usize, col: usize| #![trigger out@.contains((row, col))] out@.contains((row, col)) <==> (row < i && col < self.ncols() && self@[row as int][col as int]),
            decreases self.nrows() - i,
        {
            let positions = self.rows[i].non_trivial_positions();
            let ghost row_view = self@[i as int];
            assert(row_view == self.row_vecs()[i as int]@);
            let mut k: usize = 0;
            while k < positions.len()
                invariant
                    self.wf(),
                    i < self.nrows(),
                    row_view == self.row_vecs()[i as int]@,
                    positions@ == self.row_vecs()[i as int].support(),
                    k <= positions@.len(),
                    forall|row: usize, col: usize| #![trigger out@.contains((row, col))] out@.contains((row, col)) <==> ((row < i && col < self.ncols() && self@[row as int][col as int])
                        || (row == i && positions@.subrange(0, k as int).contains(col))),
                decreases positions@.len() - k,
            {
                let ghost before = out@;
                out.push((i, positions[k]));
                let ghost pre = positions@.subrange(0, k as int);
                k = k + 1;
                assert(positions@.subrange(0, k as int) =~= pre.push(positions@[k - 1]));
                assert forall|row: usize, col: usize| #![trigger out@.contains((row, col))] out@.contains((row, col)) <==> ((row < i && col < self.ncols() && self@[row as int][col as int])
                    || (row == i && positions@.subrange(0, k as int).contains(col))) by {
                    if out@.contains((row, col)) {
                        let t = choose|t: int| 0 <= t < out@.len() && out@[t] == (row, col);
                        if t < before.len() {
                            assert(before.contains((row, col)));
                        } else {
                            assert(pre.push(positions@[k - 1])[pre.len() as int] == col);
                        }
                    }
                    if before.contains((row, col)) {
                        let t = choose|t: int| 0 <= t < before.len() && before[t] == (row, col);
                        assert(out@[t] == (row, col));
                    }
                    let ghost grown = pre.push(positions@[k - 1]);
                    if row == i && grown.contains(col) {
                        let t = choose|t: int| 0 <= t < grown.len() && grown[t] == col;
                        if t < pre.len() {
                            assert(pre[t] == col);
                        } else {
                            assert(out@[before.len() as int] == (row, col));
                        }
                    }
                }
            }
            assert(positions@.subrange(0, k as int) =~= positions@);
            assert forall|row: usize, col: usize| #![trigger out@.contains((row, col))] out@.contains((row, col)) <==> (row < i + 1 && col < self.ncols() && self@[row as int][col as int]) by {
                if row == i {
                    assert(self@[row as int] == self.row_vecs()[i as int]@);
                    if positions@.contains(col) {
                        let t = choose|t: int| 0 <= t < positions@.len() && positions@[t] == col;
                    }
                }
            }
            i = i + 1;
        }
        out
    }
}

impl Clone for BinaryMatrix {
    fn clone(&self) -> (r: Self)
        ensures
            r.ncols() == self.ncols(),
            r.nrows() == self.nrows(),
            forall|i: int| 0 <= i < self.nrows() ==> (#[trigger] r.row_vecs()[i]).same_as(&self.row_vecs()[i]),
    {
        let mut out: Vec<BinaryVector> = Vec::new();
        let mut i: usize = 0;
        while i < self.rows.len()
            invariant
                i <= self.nrows(),
                out@.len() == i,
                forall|k: int| #![trigger out@[k]] 0 <= k < i ==> out@[k].same_as(&self.row_vecs()[k]),
            decreases self.nrows() - i,
        {
            out.push(self.rows[i].clone());
            i = i + 1;
        }
        BinaryMatrix { num_columns: self.num_columns, rows: out }
    }
}

impl BinaryMatrix {
    /// The stored forms agree row by row; this is what `==` compares.
    pub open spec fn same_as(&self, other: &Self) -> bool {
        &&& self.ncols() == other.ncols()
        &&& self.nrows() == other.nrows()
        &&& forall|i: int| 0 <= i < self.nrows() ==> (#[trigger] self.row_vecs()[i]).same_as(&other.row_vecs()[i])
    }
}

impl PartialEq for BinaryMatrix {
    fn eq(&self, other: &Self) -> (r: bool) {
        if self.num_columns != other.num_columns || self.rows.len() != other.rows.len() {
            return false;
        }
        let mut i: usize = 0;
        while i < self.rows.len()
            invariant
                self.nrows() == other.nrows(),
                i <= self.nrows(),
                forall|k: int| 0 <= k < i ==> (#[trigger] self.row_vecs()[k]).same_as(&other.row_vecs()[k]),
            decreases self.nrows() - i,
        {
            if self.rows[i] != other.rows[i] {
                return false;
            }
            i = i + 1;
        }
        true
    }
}

impl vstd::std_specs::cmp::PartialEqSpecImpl for BinaryMatrix {
    open spec fn obeys_eq_spec() -> bool {
        true
    }

    open spec fn eq_spec(&self, other: &BinaryMatrix) -> bool {
        self.same_as(other)
    }
}

impl Eq for BinaryMatrix {
}

/// Every row of a nullspace of `m` is orthogonal to every row of `m`, and
/// the nullspace has as many rows as `m` has columns minus its rank: this
/// holds of any results `ns` of `m.nullspace()` and `rank` of `m.rank()`.
pub proof fn lemma_nullspace_orthogonal_and_counted(m: &BinaryMatrix, ns: &BinaryMatrix, rank: nat)
    requires
        m.wf(),
        ns.wf(),
        ns.ncols() == m.ncols(),
        forall|i: int| 0 <= i < ns.nrows() ==> #[trigger] orthogonal_to_all(m@, ns@[i]),
        exists|e: Seq<Seq<bool>>, pc: Seq<usize>|
            is_echelon_form_of(e, pc, m@, m.ncols()) && ns.nrows() + e.len() == m.ncols(),
        exists|e: Seq<Seq<bool>>, pc: Seq<usize>| is_echelon_form_of(e, pc, m@, m.ncols()) && e.len() == rank,
    ensures
        forall|i: int, j: int| 0 <= i < ns.nrows() && 0 <= j < m.nrows() ==> !dot_bits(#[trigger] ns@[i], #[trigger] m@[j]),
        ns.nrows() == m.ncols() - rank,
{
    let (e1, pc1) = choose|e: Seq<Seq<bool>>, pc: Seq<usize>|
        is_echelon_form_of(e, pc, m@, m.ncols()) && ns.nrows() + e.len() == m.ncols();
    let (e2, pc2) = choose|e: Seq<Seq<bool>>, pc: Seq<usize>| is_echelon_form_of(e, pc, m@, m.ncols()) && e.len() == rank;
    crate::kernel::lemma_echelon_unique(e1, pc1, e2, pc2, m@, m.ncols());
    assert forall|i: int, j: int| 0 <= i < ns.nrows() && 0 <= j < m.nrows() implies !dot_bits(#[trigger] ns@[i], #[trigger] m@[j]) by {
        assert(orthogonal_to_all(m@, ns@[i]));
        assert(!dot_bits(m@[j], ns@[i]));
        lemma_common_symmetric(m@[j], ns@[i], m@[j].len() as int);
        assert(m@[j].len() == ns@[i].len()) by {
            assert(m.row_vecs()[j]@.len() == m.ncols());
            assert(ns.row_vecs()[i]@.len() == ns.ncols());
        }
    }
}


impl BinaryVector {
    /// The product of this vector, taken as a row, with `matrix`: the sum
    /// of the rows of `matrix` where the vector has a one. Fails unless the
    /// vector's length is the number of rows.
    pub fn dot_with_matrix(&self, matrix: &BinaryMatrix) -> (r: Result<BinaryVector, QecError>)
        requires
            self.wf(),
            matrix.wf(),
        ensures
            self@.len() != matrix.nrows() ==> r == Err::<BinaryVector, QecError>(QecError::DimensionMismatch),
            self@.len() == matrix.nrows() ==> (r matches Ok(v) && v.wf()
                && v@ == Seq::new(matrix.ncols(), |c: int| dot_bits(self@, column(matrix@, c)))),
    {
        if self.len() != matrix.num_rows() {
            return Err(QecError::DimensionMismatch);
        }
        let t = matrix.transposed();
        let v = t.times_vector(self);
        assert forall|c: int| 0 <= c < matrix.ncols() implies v@[c] == dot_bits(self@, column(matrix@, c)) by {
            assert(t@[c] == column(matrix@, c));
            lemma_common_symmetric(t@[c], self@, t@[c].len() as int);
        }
        assert(v@ =~= Seq::new(matrix.ncols(), |c: int| dot_bits(self@, column(matrix@, c))));
        Ok(v)
    }
}

} // verus!
