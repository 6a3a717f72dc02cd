use vstd::prelude::*;
use crate::error::QecError;
use crate::kernel::{in_row_space, orthogonal_to_all};
use crate::linear_code::{hamming_code, LinearCode};
use crate::matrix::{rows_wf, views_of, BinaryMatrix};
use crate::pauli::PauliOperator;
use crate::kernel::lemma_common_hits;
use crate::vector::{common_ones, dot_bits, zero_bits, BinaryVector};
use vstd::arithmetic::div_mod::{lemma_fundamental_div_mod, lemma_fundamental_div_mod_converse};

verus! {

/// No row of `a` has an odd dot product with a row of `b`: `a · bᵀ = 0`.
pub open spec fn rows_orthogonal(a: Seq<Seq<bool>>, b: Seq<Seq<bool>>) -> bool {
    forall|i: int, j: int| 0 <= i < a.len() && 0 <= j < b.len() ==> !dot_bits(#[trigger] a[i], #[trigger] b[j])
}

/// Picks, in order, the rows of `candidates` that are not sums of rows of
/// `stabs` and of the rows picked before them; returns them with their
/// indices in `candidates`.
fn independent_rows(stabs: &BinaryMatrix, candidates: &BinaryMatrix) -> (r: (BinaryMatrix, Vec<usize>))
    requires
        stabs.wf(),
        candidates.wf(),
        stabs.ncols() == candidates.ncols(),
    ensures
        r.0.wf(),
        r.0.ncols() == candidates.ncols(),
        r.1@.len() == r.0.nrows(),
        r.0.nrows() <= candidates.nrows(),
        forall|i: int| #![trigger r.0@[i]] #![trigger r.1@[i]] 0 <= i < r.0.nrows() ==> r.1@[i] < candidates.nrows() && r.0@[i] == candidates@[r.1@[i] as int],
        forall|i: int| 0 <= i < r.0.nrows() ==> !in_row_space(stabs@ + r.0@.subrange(0, i), #[trigger] r.0@[i], candidates.ncols()),
        forall|j: int| 0 <= j < candidates.nrows() ==> in_row_space(stabs@ + r.0@, #[trigger] candidates@[j], candidates.ncols()),
{
    let n = candidates.num_columns();
    let rows = candidates.rows();
    let mut acc = stabs.vertical_concat_with(&BinaryMatrix::zeros(0, n));
    let mut chosen: Vec<BinaryVector> = Vec::new();
    assert forall|i: int| 0 <= i < stabs@.len() implies acc@[i] == stabs@[i] by {
        assert(stabs@[i] + zero_bits(0) =~= stabs@[i]);
    }
    assert(acc@ =~= stabs@ + views_of(chosen@));
    let mut picked: Vec<usize> = Vec::new();
    let mut k: usize = 0;
    while k < rows.len()
        invariant
            candidates.wf(),
            n == candidates.ncols(),
            rows@ == candidates.row_vecs(),
            acc.wf(),
            acc.ncols() == n,
            k <= rows@.len(),
            chosen@.len() <= k,
            picked@.len() == chosen@.len(),
            rows_wf(chosen@, n as nat),
            forall|i: int| #![trigger chosen@[i]] #![trigger picked@[i]] 0 <= i < chosen@.len() ==> picked@[i] < k && chosen@[i]@ == candidates@[picked@[i] as int],
            acc@ == stabs@ + views_of(chosen@),
            forall|i: int| 0 <= i < chosen@.len() ==> !in_row_space(stabs@ + views_of(chosen@).subrange(0, i), #[trigger] chosen@[i]@, n as nat),
            forall|j: int| 0 <= j < k ==> in_row_space(acc@, #[trigger] candidates@[j], n as nat),
        decreases rows@.len() - k,
    {
        let g = &rows[k];
        assert(g@ == candidates@[k as int]);
        if !acc.row_space_contains(g) {
            let single = BinaryMatrix::from_vectors(n, vec![g.clone()]);
            let ghost old_acc = acc@;
            let ghost old_acc_matrix = acc;
            acc = acc.vertical_concat_with(&single);
            let copy = g.clone();
            assert(copy@ == g@);
            let ghost before = chosen@;
            let ghost before_picked = picked@;
            chosen.push(copy);
            picked.push(k);
            assert forall|i: int| #![trigger chosen@[i]] #![trigger picked@[i]] 0 <= i < chosen@.len() implies picked@[i] < k + 1 && chosen@[i]@ == candidates@[picked@[i] as int] by {
                if i < before.len() {
                    assert(chosen@[i] == before[i]);
                    assert(picked@[i] == before_picked[i]);
                }
            }
            assert(views_of(chosen@) =~= views_of(before).push(g@));
            assert(acc@ =~= stabs@ + views_of(chosen@)) by {
                assert forall|i: int| 0 <= i < old_acc.len() implies acc@[i] == old_acc[i] by {
                    assert(old_acc[i] + zero_bits(0) =~= old_acc[i]);
                }
                assert(single@[0] + zero_bits(0) =~= g@);
                assert(acc@[old_acc_matrix.nrows() as int + 0] == single@[0] + zero_bits((acc.ncols() - single.ncols()) as nat));
                assert(old_acc_matrix.nrows() == old_acc.len());
                assert(acc@[old_acc.len() as int] == g@);
                assert(acc@.len() == old_acc.len() + 1);
                assert forall|i: int| 0 <= i < acc@.len() implies acc@[i] == (stabs@ + views_of(chosen@))[i] by {
                    if i < old_acc.len() {
                        assert(acc@[i] == old_acc[i]);
                    }
                }
            }
            assert forall|j: int| 0 <= j < k + 1 implies in_row_space(acc@, #[trigger] candidates@[j], n as nat) by {
                assert forall|x: Seq<bool>| x.len() == n && #[trigger] orthogonal_to_all(acc@, x) implies !dot_bits(candidates@[j], x) by {
                    assert forall|t: int| 0 <= t < old_acc.len() implies !dot_bits(#[trigger] old_acc[t], x) by {
                        assert(acc@[t] == old_acc[t]);
                    }
                    assert(acc@[old_acc.len() as int] == g@);
                    if j < k {
                        assert(orthogonal_to_all(old_acc, x));
                    }
                }
            }
            assert forall|i: int| 0 <= i < chosen@.len() implies !in_row_space(stabs@ + views_of(chosen@).subrange(0, i), #[trigger] chosen@[i]@, n as nat) by {
                if i < before.len() {
                    assert(views_of(chosen@).subrange(0, i) =~= views_of(before).subrange(0, i));
                    assert(chosen@[i] == before[i]);
                } else {
                    assert(views_of(chosen@).subrange(0, i) =~= views_of(before));
                }
            }
        }
        k = k + 1;
    }
    let r = BinaryMatrix::from_vectors(n, chosen);
    assert forall|i: int| #![trigger r@[i]] #![trigger picked@[i]] 0 <= i < r.nrows() implies picked@[i] < candidates.nrows() && r@[i] == candidates@[picked@[i] as int] by {
        assert(r@[i] == chosen@[i]@);
    }
    assert(r@ == views_of(chosen@));
    assert forall|j: int| 0 <= j < candidates.nrows() implies in_row_space(stabs@ + r@, #[trigger] candidates@[j], candidates.ncols()) by {
        assert(acc@ == stabs@ + r@);
    }
    assert forall|i: int| 0 <= i < r.nrows() implies !in_row_space(stabs@ + r@.subrange(0, i), #[trigger] r@[i], candidates.ncols()) by {
        assert(r@[i] == chosen@[i]@);
    }
    (r, picked)
}

/// A CSS quantum code: the checks of `x_code` are the X stabilizers and
/// those of `z_code` the Z stabilizers, with `Hx · Hzᵀ = 0`.
pub struct CssCode {
    x_code: LinearCode,
    z_code: LinearCode,
    x_logicals: BinaryMatrix,
    z_logicals: BinaryMatrix,
}

impl CssCode {
    /// The code whose checks give the X stabilizers.
    pub closed spec fn xc(&self) -> LinearCode {
        self.x_code
    }

    /// The code whose checks give the Z stabilizers.
    pub closed spec fn zc(&self) -> LinearCode {
        self.z_code
    }

    /// The X logical operators, one per row.
    pub closed spec fn xl(&self) -> BinaryMatrix {
        self.x_logicals
    }

    /// The Z logical operators, one per row.
    pub closed spec fn zl(&self) -> BinaryMatrix {
        self.z_logicals
    }

    /// The X stabilizer matrix `Hx`.
    pub open spec fn hx(&self) -> BinaryMatrix {
        self.xc().pcm()
    }

    /// The Z stabilizer matrix `Hz`.
    pub open spec fn hz(&self) -> BinaryMatrix {
        self.zc().pcm()
    }

    /// The number of qubits.
    pub open spec fn len_spec(&self) -> nat {
        self.xc().len_spec()
    }

    /// Both codes are well formed and of one length, their checks are
    /// orthogonal, each logical commutes with the stabilizers of the other
    /// type, no logical is a product of the stabilizers of its own type and
    /// of the logicals listed before it, and together with those stabilizers
    /// the logicals generate every generator of the other code.
    pub open spec fn wf(&self) -> bool {
        &&& self.xc().wf()
        &&& self.zc().wf()
        &&& self.xc().len_spec() == self.zc().len_spec()
        &&& rows_orthogonal(self.hx()@, self.hz()@)
        &&& self.xl().wf() && self.xl().ncols() == self.len_spec()
        &&& self.zl().wf() && self.zl().ncols() == self.len_spec()
        &&& forall|i: int| 0 <= i < self.xl().nrows() ==> #[trigger] orthogonal_to_all(self.hz()@, self.xl()@[i])
        &&& forall|i: int| 0 <= i < self.zl().nrows() ==> #[trigger] orthogonal_to_all(self.hx()@, self.zl()@[i])
        &&& forall|i: int|
            0 <= i < self.xl().nrows() ==> !in_row_space(self.hx()@ + self.xl()@.subrange(0, i), #[trigger] self.xl()@[i], self.len_spec())
        &&& forall|i: int|
            0 <= i < self.zl().nrows() ==> !in_row_space(self.hz()@ + self.zl()@.subrange(0, i), #[trigger] self.zl()@[i], self.len_spec())
        &&& forall|j: int|
            0 <= j < self.zc().gm().nrows() ==> in_row_space(self.hx()@ + self.xl()@, #[trigger] self.zc().gm()@[j], self.len_spec())
        &&& forall|j: int|
            0 <= j < self.xc().gm().nrows() ==> in_row_space(self.hz()@ + self.zl()@, #[trigger] self.xc().gm()@[j], self.len_spec())
    }

    /// The CSS code of two codes of one length whose checks are orthogonal.
    fn from_orthogonal(x_code: LinearCode, z_code: LinearCode) -> (r: Self)
        requires
            x_code.wf(),
            z_code.wf(),
            x_code.len_spec() == z_code.len_spec(),
            rows_orthogonal(x_code.pcm()@, z_code.pcm()@),
        ensures
            r.wf(),
            r.xc() == x_code,
            r.zc() == z_code,
    {
        let (x_logicals, x_picked) = independent_rows(x_code.par_mat(), z_code.gen_mat());
        let (z_logicals, z_picked) = independent_rows(z_code.par_mat(), x_code.gen_mat());
        let r = CssCode { x_code, z_code, x_logicals, z_logicals };
        assert forall|i: int| 0 <= i < r.xl().nrows() implies #[trigger] orthogonal_to_all(r.hz()@, r.xl()@[i]) by {
            let j = x_picked@[i] as int;
            assert(r.xl()@[i] == r.zc().gm()@[j]);
            assert forall|t: int| 0 <= t < r.hz()@.len() implies !dot_bits(#[trigger] r.hz()@[t], r.xl()@[i]) by {
                assert(!dot_bits(r.zc().pcm()@[t], r.zc().gm()@[j]));
            }
        }
        assert forall|i: int| 0 <= i < r.zl().nrows() implies #[trigger] orthogonal_to_all(r.hx()@, r.zl()@[i]) by {
            let j = z_picked@[i] as int;
            assert(r.zl()@[i] == r.xc().gm()@[j]);
            assert forall|t: int| 0 <= t < r.hx()@.len() implies !dot_bits(#[trigger] r.hx()@[t], r.zl()@[i]) by {
                assert(!dot_bits(r.xc().pcm()@[t], r.xc().gm()@[j]));
            }
        }
        r
    }

    /// The CSS code of `x_code` and `z_code`: fails when their lengths differ
    /// or when `Hx · Hzᵀ` is not zero.
    pub fn new(x_code: LinearCode, z_code: LinearCode) -> (r: Result<Self, QecError>)
        requires
            x_code.wf(),
            z_code.wf(),
        ensures
            x_code.len_spec() != z_code.len_spec() ==> r == Err::<Self, QecError>(QecError::DimensionMismatch),
            x_code.len_spec() == z_code.len_spec() && !rows_orthogonal(x_code.pcm()@, z_code.pcm()@)
                ==> r == Err::<Self, QecError>(QecError::NotOrthogonal),
            x_code.len_spec() == z_code.len_spec() && rows_orthogonal(x_code.pcm()@, z_code.pcm()@) ==> (r matches Ok(c)
                && c.wf() && c.xc() == x_code && c.zc() == z_code),
    {
        if x_code.length() != z_code.length() {
            return Err(QecError::DimensionMismatch);
        }
        if !x_code.par_mat().rows_orthogonal_to(z_code.par_mat()) {
            return Err(QecError::NotOrthogonal);
        }
        Ok(Self::from_orthogonal(x_code, z_code))
    }

    /// The code whose checks give the X stabilizers.
    pub fn x_code(&self) -> (r: &LinearCode)
        ensures
            r == self.xc(),
    {
        &self.x_code
    }

    /// The code whose checks give the Z stabilizers.
    pub fn z_code(&self) -> (r: &LinearCode)
        ensures
            r == self.zc(),
    {
        &self.z_code
    }

    /// The X stabilizer generators, one per row.
    pub fn x_stabs_binary(&self) -> (r: &BinaryMatrix)
        ensures
            r == self.hx(),
    {
        self.x_code.par_mat()
    }

    /// The Z stabilizer generators, one per row.
    pub fn z_stabs_binary(&self) -> (r: &BinaryMatrix)
        ensures
            r == self.hz(),
    {
        self.z_code.par_mat()
    }

    /// The X logical generators, one per row.
    pub fn x_logicals_binary(&self) -> (r: &BinaryMatrix)
        ensures
            r == self.xl(),
    {
        &self.x_logicals
    }

    /// The Z logical generators, one per row.
    pub fn z_logicals_binary(&self) -> (r: &BinaryMatrix)
        ensures
            r == self.zl(),
    {
        &self.z_logicals
    }

    /// The number of qubits.
    pub fn length(&self) -> (r: usize)
        ensures
            r == self.len_spec(),
    {
        self.x_code.length()
    }

    /// The number of X stabilizer generators.
    pub fn num_x_stabs(&self) -> (r: usize)
        ensures
            r == self.hx().nrows(),
    {
        self.x_code.num_checks()
    }

    /// The number of Z stabilizer generators.
    pub fn num_z_stabs(&self) -> (r: usize)
        ensures
            r == self.hz().nrows(),
    {
        self.z_code.num_checks()
    }

    /// The number of X logical generators.
    pub fn num_x_logicals(&self) -> (r: usize)
        ensures
            r == self.xl().nrows(),
    {
        self.x_logicals.num_rows()
    }

    /// The number of Z logical generators.
    pub fn num_z_logicals(&self) -> (r: usize)
        ensures
            r == self.zl().nrows(),
    {
        self.z_logicals.num_rows()
    }

    /// The X syndrome (`Hx` times the Z part) and the Z syndrome (`Hz` times
    /// the X part) of `operator`: fails unless it acts on the code's qubits.
    pub fn syndrome_of(&self, operator: &PauliOperator) -> (r: Result<(BinaryVector, BinaryVector), QecError>)
        requires
            self.wf(),
            operator.wf(),
        ensures
            operator@.len() != self.len_spec() ==> r == Err::<(BinaryVector, BinaryVector), QecError>(QecError::DimensionMismatch),
            operator@.len() == self.len_spec() ==> (r matches Ok(s) && s.0.wf() && s.1.wf()
                && s.0@ == Seq::new(self.hx().nrows(), |i: int| dot_bits(self.hx()@[i], operator.z_bits()@))
                && s.1@ == Seq::new(self.hz().nrows(), |i: int| dot_bits(self.hz()@[i], operator.x_bits()@))),
    {
        if operator.len() != self.x_code.length() {
            return Err(QecError::DimensionMismatch);
        }
        let x = self.x_code.par_mat().times_vector(operator.z_vector());
        let z = self.z_code.par_mat().times_vector(operator.x_vector());
        Ok((x, z))
    }

    /// Whether `operator` acts on the code's qubits and is a product of
    /// stabilizers: its X part is a sum of rows of `Hx` and its Z part a sum
    /// of rows of `Hz`.
    pub fn has_stabilizer(&self, operator: &PauliOperator) -> (r: bool)
        requires
            self.wf(),
            operator.wf(),
        ensures
            r == (operator@.len() == self.len_spec() && in_row_space(self.hx()@, operator.x_bits()@, self.len_spec())
                && in_row_space(self.hz()@, operator.z_bits()@, self.len_spec())),
    {
        if operator.len() != self.x_code.length() {
            return false;
        }
        let a = self.x_code.par_mat().row_space_contains(operator.x_vector());
        let b = self.z_code.par_mat().row_space_contains(operator.z_vector());
        a && b
    }

    /// Whether `operator` is a non-trivial logical operator: it acts on the
    /// code's qubits, commutes with every stabilizer (its X part is a
    /// codeword of the Z code and its Z part one of the X code), and is not
    /// itself a stabilizer.
    pub fn has_logical(&self, operator: &PauliOperator) -> (r: bool)
        requires
            self.wf(),
            operator.wf(),
        ensures
            r == (operator@.len() == self.len_spec() && orthogonal_to_all(self.hz()@, operator.x_bits()@)
                && orthogonal_to_all(self.hx()@, operator.z_bits()@) && !(in_row_space(
                self.hx()@,
                operator.x_bits()@,
                self.len_spec(),
            ) && in_row_space(self.hz()@, operator.z_bits()@, self.len_spec()))),
    {
        if operator.len() != self.x_code.length() {
            return false;
        }
        let commutes = self.z_code.has_codeword(operator.x_vector()) && self.x_code.has_codeword(operator.z_vector());
        commutes && !self.has_stabilizer(operator)
    }
}

/// The Steane code: the Hamming code for both stabilizer types.
pub fn steane_code() -> (r: CssCode)
    ensures
        r.wf(),
        r.len_spec() == 7,
        r.hx().nrows() == 3,
        r.hz().nrows() == 3,
{
    let x_code = hamming_code();
    let z_code = hamming_code();
    proof {
        reveal_with_fuel(common_ones, 8);
        assert(rows_orthogonal(x_code.pcm()@, z_code.pcm()@)) by {
            assert forall|i: int, j: int| 0 <= i < 3 && 0 <= j < 3 implies !dot_bits(
                #[trigger] x_code.pcm()@[i],
                #[trigger] z_code.pcm()@[j],
            ) by {
                reveal_with_fuel(common_ones, 8);
            }
        }
    }
    CssCode::from_orthogonal(x_code, z_code)
}

/// The 9-qubit Shor code: X stabilizers on qubits 0 to 5 and 3 to 8, Z
/// stabilizers on neighbouring qubits within each block of three.
pub fn shor_code() -> (r: CssCode)
    ensures
        r.wf(),
        r.len_spec() == 9,
        r.hx().nrows() == 2,
        r.hz().nrows() == 6,
{
    let x0 = BinaryVector::from_sorted(9, vec![0, 1, 2, 3, 4, 5]);
    let x1 = BinaryVector::from_sorted(9, vec![3, 4, 5, 6, 7, 8]);
    let z0 = BinaryVector::from_sorted(9, vec![0, 1]);
    let z1 = BinaryVector::from_sorted(9, vec![1, 2]);
    let z2 = BinaryVector::from_sorted(9, vec![3, 4]);
    let z3 = BinaryVector::from_sorted(9, vec![4, 5]);
    let z4 = BinaryVector::from_sorted(9, vec![6, 7]);
    let z5 = BinaryVector::from_sorted(9, vec![7, 8]);
    let ghost (t, f) = (true, false);
    assert(x0@ =~= seq![t, t, t, t, t, t, f, f, f]) by {
        assert(seq![0usize, 1, 2, 3, 4, 5][5] == 5);
    }
    assert(x1@ =~= seq![f, f, f, t, t, t, t, t, t]) by {
        assert(seq![3usize, 4, 5, 6, 7, 8][5] == 8);
    }
    assert(z0@ =~= seq![t, t, f, f, f, f, f, f, f]) by {
        assert(seq![0usize, 1][1] == 1);
    }
    assert(z1@ =~= seq![f, t, t, f, f, f, f, f, f]) by {
        assert(seq![1usize, 2][1] == 2);
    }
    assert(z2@ =~= seq![f, f, f, t, t, f, f, f, f]) by {
        assert(seq![3usize, 4][1] == 4);
    }
    assert(z3@ =~= seq![f, f, f, f, t, t, f, f, f]) by {
        assert(seq![4usize, 5][1] == 5);
    }
    assert(z4@ =~= seq![f, f, f, f, f, f, t, t, f]) by {
        assert(seq![6usize, 7][1] == 7);
    }
    assert(z5@ =~= seq![f, f, f, f, f, f, f, t, t]) by {
        assert(seq![7usize, 8][1] == 8);
    }
    let hx = BinaryMatrix::from_vectors(9, vec![x0, x1]);
    let hz = BinaryMatrix::from_vectors(9, vec![z0, z1, z2, z3, z4, z5]);
    let x_code = LinearCode::from_parity_check_matrix(hx);
    let z_code = LinearCode::from_parity_check_matrix(hz);
    proof {
        assert(rows_orthogonal(x_code.pcm()@, z_code.pcm()@)) by {
            assert forall|i: int, j: int| 0 <= i < 2 && 0 <= j < 6 implies !dot_bits(
                #[trigger] x_code.pcm()@[i],
                #[trigger] z_code.pcm()@[j],
            ) by {
                reveal_with_fuel(common_ones, 10);
            }
        }
    }
    CssCode::from_orthogonal(x_code, z_code)
}

/// Row `(a, b)` of `Hx = [H1 ⊗ I | I ⊗ H2ᵀ]` in the hypergraph product of
/// the checks `h1` (`m1 × n1`) and `h2` (`m2 × n2`): qubit `j * n2 + e` of
/// the first block is set when `e == b` and `h1[a][j]`, qubit
/// `n1 * n2 + g * m2 + k` of the second when `g == a` and `h2[k][b]`.
pub open spec fn product_x_row(
    h1: Seq<Seq<bool>>,
    h2: Seq<Seq<bool>>,
    n1: int,
    n2: int,
    m1: int,
    m2: int,
    a: int,
    b: int,
) -> Seq<bool> {
    Seq::new(
        (n1 * n2 + m1 * m2) as nat,
        |q: int|
            if q < n1 * n2 {
                q % n2 == b && h1[a][q / n2]
            } else {
                (q - n1 * n2) / m2 == a && h2[(q - n1 * n2) % m2][b]
            },
    )
}

/// Row `(c, d)` of `Hz = [I ⊗ H2 | H1ᵀ ⊗ I]`: qubit `j * n2 + e` of the
/// first block is set when `j == c` and `h2[d][e]`, qubit
/// `n1 * n2 + g * m2 + k` of the second when `k == d` and `h1[g][c]`.
pub open spec fn product_z_row(
    h1: Seq<Seq<bool>>,
    h2: Seq<Seq<bool>>,
    n1: int,
    n2: int,
    m1: int,
    m2: int,
    c: int,
    d: int,
) -> Seq<bool> {
    Seq::new(
        (n1 * n2 + m1 * m2) as nat,
        |q: int|
            if q < n1 * n2 {
                q / n2 == c && h2[d][q % n2]
            } else {
                (q - n1 * n2) % m2 == d && h1[(q - n1 * n2) / m2][c]
            },
    )
}

/// Every X row of the hypergraph product is orthogonal to every Z row: they
/// meet in qubits `c * n2 + b` and `n1 * n2 + a * m2 + d` only, and both
/// hold `h1[a][c] && h2[d][b]`.
pub proof fn lemma_product_rows_orthogonal(
    h1: Seq<Seq<bool>>,
    h2: Seq<Seq<bool>>,
    n1: int,
    n2: int,
    m1: int,
    m2: int,
    a: int,
    b: int,
    c: int,
    d: int,
)
    requires
        0 <= a < m1,
        0 <= b < n2,
        0 <= c < n1,
        0 <= d < m2,
    ensures
        !dot_bits(product_x_row(h1, h2, n1, n2, m1, m2, a, b), product_z_row(h1, h2, n1, n2, m1, m2, c, d)),
{
    let x = product_x_row(h1, h2, n1, n2, m1, m2, a, b);
    let z = product_z_row(h1, h2, n1, n2, m1, m2, c, d);
    let big = n1 * n2;
    let first_hit = c * n2 + b;
    let second_hit = big + a * m2 + d;
    assert(first_hit < big) by (nonlinear_arith)
        requires
            0 <= c < n1,
            0 <= b < n2,
            first_hit == c * n2 + b,
            big == n1 * n2,
    ;
    assert(a * m2 + d < m1 * m2) by (nonlinear_arith)
        requires
            0 <= a < m1,
            0 <= d < m2,
    ;
    assert(0 <= a * m2) by (nonlinear_arith)
        requires
            0 <= a,
            0 <= m2,
    ;
    lemma_fundamental_div_mod_converse(first_hit, n2, c, b);
    lemma_fundamental_div_mod_converse(second_hit - big, m2, a, d);
    assert forall|q: int| 0 <= q < x.len() && q != first_hit && q != second_hit implies !(x[q] && z[q]) by {
        if x[q] && z[q] {
            if q < big {
                lemma_fundamental_div_mod(q, n2);
                assert(q == n2 * c + b);
                assert(q == first_hit) by (nonlinear_arith)
                    requires
                        q == n2 * c + b,
                        first_hit == c * n2 + b,
                ;
            } else {
                lemma_fundamental_div_mod(q - big, m2);
                assert(q - big == m2 * a + d);
                assert(q == second_hit) by (nonlinear_arith)
                    requires
                        q - big == m2 * a + d,
                        second_hit == big + a * m2 + d,
                ;
            }
        }
    }
    lemma_common_hits(x, z, first_hit, second_hit, x.len() as int);
}

/// The bits of row `(a, b)` of `Hx` in the hypergraph product.
fn product_x_bits(h1: &BinaryMatrix, h2: &BinaryMatrix, a: usize, b: usize, total: usize) -> (bits: Vec<bool>)
    requires
        h1.wf(),
        h2.wf(),
        a < h1.nrows(),
        b < h2.ncols(),
        total == h1.ncols() * h2.ncols() + h1.nrows() * h2.nrows(),
    ensures
        bits@ == product_x_row(
            h1@,
            h2@,
            h1.ncols() as int,
            h2.ncols() as int,
            h1.nrows() as int,
            h2.nrows() as int,
            a as int,
            b as int,
        ),
{
    let n1 = h1.num_columns();
    let n2 = h2.num_columns();
    let m1 = h1.num_rows();
    let m2 = h2.num_rows();
    let ghost target = product_x_row(h1@, h2@, n1 as int, n2 as int, m1 as int, m2 as int, a as int, b as int);
    assert(n1 * n2 <= total) by (nonlinear_arith)
        requires
            total == n1 * n2 + m1 * m2,
            0 <= m1,
            0 <= m2,
    ;
    let block = n1 * n2;
    let rows1 = h1.rows();
    let rows2 = h2.rows();
    let mut bits: Vec<bool> = Vec::new();
    let mut q: usize = 0;
    while q < total
        invariant
            h1.wf(),
            h2.wf(),
            rows1@ == h1.row_vecs(),
            rows2@ == h2.row_vecs(),
            a < m1,
            b < n2,
            n1 == h1.ncols(),
            n2 == h2.ncols(),
            m1 == h1.nrows(),
            m2 == h2.nrows(),
            block == n1 * n2,
            total == block + m1 * m2,
            target == product_x_row(h1@, h2@, n1 as int, n2 as int, m1 as int, m2 as int, a as int, b as int),
            q <= total,
            bits@ =~= target.subrange(0, q as int),
        decreases total - q,
    {
        let bit = if q < block {
            assert(n2 > 0) by (nonlinear_arith)
                requires
                    q < block,
                    block == n1 * n2,
                    0 <= q,
            ;
            let j = q / n2;
            assert(j < n1) by (nonlinear_arith)
                requires
                    q < n1 * n2,
                    j == q / n2,
                    n2 > 0,
            ;
            q % n2 == b && rows1[a].has_position(j)
        } else {
            let r = q - block;
            assert(m2 > 0) by (nonlinear_arith)
                requires
                    r < m1 * m2,
                    0 <= r,
            ;
            let k = r % m2;
            r / m2 == a && rows2[k].has_position(b)
        };
        assert(bit == target[q as int]) by {
            if q < block {
                assert(h1@[a as int] == rows1@[a as int]@);
            } else {
                assert(h2@[(q - block) as int % m2 as int] == rows2@[(q - block) as int % m2 as int]@);
            }
        }
        bits.push(bit);
        q = q + 1;
    }
    assert(bits@ =~= target);
    bits
}

/// The bits of row `(c, d)` of `Hz` in the hypergraph product.
fn product_z_bits(h1: &BinaryMatrix, h2: &BinaryMatrix, c: usize, d: usize, total: usize) -> (bits: Vec<bool>)
    requires
        h1.wf(),
        h2.wf(),
        c < h1.ncols(),
        d < h2.nrows(),
        total == h1.ncols() * h2.ncols() + h1.nrows() * h2.nrows(),
    ensures
        bits@ == product_z_row(
            h1@,
            h2@,
            h1.ncols() as int,
            h2.ncols() as int,
            h1.nrows() as int,
            h2.nrows() as int,
            c as int,
            d as int,
        ),
{
    let n1 = h1.num_columns();
    let n2 = h2.num_columns();
    let m1 = h1.num_rows();
    let m2 = h2.num_rows();
    let ghost target = product_z_row(h1@, h2@, n1 as int, n2 as int, m1 as int, m2 as int, c as int, d as int);
    assert(n1 * n2 <= total) by (nonlinear_arith)
        requires
            total == n1 * n2 + m1 * m2,
            0 <= m1,
            0 <= m2,
    ;
    let block = n1 * n2;
    let rows1 = h1.rows();
    let rows2 = h2.rows();
    let mut bits: Vec<bool> = Vec::new();
    let mut q: usize = 0;
    while q < total
        invariant
            h1.wf(),
            h2.wf(),
            rows1@ == h1.row_vecs(),
            rows2@ == h2.row_vecs(),
            c < n1,
            d < m2,
            n1 == h1.ncols(),
            n2 == h2.ncols(),
            m1 == h1.nrows(),
            m2 == h2.nrows(),
            block == n1 * n2,
            total == block + m1 * m2,
            target == product_z_row(h1@, h2@, n1 as int, n2 as int, m1 as int, m2 as int, c as int, d as int),
            q <= total,
            bits@ =~= target.subrange(0, q as int),
        decreases total - q,
    {
        let bit = if q < block {
            assert(n2 > 0) by (nonlinear_arith)
                requires
                    q < block,
                    block == n1 * n2,
                    0 <= q,
            ;
            let e = q % n2;
            q / n2 == c && rows2[d].has_position(e)
        } else {
            let r = q - block;
            assert(m2 > 0) by (nonlinear_arith)
                requires
                    r < m1 * m2,
                    0 <= r,
            ;
            let g = r / m2;
            assert(g < m1) by (nonlinear_arith)
                requires
                    r < m1 * m2,
                    g == r / m2,
                    m2 > 0,
            ;
            r % m2 == d && rows1[g].has_position(c)
        };
        assert(bit == target[q as int]) by {
            if q < block {
                assert(h2@[d as int] == rows2@[d as int]@);
            } else {
                assert(h1@[(q - block) as int / m2 as int] == rows1@[(q - block) as int / m2 as int]@);
            }
        }
        bits.push(bit);
        q = q + 1;
    }
    assert(bits@ =~= target);
    bits
}

/// The hypergraph product of two codes with checks `H1` (`m1 × n1`) and
/// `H2` (`m2 × n2`): the CSS code on `n1 * n2 + m1 * m2` qubits with
/// `Hx = [H1 ⊗ I | I ⊗ H2ᵀ]` and `Hz = [I ⊗ H2 | H1ᵀ ⊗ I]`, whose rows are
/// indexed `(a, b)` and `(c, d)` in row-major order. Its orthogonality is
/// proved, not checked.
pub fn hypergraph_product(first_code: &LinearCode, second_code: &LinearCode) -> (r: CssCode)
    requires
        first_code.wf(),
        second_code.wf(),
        first_code.pcm().ncols() * second_code.pcm().ncols() + first_code.pcm().nrows() * second_code.pcm().nrows()
            <= usize::MAX,
    ensures
        r.wf(),
        r.len_spec() == first_code.pcm().ncols() * second_code.pcm().ncols() + first_code.pcm().nrows()
            * second_code.pcm().nrows(),
        ({
            let (h1, h2) = (first_code.pcm(), second_code.pcm());
            let (n1, n2, m1, m2) = (h1.ncols() as int, h2.ncols() as int, h1.nrows() as int, h2.nrows() as int);
            &&& r.hx().nrows() == m1 * n2
            &&& forall|i: int| 0 <= i < m1 * n2 ==> #[trigger] r.hx()@[i] == product_x_row(h1@, h2@, n1, n2, m1, m2, i / n2, i % n2)
            &&& r.hz().nrows() == n1 * m2
            &&& forall|i: int| 0 <= i < n1 * m2 ==> #[trigger] r.hz()@[i] == product_z_row(h1@, h2@, n1, n2, m1, m2, i / m2, i % m2)
        }),
{
    let h1 = first_code.par_mat();
    let h2 = second_code.par_mat();
    let n1 = h1.num_columns();
    let n2 = h2.num_columns();
    let m1 = h1.num_rows();
    let m2 = h2.num_rows();
    proof {
        assert(0 <= n1 * n2 && 0 <= m1 * m2) by (nonlinear_arith)
            requires
                0 <= n1,
                0 <= n2,
                0 <= m1,
                0 <= m2,
        ;
    }
    let total = n1 * n2 + m1 * m2;
    let ghost (v1, v2) = (h1@, h2@);
    let mut xrows: Vec<BinaryVector> = Vec::new();
    let ghost mut xidx: Seq<(int, int)> = Seq::empty();
    let mut a: usize = 0;
    while a < m1
        invariant
            h1.wf(),
            h2.wf(),
            v1 == h1@,
            v2 == h2@,
            n1 == h1.ncols(),
            n2 == h2.ncols(),
            m1 == h1.nrows(),
            m2 == h2.nrows(),
            total == n1 * n2 + m1 * m2,
            a <= m1,
            xrows@.len() == xidx.len(),
            xidx.len() == a * n2,
            forall|i: int| 0 <= i < xidx.len() ==> #[trigger] xidx[i] == (i / n2 as int, i % n2 as int),
            rows_wf(xrows@, total as nat),
            forall|i: int|
                #![trigger xrows@[i]] #![trigger xidx[i]]
                0 <= i < xidx.len() ==> 0 <= xidx[i].0 < m1 && 0 <= xidx[i].1 < n2 && xrows@[i]@ == product_x_row(
                    v1,
                    v2,
                    n1 as int,
                    n2 as int,
                    m1 as int,
                    m2 as int,
                    xidx[i].0,
                    xidx[i].1,
                ),
        decreases m1 - a,
    {
        let mut b: usize = 0;
        while b < n2
            invariant
                h1.wf(),
                h2.wf(),
                v1 == h1@,
                v2 == h2@,
                n1 == h1.ncols(),
                n2 == h2.ncols(),
                m1 == h1.nrows(),
                m2 == h2.nrows(),
                total == n1 * n2 + m1 * m2,
                a < m1,
                b <= n2,
                xrows@.len() == xidx.len(),
                xidx.len() == a * n2 + b,
                forall|i: int| 0 <= i < xidx.len() ==> #[trigger] xidx[i] == (i / n2 as int, i % n2 as int),
                rows_wf(xrows@, total as nat),
                forall|i: int|
                    #![trigger xrows@[i]] #![trigger xidx[i]]
                    0 <= i < xidx.len() ==> 0 <= xidx[i].0 < m1 && 0 <= xidx[i].1 < n2 && xrows@[i]@ == product_x_row(
                        v1,
                        v2,
                        n1 as int,
                        n2 as int,
                        m1 as int,
                        m2 as int,
                        xidx[i].0,
                        xidx[i].1,
                    ),
            decreases n2 - b,
        {
            let bits = product_x_bits(h1, h2, a, b, total);
            let ghost old_rows = xrows@;
            let ghost old_idx = xidx;
            xrows.push(BinaryVector::from_bits(&bits));
            proof {
                lemma_fundamental_div_mod_converse(a * n2 + b, n2 as int, a as int, b as int);
                xidx = xidx.push((a as int, b as int));
                assert forall|i: int| 0 <= i < old_idx.len() implies xrows@[i] == old_rows[i] && xidx[i] == old_idx[i] by {}
                assert(xidx[old_idx.len() as int] == (old_idx.len() as int / n2 as int, old_idx.len() as int % n2 as int));
            }
            b = b + 1;
        }
        assert(a * n2 + n2 == (a + 1) * n2) by (nonlinear_arith);
        a = a + 1;
    }
    let mut zrows: Vec<BinaryVector> = Vec::new();
    let ghost mut zidx: Seq<(int, int)> = Seq::empty();
    let mut c: usize = 0;
    while c < n1
        invariant
            h1.wf(),
            h2.wf(),
            v1 == h1@,
            v2 == h2@,
            n1 == h1.ncols(),
            n2 == h2.ncols(),
            m1 == h1.nrows(),
            m2 == h2.nrows(),
            total == n1 * n2 + m1 * m2,
            c <= n1,
            zrows@.len() == zidx.len(),
            zidx.len() == c * m2,
            forall|i: int| 0 <= i < zidx.len() ==> #[trigger] zidx[i] == (i / m2 as int, i % m2 as int),
            rows_wf(zrows@, total as nat),
            forall|i: int|
                #![trigger zrows@[i]] #![trigger zidx[i]]
                0 <= i < zidx.len() ==> 0 <= zidx[i].0 < n1 && 0 <= zidx[i].1 < m2 && zrows@[i]@ == product_z_row(
                    v1,
                    v2,
                    n1 as int,
                    n2 as int,
                    m1 as int,
                    m2 as int,
                    zidx[i].0,
                    zidx[i].1,
                ),
        decreases n1 - c,
    {
        let mut d: usize = 0;
        while d < m2
            invariant
                h1.wf(),
                h2.wf(),
                v1 == h1@,
                v2 == h2@,
                n1 == h1.ncols(),
                n2 == h2.ncols(),
                m1 == h1.nrows(),
                m2 == h2.nrows(),
                total == n1 * n2 + m1 * m2,
                c < n1,
                d <= m2,
                zrows@.len() == zidx.len(),
                zidx.len() == c * m2 + d,
                forall|i: int| 0 <= i < zidx.len() ==> #[trigger] zidx[i] == (i / m2 as int, i % m2 as int),
                rows_wf(zrows@, total as nat),
                forall|i: int|
                    #![trigger zrows@[i]] #![trigger zidx[i]]
                    0 <= i < zidx.len() ==> 0 <= zidx[i].0 < n1 && 0 <= zidx[i].1 < m2 && zrows@[i]@ == product_z_row(
                        v1,
                        v2,
                        n1 as int,
                        n2 as int,
                        m1 as int,
                        m2 as int,
                        zidx[i].0,
                        zidx[i].1,
                    ),
            decreases m2 - d,
        {
            let bits = product_z_bits(h1, h2, c, d, total);
            let ghost old_rows = zrows@;
            let ghost old_idx = zidx;
            zrows.push(BinaryVector::from_bits(&bits));
            proof {
                lemma_fundamental_div_mod_converse(c * m2 + d, m2 as int, c as int, d as int);
                zidx = zidx.push((c as int, d as int));
                assert forall|i: int| 0 <= i < old_idx.len() implies zrows@[i] == old_rows[i] && zidx[i] == old_idx[i] by {}
                assert(zidx[old_idx.len() as int] == (old_idx.len() as int / m2 as int, old_idx.len() as int % m2 as int));
            }
            d = d + 1;
        }
        assert(c * m2 + m2 == (c + 1) * m2) by (nonlinear_arith);
        c = c + 1;
    }
    let hx = BinaryMatrix::from_vectors(total, xrows);
    let hz = BinaryMatrix::from_vectors(total, zrows);
    let x_code = LinearCode::from_parity_check_matrix(hx);
    let z_code = LinearCode::from_parity_check_matrix(hz);
    proof {
        assert forall|i: int, j: int| 0 <= i < x_code.pcm()@.len() && 0 <= j < z_code.pcm()@.len() implies !dot_bits(
            #[trigger] x_code.pcm()@[i],
            #[trigger] z_code.pcm()@[j],
        ) by {
            assert(x_code.pcm()@[i] == xrows@[i]@);
            assert(z_code.pcm()@[j] == zrows@[j]@);
            lemma_product_rows_orthogonal(
                v1,
                v2,
                n1 as int,
                n2 as int,
                m1 as int,
                m2 as int,
                xidx[i].0,
                xidx[i].1,
                zidx[j].0,
                zidx[j].1,
            );
        }
    }
    let r = CssCode::from_orthogonal(x_code, z_code);
    assert forall|i: int| 0 <= i < m1 * n2 implies #[trigger] r.hx()@[i] == product_x_row(v1, v2, n1 as int, n2 as int, m1 as int, m2 as int, i / n2 as int, i % n2 as int) by {
        assert(r.hx()@[i] == xrows@[i]@);
    }
    assert forall|i: int| 0 <= i < n1 * m2 implies #[trigger] r.hz()@[i] == product_z_row(v1, v2, n1 as int, n2 as int, m1 as int, m2 as int, i / m2 as int, i % m2 as int) by {
        assert(r.hz()@[i] == zrows@[i]@);
    }
    r
}

} // verus!
