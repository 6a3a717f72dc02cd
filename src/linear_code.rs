use vstd::prelude::*;
use crate::error::QecError;
use crate::kernel::{in_row_space, is_echelon_form_of, is_reduced_echelon, orthogonal_to_all};
use crate::matrix::{has_unit_columns, rows_wf, views_of, BinaryMatrix};
use crate::rng::Rng;
use vstd::arithmetic::div_mod::{lemma_fundamental_div_mod, lemma_fundamental_div_mod_converse};
use crate::vector::{dot_bits, lemma_common_symmetric, ones_below, xor_bits, zero_bits, BinaryVector};

verus! {

/// The smaller of two optional weights; a missing one is ignored.
pub open spec fn min_option(a: Option<nat>, b: Option<nat>) -> Option<nat> {
    match (a, b) {
        (Some(x), Some(y)) => Some(if x <= y { x } else { y }),
        (Some(x), None) => Some(x),
        (None, _) => b,
    }
}

/// The least weight of `acc` plus a sum of some of the rows from index `k`
/// on, where the sum must use at least one row unless `used` already holds;
/// `None` when no such sum exists.
pub open spec fn least_weight(rows: Seq<Seq<bool>>, k: int, acc: Seq<bool>, used: bool) -> Option<nat>
    decreases rows.len() - k,
{
    if k >= rows.len() {
        if used {
            Some(ones_below(acc, acc.len() as int))
        } else {
            None
        }
    } else {
        min_option(
            least_weight(rows, k + 1, acc, used),
            least_weight(rows, k + 1, xor_bits(acc, rows[k]), true),
        )
    }
}

/// An optional `usize` that stands for an optional natural number.
pub open spec fn same_option(r: Option<usize>, s: Option<nat>) -> bool {
    match (r, s) {
        (Some(x), Some(y)) => x == y,
        (None, None) => true,
        _ => false,
    }
}

/// Once a row has been used there is always a sum to weigh; before, there
/// is one exactly when some row is left.
proof fn lemma_least_weight_exists(rows: Seq<Seq<bool>>, k: int, acc: Seq<bool>, used: bool)
    requires
        0 <= k <= rows.len(),
    ensures
        least_weight(rows, k, acc, used) is Some <==> (used || k < rows.len()),
    decreases rows.len() - k,
{
    if k < rows.len() {
        lemma_least_weight_exists(rows, k + 1, acc, used);
        lemma_least_weight_exists(rows, k + 1, xor_bits(acc, rows[k]), true);
    }
}

/// A sequence with a one has at least one one.
proof fn lemma_ones_positive(bits: Seq<bool>, c: int, n: int)
    requires
        0 <= c < n,
        bits[c],
    ensures
        ones_below(bits, n) >= 1,
    decreases n,
{
    if c < n - 1 {
        lemma_ones_positive(bits, c, n - 1);
    }
}

/// When each row has a column of its own, every non-empty sum of rows has
/// a one, so the least weight is at least 1.
proof fn lemma_least_weight_positive(rows: Seq<Seq<bool>>, units: Seq<int>, k: int, acc: Seq<bool>, used: bool)
    requires
        has_unit_columns(rows, units),
        0 <= k <= rows.len(),
        forall|j: int| 0 <= j < rows.len() ==> (#[trigger] rows[j]).len() == acc.len(),
        forall|j: int| k <= j < rows.len() ==> !acc[#[trigger] units[j]],
        used ==> exists|c: int| 0 <= c < acc.len() && acc[c] && forall|j: int| k <= j < rows.len() ==> !(#[trigger] rows[j])[c],
    ensures
        least_weight(rows, k, acc, used) matches Some(w) ==> w >= 1,
    decreases rows.len() - k,
{
    if k >= rows.len() {
        if used {
            let c = choose|c: int| 0 <= c < acc.len() && acc[c] && forall|j: int| k <= j < rows.len() ==> !(#[trigger] rows[j])[c];
            lemma_ones_positive(acc, c, acc.len() as int);
        }
    } else {
        lemma_least_weight_positive(rows, units, k + 1, acc, used);
        let next = xor_bits(acc, rows[k]);
        let u = units[k];
        assert(rows[k].len() == acc.len());
        assert(next[u]);
        assert forall|j: int| k + 1 <= j < rows.len() implies !next[#[trigger] units[j]] by {
            assert(!rows[k][units[j]]);
        }
        assert forall|j: int| k + 1 <= j < rows.len() implies !(#[trigger] rows[j])[u] by {}
        lemma_least_weight_positive(rows, units, k + 1, next, true);
    }
}

/// Exhaustive search of all sums of rows from index `k` on.
fn least_weight_from(rows: &Vec<BinaryVector>, k: usize, acc: BinaryVector, used: bool) -> (r: Option<usize>)
    requires
        acc.wf(),
        rows_wf(rows@, acc@.len()),
        k <= rows@.len(),
    ensures
        same_option(r, least_weight(views_of(rows@), k as int, acc@, used)),
    decreases rows@.len() - k,
{
    if k == rows.len() {
        if used {
            Some(acc.weight())
        } else {
            None
        }
    } else {
        let kept = acc.clone();
        let without = least_weight_from(rows, k + 1, kept, used);
        let added = acc.xor(&rows[k]);
        assert(views_of(rows@)[k as int] == rows@[k as int]@);
        let with = least_weight_from(rows, k + 1, added, true);
        match (without, with) {
            (Some(a), Some(b)) => Some(if a <= b { a } else { b }),
            (Some(a), None) => Some(a),
            (None, _) => with,
        }
    }
}

/// A binary linear code, given by a parity-check matrix `H` and a generator
/// matrix `G` with `H · Gᵀ = 0`.
pub struct LinearCode {
    parity_check: BinaryMatrix,
    generator: BinaryMatrix,
}

impl LinearCode {
    /// The parity-check matrix.
    pub closed spec fn pcm(&self) -> BinaryMatrix {
        self.parity_check
    }

    /// The generator matrix.
    pub closed spec fn gm(&self) -> BinaryMatrix {
        self.generator
    }

    /// Both matrices are well formed with one number of columns, and every
    /// generator is orthogonal to every check.
    pub open spec fn wf(&self) -> bool {
        &&& self.pcm().wf()
        &&& self.gm().wf()
        &&& self.pcm().ncols() == self.gm().ncols()
        &&& forall|i: int, j: int|
            0 <= i < self.pcm().nrows() && 0 <= j < self.gm().nrows() ==> !dot_bits(#[trigger] self.pcm()@[i], #[trigger] self.gm()@[j])
    }

    /// The number of bits.
    pub open spec fn len_spec(&self) -> nat {
        self.pcm().ncols()
    }

    /// The generators are a basis of the kernel of the checks, as a
    /// nullspace gives it: they generate every vector orthogonal to all
    /// checks, they number the length minus the rank of the checks, and each
    /// has a one in a column where the others have none.
    pub open spec fn generators_span_kernel(&self) -> bool {
        &&& forall|x: Seq<bool>|
            x.len() == self.len_spec() && #[trigger] orthogonal_to_all(self.pcm()@, x) ==> in_row_space(self.gm()@, x, self.len_spec())
        &&& exists|e: Seq<Seq<bool>>, pc: Seq<usize>|
            is_echelon_form_of(e, pc, self.pcm()@, self.len_spec()) && self.gm().nrows() + e.len() == self.len_spec()
        &&& exists|units: Seq<int>| has_unit_columns(self.gm()@, units)
    }

    /// The code whose codewords are the kernel of `h`; its generators are a
    /// nullspace of `h`.
    pub fn from_parity_check_matrix(h: BinaryMatrix) -> (r: Self)
        requires
            h.wf(),
        ensures
            r.wf(),
            r.pcm() == h,
            r.gm().ncols() == h.ncols(),
            forall|j: int| 0 <= j < r.gm().nrows() ==> #[trigger] orthogonal_to_all(h@, r.gm()@[j]),
            r.generators_span_kernel(),
    {
        let g = h.nullspace();
        let code = LinearCode { parity_check: h, generator: g };
        assert forall|x: Seq<bool>|
            x.len() == code.len_spec() && #[trigger] orthogonal_to_all(code.pcm()@, x) implies in_row_space(code.gm()@, x, code.len_spec()) by {
            assert(orthogonal_to_all(h@, x));
        }
        proof {
            let (e, pc) = choose|e: Seq<Seq<bool>>, pc: Seq<usize>|
                is_echelon_form_of(e, pc, h@, h.ncols()) && g.nrows() + e.len() == h.ncols();
            assert(is_echelon_form_of(e, pc, code.pcm()@, code.len_spec()) && code.gm().nrows() + e.len() == code.len_spec());
        }
        proof {
            let units = choose|units: Seq<int>| has_unit_columns(g@, units);
            assert(has_unit_columns(code.gm()@, units));
        }
        assert forall|i: int, j: int|
            0 <= i < code.pcm().nrows() && 0 <= j < code.gm().nrows() implies !dot_bits(#[trigger] code.pcm()@[i], #[trigger] code.gm()@[j]) by {
            assert(orthogonal_to_all(code.pcm()@, code.gm()@[j]));
        }
        code
    }

    /// The code spanned by the rows of `g`: its checks are a nullspace of
    /// `g` and its generators a basis of their kernel, so that the codewords
    /// are exactly the sums of rows of `g`.
    pub fn from_generator_matrix(g: BinaryMatrix) -> (r: Self)
        requires
            g.wf(),
        ensures
            r.wf(),
            r.generators_span_kernel(),
            r.len_spec() == g.ncols(),
            forall|x: Seq<bool>|
                x.len() == g.ncols() ==> (#[trigger] orthogonal_to_all(r.pcm()@, x) <==> in_row_space(g@, x, g.ncols())),
    {
        let h = g.nullspace();
        let n = g.num_columns();
        let code = Self::from_parity_check_matrix(h);
        assert forall|x: Seq<bool>|
            x.len() == n implies (#[trigger] orthogonal_to_all(code.pcm()@, x) <==> in_row_space(g@, x, n as nat)) by {
            if in_row_space(g@, x, n as nat) {
                assert forall|i: int| 0 <= i < code.pcm()@.len() implies !dot_bits(#[trigger] code.pcm()@[i], x) by {
                    let z = code.pcm()@[i];
                    assert(code.pcm().row_vecs()[i]@.len() == n);
                    assert(orthogonal_to_all(g@, z));
                    assert(!dot_bits(x, z));
                    lemma_common_symmetric(x, z, n as int);
                }
            }
            if orthogonal_to_all(code.pcm()@, x) {
                assert forall|z: Seq<bool>| z.len() == n && #[trigger] orthogonal_to_all(g@, z) implies !dot_bits(x, z) by {
                    assert(in_row_space(code.pcm()@, z, n as nat));
                    assert(!dot_bits(z, x));
                    lemma_common_symmetric(x, z, n as int);
                }
            }
        }
        code
    }

    /// The code with both matrices given: fails when they have different
    /// numbers of columns or are not orthogonal. The generators kept are a
    /// basis of the kernel of `h`, derived from it as when `h` alone is given.
    pub fn from_matrices(h: BinaryMatrix, g: BinaryMatrix) -> (r: Result<Self, QecError>)
        requires
            h.wf(),
            g.wf(),
        ensures
            h.ncols() != g.ncols() ==> r == Err::<Self, QecError>(QecError::DimensionMismatch),
            h.ncols() == g.ncols() && !(forall|i: int, j: int|
                0 <= i < h.nrows() && 0 <= j < g.nrows() ==> !dot_bits(#[trigger] h@[i], #[trigger] g@[j]))
                ==> r == Err::<Self, QecError>(QecError::NotOrthogonal),
            h.ncols() == g.ncols() && (forall|i: int, j: int|
                0 <= i < h.nrows() && 0 <= j < g.nrows() ==> !dot_bits(#[trigger] h@[i], #[trigger] g@[j]))
                ==> (r matches Ok(c) && c.wf() && c.pcm() == h && c.generators_span_kernel()),
    {
        if h.num_columns() != g.num_columns() {
            return Err(QecError::DimensionMismatch);
        }
        if !h.rows_orthogonal_to(&g) {
            return Err(QecError::NotOrthogonal);
        }
        Ok(Self::from_parity_check_matrix(h))
    }

    /// The code built from whichever matrices are given: both (checked for
    /// orthogonality), one (the other is derived from it), or none (the
    /// empty code).
    pub fn new(par_mat: Option<BinaryMatrix>, gen_mat: Option<BinaryMatrix>) -> (r: Result<Self, QecError>)
        requires
            par_mat matches Some(h) ==> h.wf(),
            gen_mat matches Some(g) ==> g.wf(),
        ensures
            r matches Ok(c) ==> c.wf() && c.generators_span_kernel(),
            par_mat is Some && gen_mat is None ==> (r matches Ok(c) && c.pcm() == par_mat->0),
            par_mat is None && gen_mat is Some ==> (r matches Ok(c) && c.len_spec() == gen_mat->0.ncols()
                && forall|x: Seq<bool>|
                x.len() == c.len_spec() ==> (#[trigger] orthogonal_to_all(c.pcm()@, x) <==> in_row_space(
                    gen_mat->0@,
                    x,
                    c.len_spec(),
                ))),
            par_mat is None && gen_mat is None ==> (r matches Ok(c) && c.len_spec() == 0),
            par_mat is Some && gen_mat is Some ==> {
                let h = par_mat->0;
                let g = gen_mat->0;
                &&& h.ncols() != g.ncols() ==> r == Err::<Self, QecError>(QecError::DimensionMismatch)
                &&& h.ncols() == g.ncols() && !(forall|i: int, j: int|
                    0 <= i < h.nrows() && 0 <= j < g.nrows() ==> !dot_bits(#[trigger] h@[i], #[trigger] g@[j]))
                    ==> r == Err::<Self, QecError>(QecError::NotOrthogonal)
                &&& h.ncols() == g.ncols() && (forall|i: int, j: int|
                    0 <= i < h.nrows() && 0 <= j < g.nrows() ==> !dot_bits(#[trigger] h@[i], #[trigger] g@[j]))
                    ==> (r matches Ok(c) && c.pcm() == h)
            },
    {
        match (par_mat, gen_mat) {
            (Some(h), Some(g)) => Self::from_matrices(h, g),
            (Some(h), None) => Ok(Self::from_parity_check_matrix(h)),
            (None, Some(g)) => Ok(Self::from_generator_matrix(g)),
            (None, None) => Ok(Self::empty()),
        }
    }

    /// The code of length 0.
    pub fn empty() -> (r: Self)
        ensures
            r.wf(),
            r.len_spec() == 0,
            r.pcm().nrows() == 0,
            r.gm().nrows() == 0,
            r.generators_span_kernel(),
    {
        let code = Self::from_parity_check_matrix(BinaryMatrix::empty());
        proof {
            let (e, pc) = choose|e: Seq<Seq<bool>>, pc: Seq<usize>|
                is_echelon_form_of(e, pc, code.pcm()@, code.len_spec()) && code.gm().nrows() + e.len() == code.len_spec();
        }
        code
    }

    /// The parity-check matrix.
    pub fn par_mat(&self) -> (r: &BinaryMatrix)
        ensures
            r == self.pcm(),
    {
        &self.parity_check
    }

    /// The generator matrix.
    pub fn gen_mat(&self) -> (r: &BinaryMatrix)
        ensures
            r == self.gm(),
    {
        &self.generator
    }

    /// The number of bits.
    pub fn length(&self) -> (r: usize)
        ensures
            r == self.len_spec(),
    {
        self.parity_check.num_columns()
    }

    /// The number of encoded bits: the number of generators.
    pub fn dimension(&self) -> (r: usize)
        ensures
            r == self.gm().nrows(),
    {
        self.generator.num_rows()
    }

    /// The number of checks.
    pub fn num_checks(&self) -> (r: usize)
        ensures
            r == self.pcm().nrows(),
    {
        self.parity_check.num_rows()
    }

    /// The number of generators.
    pub fn num_generators(&self) -> (r: usize)
        ensures
            r == self.gm().nrows(),
    {
        self.generator.num_rows()
    }

    /// The syndrome `H · y`: fails unless `y` has the code's length.
    pub fn syndrome_of(&self, message: &BinaryVector) -> (r: Result<BinaryVector, QecError>)
        requires
            self.wf(),
            message.wf(),
        ensures
            message@.len() != self.len_spec() ==> r == Err::<BinaryVector, QecError>(QecError::DimensionMismatch),
            message@.len() == self.len_spec() ==> (r matches Ok(s) && s.wf()
                && s@ == Seq::new(self.pcm().nrows(), |i: int| dot_bits(self.pcm()@[i], message@))),
    {
        self.parity_check.dot_with_vector(message)
    }

    /// Whether `message` has the code's length and a zero syndrome.
    pub fn has_codeword(&self, message: &BinaryVector) -> (r: bool)
        requires
            self.wf(),
            message.wf(),
        ensures
            r == (message@.len() == self.len_spec() && orthogonal_to_all(self.pcm()@, message@)),
    {
        if message.len() != self.parity_check.num_columns() {
            return false;
        }
        let s = self.parity_check.times_vector(message);
        let z = s.is_zero();
        assert(z == orthogonal_to_all(self.pcm()@, message@)) by {
            if orthogonal_to_all(self.pcm()@, message@) {
                assert forall|i: int| 0 <= i < s@.len() implies s@[i] == zero_bits(s@.len())[i] by {
                    assert(!dot_bits(self.pcm()@[i], message@));
                }
                assert(s@ =~= zero_bits(s@.len()));
            }
            if z {
                assert forall|i: int| 0 <= i < self.pcm()@.len() implies !dot_bits(#[trigger] self.pcm()@[i], message@) by {
                    assert(s@[i] == zero_bits(s@.len())[i]);
                }
            }
        }
        z
    }

    /// The least weight of a sum of one or more generators, or `None` when
    /// the code has no generator. The search visits every such sum, so its
    /// cost doubles with each generator.
    pub fn minimal_distance(&self) -> (r: Option<usize>)
        requires
            self.wf(),
        ensures
            same_option(r, least_weight(self.gm()@, 0, zero_bits(self.len_spec()), false)),
            r is Some <==> self.gm().nrows() > 0,
            self.generators_span_kernel() && r is Some ==> r->0 >= 1,
    {
        let start = BinaryVector::zeros(self.generator.num_columns());
        proof {
            lemma_least_weight_exists(self.gm()@, 0, zero_bits(self.len_spec()), false);
            if self.generators_span_kernel() {
                let units = choose|units: Seq<int>| has_unit_columns(self.gm()@, units);
                assert forall|j: int| 0 <= j < self.gm()@.len() implies (#[trigger] self.gm()@[j]).len() == self.len_spec() by {
                    assert(self.gm().row_vecs()[j]@.len() == self.gm().ncols());
                }
                lemma_least_weight_positive(self.gm()@, units, 0, zero_bits(self.len_spec()), false);
            }
            assert(self.gm()@ == views_of(self.gm().row_vecs()));
        }
        least_weight_from_matrix(&self.generator, start)
    }

    /// Whether the two codes have the same codewords: every generator of
    /// each code is a codeword of the other.
    pub fn has_same_codespace(&self, other: &Self) -> (r: bool)
        requires
            self.wf(),
            other.wf(),
        ensures
            r == ((forall|j: int| #![trigger other.gm()@[j]] 0 <= j < other.gm().nrows() ==> other.gm()@[j].len() == self.len_spec()
                && orthogonal_to_all(self.pcm()@, other.gm()@[j]))
                && (forall|j: int| #![trigger self.gm()@[j]] 0 <= j < self.gm().nrows() ==> self.gm()@[j].len() == other.len_spec()
                && orthogonal_to_all(other.pcm()@, self.gm()@[j]))),
    {
        let a = self.has_all_codewords(&other.generator);
        let b = other.has_all_codewords(&self.generator);
        a && b
    }

    /// Whether every row of `m` is a codeword.
    fn has_all_codewords(&self, m: &BinaryMatrix) -> (r: bool)
        requires
            self.wf(),
            m.wf(),
        ensures
            r == forall|j: int| #![trigger m@[j]] 0 <= j < m.nrows() ==> m@[j].len() == self.len_spec() && orthogonal_to_all(self.pcm()@, m@[j]),
    {
        let rows = m.rows();
        let mut j: usize = 0;
        while j < rows.len()
            invariant
                self.wf(),
                m.wf(),
                rows@ == m.row_vecs(),
                j <= rows@.len(),
                forall|t: int| #![trigger m@[t]] 0 <= t < j ==> m@[t].len() == self.len_spec() && orthogonal_to_all(self.pcm()@, m@[t]),
            decreases rows@.len() - j,
        {
            assert(m@[j as int] == rows@[j as int]@);
            if !self.has_codeword(&rows[j]) {
                assert(!(m@[j as int].len() == self.len_spec() && orthogonal_to_all(self.pcm()@, m@[j as int])));
                return false;
            }
            j = j + 1;
        }
        true
    }
}

/// The Hamming code of length 7: its checks are the three rows whose
/// columns are the seven non-zero 3-bit vectors.
pub fn hamming_code() -> (r: LinearCode)
    ensures
        r.wf(),
        r.generators_span_kernel(),
        r.gm().nrows() == 4,
        r.len_spec() == 7,
        r.pcm().nrows() == 3,
        r.pcm()@[0] == seq![true, true, true, false, true, false, false],
        r.pcm()@[1] == seq![true, true, false, true, false, true, false],
        r.pcm()@[2] == seq![true, false, true, true, false, false, true],
{
    let a = BinaryVector::from_sorted(7, vec![0, 1, 2, 4]);
    let b = BinaryVector::from_sorted(7, vec![0, 1, 3, 5]);
    let c = BinaryVector::from_sorted(7, vec![0, 2, 3, 6]);
    assert(a@ =~= seq![true, true, true, false, true, false, false]) by {
        assert(seq![0usize, 1, 2, 4][3] == 4);
    }
    assert(b@ =~= seq![true, true, false, true, false, true, false]) by {
        assert(seq![0usize, 1, 3, 5][3] == 5);
    }
    assert(c@ =~= seq![true, false, true, true, false, false, true]) by {
        assert(seq![0usize, 2, 3, 6][3] == 6);
    }
    let h = BinaryMatrix::from_vectors(7, vec![a, b, c]);
    let code = LinearCode::from_parity_check_matrix(h);
    proof {
        lemma_hamming_dimension(code.pcm()@, code.gm().nrows());
    }
    code
}

/// The checks of the Hamming code have rank 3, so a code whose generators
/// span their kernel has 4 generators.
proof fn lemma_hamming_dimension(h: Seq<Seq<bool>>, k: nat)
    requires
        h.len() == 3,
        h[0] == seq![true, true, true, false, true, false, false],
        h[1] == seq![true, true, false, true, false, true, false],
        h[2] == seq![true, false, true, true, false, false, true],
        exists|e: Seq<Seq<bool>>, pc: Seq<usize>| is_echelon_form_of(e, pc, h, 7) && k + e.len() == 7,
    ensures
        k == 4,
{
    let (t, f) = (true, false);
    let e0 = seq![t, f, f, f, t, t, t];
    let e1 = seq![f, t, f, t, t, f, t];
    let e2 = seq![f, f, t, t, t, t, f];
    let e = seq![e0, e1, e2];
    let pc = seq![0usize, 1, 2];
    assert(e0 =~= xor_bits(xor_bits(h[0], h[1]), h[2]));
    assert(e1 =~= xor_bits(h[2], h[0]));
    assert(e2 =~= xor_bits(h[1], h[0]));
    assert(is_reduced_echelon(e, pc, 7)) by {
        assert(e[0] == e0 && e[1] == e1 && e[2] == e2);
        assert(pc[0] == 0 && pc[1] == 1 && pc[2] == 2);
    }
    assert forall|x: Seq<bool>| x.len() == 7 implies (#[trigger] orthogonal_to_all(e, x) <==> orthogonal_to_all(h, x)) by {
        crate::vector::lemma_common_xor(h[0], h[1], x, 7);
        crate::vector::lemma_common_xor(xor_bits(h[0], h[1]), h[2], x, 7);
        crate::vector::lemma_common_xor(h[2], h[0], x, 7);
        crate::vector::lemma_common_xor(h[1], h[0], x, 7);
        assert(e[0] == e0 && e[1] == e1 && e[2] == e2);
        assert(xor_bits(h[0], h[1]).len() == 7);
    }
    let (e2x, pc2) = choose|e: Seq<Seq<bool>>, pc: Seq<usize>| is_echelon_form_of(e, pc, h, 7) && k + e.len() == 7;
    crate::kernel::lemma_echelon_unique(e, pc, e2x, pc2, h, 7);
}

/// Bit `i` equals the last bit when every bit equals the next one.
proof fn lemma_chain(x: Seq<bool>, n: int, i: int)
    requires
        0 <= i < n,
        x.len() == n,
        forall|j: int| 0 <= j < n - 1 ==> #[trigger] x[j] == x[j + 1],
    ensures
        x[i] == x[n - 1],
    decreases n - 1 - i,
{
    if i < n - 1 {
        lemma_chain(x, n, i + 1);
        assert(x[i] == x[i + 1]);
    }
}

/// The checks of the repetition code of length `n >= 1` have rank
/// `n - 1`, so a code whose generators span their kernel has one generator.
proof fn lemma_repetition_dimension(h: Seq<Seq<bool>>, n: nat, k: nat)
    requires
        n >= 1,
        n <= usize::MAX,
        h.len() == n - 1,
        forall|i: int| 0 <= i < n - 1 ==> (#[trigger] h[i]).len() == n,
        forall|i: int, j: int| 0 <= i < n - 1 && 0 <= j < n ==> #[trigger] h[i][j] == (j == i || j == i + 1),
        exists|e: Seq<Seq<bool>>, pc: Seq<usize>| is_echelon_form_of(e, pc, h, n) && k + e.len() == n,
    ensures
        k == 1,
{
    let last = n - 1;
    let e = Seq::new((n - 1) as nat, |i: int| Seq::new(n, |t: int| t == i || t == last));
    let pc = Seq::new((n - 1) as nat, |i: int| i as usize);
    assert(is_reduced_echelon(e, pc, n)) by {
        assert forall|i: int| 0 <= i < e.len() implies (#[trigger] e[i]).len() == n && crate::kernel::leads_at(e[i], pc[i] as int) by {}
    }
    assert forall|x: Seq<bool>| x.len() == n implies (#[trigger] orthogonal_to_all(e, x) <==> orthogonal_to_all(h, x)) by {
        assert forall|i: int| 0 <= i < n - 1 implies dot_bits(#[trigger] h[i], x) == (x[i] != x[i + 1]) by {
            crate::kernel::lemma_common_hits(h[i], x, i, i + 1, n as int);
        }
        assert forall|i: int| 0 <= i < n - 1 implies dot_bits(#[trigger] e[i], x) == (x[i] != x[last as int]) by {
            crate::kernel::lemma_common_hits(e[i], x, i, last as int, n as int);
        }
        if orthogonal_to_all(h, x) {
            assert forall|j: int| 0 <= j < n - 1 implies #[trigger] x[j] == x[j + 1] by {
                assert(!dot_bits(h[j], x));
            }
            assert forall|i: int| 0 <= i < e.len() implies !dot_bits(#[trigger] e[i], x) by {
                lemma_chain(x, n as int, i);
            }
        }
        if orthogonal_to_all(e, x) {
            assert forall|i: int| 0 <= i < h.len() implies !dot_bits(#[trigger] h[i], x) by {
                assert(!dot_bits(e[i], x));
                if i + 1 < n - 1 {
                    assert(!dot_bits(e[i + 1], x));
                }
            }
        }
    }
    let (e2, pc2) = choose|e: Seq<Seq<bool>>, pc: Seq<usize>| is_echelon_form_of(e, pc, h, n) && k + e.len() == n;
    crate::kernel::lemma_echelon_unique(e, pc, e2, pc2, h, n);
}

/// The repetition code of length `length`: `length - 1` checks, check `i`
/// joining bits `i` and `i + 1`.
pub fn repetition_code(length: usize) -> (r: LinearCode)
    ensures
        r.wf(),
        r.generators_span_kernel(),
        r.gm().nrows() == (if length == 0 { 0nat } else { 1nat }),
        r.len_spec() == length,
        r.pcm().nrows() == if length == 0 { 0 } else { length - 1 },
        forall|i: int, j: int| 0 <= i < r.pcm().nrows() && 0 <= j < length ==> #[trigger] r.pcm()@[i][j] == (j == i || j == i + 1),
{
    let n = if length == 0 { 0 } else { length - 1 };
    let mut rows: Vec<BinaryVector> = Vec::new();
    let mut i: usize = 0;
    while i < n
        invariant
            n == if length == 0 { 0 } else { length - 1 },
            i <= n,
            rows@.len() == i,
            rows_wf(rows@, length as nat),
            forall|k: int, j: int| #![trigger rows@[k]@[j]] 0 <= k < i && 0 <= j < length ==> rows@[k]@[j] == (j == k || j == k + 1),
        decreases n - i,
    {
        let v = BinaryVector::from_sorted(length, vec![i, i + 1]);
        assert forall|j: int| 0 <= j < length implies v@[j] == (j == i || j == i + 1) by {
            let s = seq![i, (i + 1) as usize];
            assert(s[0] == i && s[1] == i + 1);
            if s.contains(j as usize) {
                let t = choose|t: int| 0 <= t < 2 && s[t] == j as usize;
            }
        }
        rows.push(v);
        i = i + 1;
    }
    let h = BinaryMatrix::from_vectors(length, rows);
    let code = LinearCode::from_parity_check_matrix(h);
    proof {
        if length >= 1 {
            assert forall|i: int| 0 <= i < length - 1 implies (#[trigger] code.pcm()@[i]).len() == length by {
                assert(code.pcm().row_vecs()[i]@.len() == code.pcm().ncols());
            }
            lemma_repetition_dimension(code.pcm()@, length as nat, code.gm().nrows());
        } else {
            let (e, pc) = choose|e: Seq<Seq<bool>>, pc: Seq<usize>|
                is_echelon_form_of(e, pc, code.pcm()@, code.len_spec()) && code.gm().nrows() + e.len() == code.len_spec();
        }
    }
    code
}

/// Distinct values below `n`, one per slot.
pub open spec fn is_arrangement(order: Seq<usize>, n: nat) -> bool {
    &&& order.len() == n
    &&& forall|u: int| 0 <= u < n ==> #[trigger] order[u] < n
    &&& forall|u: int, v: int| 0 <= u < n && 0 <= v < n && u != v ==> #[trigger] order[u] != #[trigger] order[v]
}

/// Fewer than `n` steps around a cycle of `n` slots never come back.
proof fn lemma_cyclic_distinct(s: int, t: int, e: int, n: int)
    requires
        0 <= t < e < n,
        0 <= s,
    ensures
        (s + t) % n != (s + e) % n,
{
    lemma_fundamental_div_mod(s + t, n);
    lemma_fundamental_div_mod(s + e, n);
    if (s + t) % n == (s + e) % n {
        let k = (s + e) / n - (s + t) / n;
        assert(e - t == n * k) by (nonlinear_arith)
            requires
                s + t == n * ((s + t) / n) + (s + t) % n,
                s + e == n * ((s + e) / n) + (s + e) % n,
                (s + t) % n == (s + e) % n,
                k == (s + e) / n - (s + t) / n,
        ;
        assert(false) by (nonlinear_arith)
            requires
                e - t == n * k,
                0 < e - t < n,
        ;
    }
}

/// The next slot around a cycle of `n` slots.
proof fn lemma_cyclic_step(x: int, n: int)
    requires
        0 <= x,
        0 < n,
    ensures
        (if x % n + 1 == n { 0 } else { x % n + 1 }) == (x + 1) % n,
{
    lemma_fundamental_div_mod(x, n);
    let q = x / n;
    let r = x % n;
    assert(0 <= r < n) by {
        vstd::arithmetic::div_mod::lemma_mod_bound(x, n);
    }
    if r + 1 == n {
        assert(x + 1 == (q + 1) * n + 0) by (nonlinear_arith)
            requires
                x == n * q + r,
                r + 1 == n,
        ;
        lemma_fundamental_div_mod_converse(x + 1, n, q + 1, 0);
    } else {
        assert(x + 1 == q * n + (r + 1)) by (nonlinear_arith)
            requires
                x == n * q + r,
        ;
        lemma_fundamental_div_mod_converse(x + 1, n, q, r + 1);
    }
}

/// Slot `k` steps after `start` around a cycle of `n` slots.
pub open spec fn cyclic_slot(start: int, k: int, n: int) -> int {
    (start + k) % n
}

/// The bits of one check: ones at the `degree` slots from `start` on,
/// counted cyclically, of the arrangement `order`. Returns them with the
/// slot after the last one used.
fn check_bits(order: &Vec<usize>, start: usize, degree: usize) -> (r: (Vec<bool>, usize))
    requires
        is_arrangement(order@, order@.len()),
        degree <= order@.len(),
        order@.len() > 0 ==> start < order@.len(),
    ensures
        r.0@.len() == order@.len(),
        ones_below(r.0@, order@.len() as int) == degree,
        order@.len() > 0 ==> r.1 < order@.len(),
        order@.len() > 0 ==> r.1 == cyclic_slot(start as int, degree as int, order@.len() as int),
        forall|u: int|
            0 <= u < order@.len() ==> (#[trigger] r.0@[u] <==> exists|k: int|
                #![trigger cyclic_slot(start as int, k, order@.len() as int)]
                0 <= k < degree && order@[cyclic_slot(start as int, k, order@.len() as int)] == u),
{
    let n = order.len();
    let mut bits: Vec<bool> = Vec::new();
    let mut t: usize = 0;
    while t < n
        invariant
            t <= n,
            bits@ =~= zero_bits(t as nat),
        decreases n - t,
    {
        bits.push(false);
        t = t + 1;
    }
    proof {
        assert forall|u: int| 0 <= u < n implies !bits@[u] by {}
        crate::vector::lemma_no_ones(bits@, n as int);
    }
    let mut slot = start;
    let mut e: usize = 0;
    proof {
        if n > 0 {
            lemma_fundamental_div_mod_converse(start as int, n as int, 0, start as int);
        }
    }
    while e < degree
        invariant
            n == order@.len(),
            is_arrangement(order@, n as nat),
            degree <= n,
            n > 0 ==> start < n,
            e <= degree,
            bits@.len() == n,
            n > 0 ==> slot == (start + e) % (n as int),
            n > 0 ==> slot < n,
            ones_below(bits@, n as int) == e,
            forall|u: int| 0 <= u < n ==> (#[trigger] bits@[u] <==> exists|k: int| #![trigger cyclic_slot(start as int, k, n as int)] 0 <= k < e && order@[cyclic_slot(start as int, k, n as int)] == u),
        decreases degree - e,
    {
        let p = order[slot];
        let ghost before = bits@;
        assert(!before[p as int]) by {
            if before[p as int] {
                let k = choose|k: int| #![trigger cyclic_slot(start as int, k, n as int)] 0 <= k < e && order@[cyclic_slot(start as int, k, n as int)] == p as int;
                lemma_cyclic_distinct(start as int, k, e as int, n as int);
                assert(0 <= cyclic_slot(start as int, k, n as int) < n);
            }
        }
        bits.set(p, true);
        proof {
            crate::vector::lemma_ones_differ_at(bits@, before, p as int, n as int);
            lemma_cyclic_step(start + e, n as int);
        }
        assert forall|u: int| 0 <= u < n implies (#[trigger] bits@[u] <==> exists|k: int| #![trigger cyclic_slot(start as int, k, n as int)] 0 <= k < e + 1 && order@[cyclic_slot(start as int, k, n as int)] == u) by {
            if u == p {
                assert(order@[cyclic_slot(start as int, e as int, n as int)] == u);
            } else {
                assert(bits@[u] == before[u]);
                if exists|k: int| #![trigger cyclic_slot(start as int, k, n as int)] 0 <= k < e + 1 && order@[cyclic_slot(start as int, k, n as int)] == u {
                    let k = choose|k: int| #![trigger cyclic_slot(start as int, k, n as int)] 0 <= k < e + 1 && order@[cyclic_slot(start as int, k, n as int)] == u;
                    assert(k != e);
                }
            }
        }
        slot = if slot + 1 == n { 0 } else { slot + 1 };
        e = e + 1;
    }
    (bits, slot)
}

/// The arrangement after the first `t` steps of a shuffle of `start`: step
/// `i` swaps the entries at `start.len() - 1 - i` and `swaps[i]`.
pub open spec fn swap_steps(start: Seq<usize>, swaps: Seq<usize>, t: int) -> Seq<usize>
    decreases t,
{
    if t <= 0 {
        start
    } else {
        let p = swap_steps(start, swaps, t - 1);
        let a = start.len() - t;
        let j = swaps[t - 1] as int;
        p.update(a, p[j]).update(j, p[a])
    }
}

/// The arrangement `0, 1, ..., n - 1`.
pub open spec fn identity_arrangement(n: nat) -> Seq<usize> {
    Seq::new(n, |i: int| i as usize)
}

/// The number of shuffle steps for `n` bits.
pub open spec fn shuffle_steps(n: nat) -> nat {
    if n == 0 {
        0
    } else {
        (n - 1) as nat
    }
}

/// Check `c` of a regular code built on the arrangement `arr` of `n` bits
/// holds bit `u`: `u` stands at one of the `degree` slots from
/// `c * degree` on, counted cyclically.
pub open spec fn check_holds(arr: Seq<usize>, c: int, degree: int, n: int, u: int) -> bool {
    exists|e: int| #![trigger cyclic_slot(c * degree, e, n)] 0 <= e < degree && arr[cyclic_slot(c * degree, e, n)] == u
}

/// Slots counted from a start reduced modulo `n` are the slots counted from
/// the start itself.
proof fn lemma_cyclic_slot_reduce(x: int, k: int, n: int)
    requires
        0 <= x,
        0 <= k,
        0 < n,
    ensures
        cyclic_slot(x % n, k, n) == cyclic_slot(x, k, n),
{
    vstd::arithmetic::div_mod::lemma_add_mod_noop(x, k, n);
    vstd::arithmetic::div_mod::lemma_add_mod_noop_right(x % n, k, n);
    vstd::arithmetic::div_mod::lemma_mod_bound(x, n);
    lemma_fundamental_div_mod_converse(x % n, n, 0, x % n);
}

/// The regular code of `random_regular_code`, built from the shuffle's
/// draws: step `t` of the shuffle swaps the bit at slot
/// `num_bits - 1 - t` with the one at slot `swaps[t]`, which is below
/// `num_bits - t`. Check `c` then holds the bits at slots
/// `c * check_degree` to `(c + 1) * check_degree - 1`, counted cyclically.
/// Fails unless `num_bits * bit_degree` equals `num_checks * check_degree`
/// and `check_degree` is at most `num_bits`.
pub fn regular_code_from_swaps(
    num_bits: usize,
    num_checks: usize,
    bit_degree: usize,
    check_degree: usize,
    swaps: &Vec<usize>,
) -> (r: Result<LinearCode, QecError>)
    requires
        swaps@.len() == shuffle_steps(num_bits as nat),
        forall|t: int| 0 <= t < swaps@.len() ==> #[trigger] swaps@[t] < num_bits - t,
    ensures
        (num_bits * bit_degree != num_checks * check_degree || check_degree > num_bits)
            ==> r == Err::<LinearCode, QecError>(QecError::IncompatibleDegrees),
        !(num_bits * bit_degree != num_checks * check_degree || check_degree > num_bits) ==> (r matches Ok(c)
            && c.wf() && c.generators_span_kernel() && c.len_spec() == num_bits && c.pcm().nrows() == num_checks
            && (forall|i: int| 0 <= i < num_checks ==> ones_below(#[trigger] c.pcm()@[i], num_bits as int) == check_degree)
            && (forall|i: int, u: int|
                0 <= i < num_checks && 0 <= u < num_bits ==> (#[trigger] c.pcm()@[i][u] <==> check_holds(
                    swap_steps(identity_arrangement(num_bits as nat), swaps@, swaps@.len() as int),
                    i,
                    check_degree as int,
                    num_bits as int,
                    u,
                )))),
{
    proof {
        let lim: int = 0xffff_ffff_ffff_ffff;
        assert(num_bits as int * bit_degree as int <= lim * lim) by (nonlinear_arith)
            requires
                0 <= num_bits as int <= lim,
                0 <= bit_degree as int <= lim,
        ;
        assert(num_checks as int * check_degree as int <= lim * lim) by (nonlinear_arith)
            requires
                0 <= num_checks as int <= lim,
                0 <= check_degree as int <= lim,
        ;
    }
    let edges_from_bits = (num_bits as u128) * (bit_degree as u128);
    let edges_from_checks = (num_checks as u128) * (check_degree as u128);
    if edges_from_bits != edges_from_checks || check_degree > num_bits {
        return Err(QecError::IncompatibleDegrees);
    }
    let n = num_bits;
    let mut order: Vec<usize> = Vec::new();
    let mut t: usize = 0;
    while t < n
        invariant
            t <= n,
            order@.len() == t,
            forall|k: int| 0 <= k < t ==> #[trigger] order@[k] == k,
        decreases n - t,
    {
        order.push(t);
        t = t + 1;
    }
    assert(order@ =~= identity_arrangement(n as nat));
    let mut step: usize = 0;
    while step < swaps.len()
        invariant
            n == num_bits,
            swaps@.len() == shuffle_steps(n as nat),
            forall|t: int| 0 <= t < swaps@.len() ==> #[trigger] swaps@[t] < n - t,
            step <= swaps@.len(),
            is_arrangement(order@, n as nat),
            order@ == swap_steps(identity_arrangement(n as nat), swaps@, step as int),
        decreases swaps@.len() - step,
    {
        let k = n - step;
        let j = swaps[step];
        let a = order[k - 1];
        let b = order[j];
        order.set(k - 1, b);
        order.set(j, a);
        step = step + 1;
    }
    let ghost arr = order@;
    let mut rows: Vec<BinaryVector> = Vec::new();
    let mut slot: usize = 0;
    let mut c: usize = 0;
    while c < num_checks
        invariant
            n == num_bits,
            check_degree <= n,
            is_arrangement(order@, n as nat),
            order@ == arr,
            n > 0 ==> slot < n,
            n > 0 ==> slot == (c * check_degree) % (n as int),
            c <= num_checks,
            rows@.len() == c,
            rows_wf(rows@, n as nat),
            forall|i: int| 0 <= i < c ==> ones_below(#[trigger] rows@[i]@, n as int) == check_degree,
            forall|i: int, u: int|
                0 <= i < c && 0 <= u < n ==> (#[trigger] rows@[i]@[u] <==> check_holds(arr, i, check_degree as int, n as int, u)),
        decreases num_checks - c,
    {
        let (bits, next) = check_bits(&order, slot, check_degree);
        proof {
            assert forall|u: int| 0 <= u < n implies (bits@[u] <==> check_holds(arr, c as int, check_degree as int, n as int, u)) by {
                if bits@[u] {
                    let k = choose|k: int| #![trigger cyclic_slot(slot as int, k, n as int)] 0 <= k < check_degree && order@[cyclic_slot(slot as int, k, n as int)] == u;
                    lemma_cyclic_slot_reduce(c * check_degree, k, n as int);
                    assert(arr[cyclic_slot(c * check_degree, k, n as int)] == u);
                }
                if check_holds(arr, c as int, check_degree as int, n as int, u) {
                    let k = choose|k: int| #![trigger cyclic_slot(c * check_degree, k, n as int)] 0 <= k < check_degree && arr[cyclic_slot(c * check_degree, k, n as int)] == u;
                    lemma_cyclic_slot_reduce(c * check_degree, k, n as int);
                    assert(order@[cyclic_slot(slot as int, k, n as int)] == u);
                }
            }
            if n > 0 {
                lemma_cyclic_slot_reduce(c * check_degree, check_degree as int, n as int);
                assert(c * check_degree + check_degree == (c + 1) * check_degree) by (nonlinear_arith);
            }
        }
        slot = next;
        let v = BinaryVector::from_bits(&bits);
        let ghost before = rows@;
        rows.push(v);
        proof {
            assert forall|i: int, u: int|
                0 <= i < c + 1 && 0 <= u < n implies (#[trigger] rows@[i]@[u] <==> check_holds(arr, i, check_degree as int, n as int, u)) by {
                if i < c {
                    assert(rows@[i] == before[i]);
                }
            }
        }
        c = c + 1;
    }
    let h = BinaryMatrix::from_vectors(num_bits, rows);
    let code = LinearCode::from_parity_check_matrix(h);
    assert forall|i: int| 0 <= i < num_checks implies ones_below(#[trigger] code.pcm()@[i], num_bits as int) == check_degree by {
        assert(code.pcm()@[i] == rows@[i]@);
    }
    assert forall|i: int, u: int|
        0 <= i < num_checks && 0 <= u < num_bits implies (#[trigger] code.pcm()@[i][u] <==> check_holds(
            arr,
            i,
            check_degree as int,
            num_bits as int,
            u,
        )) by {
        assert(code.pcm()@[i] == rows@[i]@);
    }
    Ok(code)
}

/// A random code whose Tanner graph joins each of `num_bits` bits to
/// `bit_degree` checks and each of `num_checks` checks to `check_degree`
/// bits: `regular_code_from_swaps` on a uniformly random shuffle, step `t`
/// drawing its swap below `num_bits - t`.
pub fn random_regular_code(
    num_bits: usize,
    num_checks: usize,
    bit_degree: usize,
    check_degree: usize,
    rng: &mut Rng,
) -> (r: Result<LinearCode, QecError>)
    ensures
        (num_bits * bit_degree != num_checks * check_degree || check_degree > num_bits)
            ==> r == Err::<LinearCode, QecError>(QecError::IncompatibleDegrees),
        !(num_bits * bit_degree != num_checks * check_degree || check_degree > num_bits) ==> (r matches Ok(c)
            && c.wf() && c.generators_span_kernel() && c.len_spec() == num_bits && c.pcm().nrows() == num_checks
            && forall|i: int| 0 <= i < num_checks ==> ones_below(#[trigger] c.pcm()@[i], num_bits as int) == check_degree),
{
    let steps = if num_bits == 0 { 0 } else { num_bits - 1 };
    let mut swaps: Vec<usize> = Vec::new();
    let mut t: usize = 0;
    while t < steps
        invariant
            steps == shuffle_steps(num_bits as nat),
            t <= steps,
            swaps@.len() == t,
            forall|i: int| 0 <= i < t ==> #[trigger] swaps@[i] < num_bits - i,
        decreases steps - t,
    {
        let j = rng.below_range(0, (num_bits - t) as u64);
        swaps.push(j as usize);
        t = t + 1;
    }
    regular_code_from_swaps(num_bits, num_checks, bit_degree, check_degree, &swaps)
}

/// The exhaustive search over the rows of a matrix.
fn least_weight_from_matrix(m: &BinaryMatrix, start: BinaryVector) -> (r: Option<usize>)
    requires
        m.wf(),
        start.wf(),
        start@ == zero_bits(m.ncols()),
    ensures
        same_option(r, least_weight(m@, 0, start@, false)),
{
    let rows = m.rows();
    let mut owned: Vec<BinaryVector> = Vec::new();
    let mut t: usize = 0;
    while t < rows.len()
        invariant
            m.wf(),
            rows@ == m.row_vecs(),
            t <= rows@.len(),
            owned@.len() == t,
            rows_wf(owned@, m.ncols()),
            forall|k: int| #![trigger owned@[k]] 0 <= k < t ==> owned@[k]@ == m@[k],
        decreases rows@.len() - t,
    {
        owned.push(rows[t].clone());
        t = t + 1;
    }
    assert(views_of(owned@) =~= m@);
    least_weight_from(&owned, 0, start, false)
}

} // verus!
