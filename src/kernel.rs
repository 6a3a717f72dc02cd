use vstd::prelude::*;
use crate::vector::{
    common_ones, dot_bits, lemma_common_symmetric, lemma_common_xor, lemma_common_zero, lemma_increasing_unique,
    strictly_increasing, xor_bits, zero_bits,
};

verus! {

/// `x` has a zero dot product with every row of `m`.
pub open spec fn orthogonal_to_all(m: Seq<Seq<bool>>, x: Seq<bool>) -> bool {
    forall|i: int| 0 <= i < m.len() ==> !dot_bits(#[trigger] m[i], x)
}

/// The vectors of length `n` orthogonal to every row are the same for `a` and `b`.
pub open spec fn same_kernel(a: Seq<Seq<bool>>, b: Seq<Seq<bool>>, n: nat) -> bool {
    forall|x: Seq<bool>| x.len() == n ==> (#[trigger] orthogonal_to_all(a, x) <==> orthogonal_to_all(b, x))
}

/// `v` has its first one at column `c`.
pub open spec fn leads_at(v: Seq<bool>, c: int) -> bool {
    &&& 0 <= c < v.len()
    &&& v[c]
    &&& forall|t: int| 0 <= t < c ==> !v[t]
}

/// `e` is in reduced row echelon form with `n` columns: row `i` leads at
/// column `pc[i]`, these columns increase from row to row, and no other row
/// has a one in a leading column.
pub open spec fn is_reduced_echelon(e: Seq<Seq<bool>>, pc: Seq<usize>, n: nat) -> bool {
    &&& n <= usize::MAX
    &&& pc.len() == e.len()
    &&& strictly_increasing(pc)
    &&& forall|i: int| 0 <= i < e.len() ==> (#[trigger] e[i]).len() == n && leads_at(e[i], pc[i] as int)
    &&& forall|i: int, j: int| #![trigger e[j][pc[i] as int]] 0 <= i < e.len() && 0 <= j < e.len() && i != j ==> !e[j][pc[i] as int]
}

/// `e` is a reduced echelon form, with leading columns `pc`, of the matrix
/// `m` with `n` columns: both have the same kernel.
pub open spec fn is_echelon_form_of(e: Seq<Seq<bool>>, pc: Seq<usize>, m: Seq<Seq<bool>>, n: nat) -> bool {
    is_reduced_echelon(e, pc, n) && same_kernel(e, m, n)
}

/// The kernel vector of a reduced echelon form attached to the non-leading
/// column `f`: a one at `f`, and at each leading column `pc[i]` the entry
/// `e[i][f]`.
pub open spec fn null_vector(e: Seq<Seq<bool>>, pc: Seq<usize>, f: int, n: nat) -> Seq<bool> {
    Seq::new(n, |t: int| t == f || exists|i: int| 0 <= i < pc.len() && pc[i] == t && e[i][f])
}

/// Some vector orthogonal to every row of `m` has a one at `c` and only
/// zeros after it.
pub open spec fn has_free_witness(m: Seq<Seq<bool>>, c: int, n: nat) -> bool {
    exists|x: Seq<bool>|
        x.len() == n && x[c] && (forall|t: int| c < t < n ==> !x[t]) && #[trigger] orthogonal_to_all(m, x)
}

/// The count of common ones when they can only stand at `a` or `b`.
pub proof fn lemma_common_hits(u: Seq<bool>, x: Seq<bool>, a: int, b: int, n: int)
    requires
        0 <= n,
        a != b,
        forall|t: int| 0 <= t < n && t != a && t != b ==> !(u[t] && x[t]),
    ensures
        common_ones(u, x, n) == (if 0 <= a < n && u[a] && x[a] { 1nat } else { 0nat }) + (if 0 <= b < n
            && u[b] && x[b] { 1nat } else { 0nat }),
    decreases n,
{
    if n > 0 {
        lemma_common_hits(u, x, a, b, n - 1);
    }
}

/// Rows that lead at `c` have an odd dot product with a vector that has a
/// one at `c` and zeros after it.
pub proof fn lemma_leading_detects(v: Seq<bool>, x: Seq<bool>, c: int)
    requires
        leads_at(v, c),
        x.len() == v.len(),
        x[c],
        forall|t: int| c < t < x.len() ==> !x[t],
    ensures
        dot_bits(v, x),
{
    lemma_common_hits(v, x, c, -1, v.len() as int);
}

/// The null vector of a non-leading column is orthogonal to every row.
pub proof fn lemma_null_vector_orthogonal(e: Seq<Seq<bool>>, pc: Seq<usize>, f: int, n: nat)
    requires
        is_reduced_echelon(e, pc, n),
        0 <= f < n,
        !pc.contains(f as usize),
    ensures
        orthogonal_to_all(e, null_vector(e, pc, f, n)),
        null_vector(e, pc, f, n)[f],
        forall|t: int| f < t < n ==> !(#[trigger] null_vector(e, pc, f, n)[t]),
{
    let v = null_vector(e, pc, f, n);
    assert forall|i: int| 0 <= i < e.len() implies !dot_bits(#[trigger] e[i], v) by {
        let c = pc[i] as int;
        assert(c != f) by {
            assert(pc[i] == pc[i]);
            if c == f {
                assert(pc.contains(f as usize));
            }
        }
        assert forall|t: int| 0 <= t < n && t != f && t != c implies !(e[i][t] && v[t]) by {
            if e[i][t] && v[t] {
                let j = choose|j: int| 0 <= j < pc.len() && pc[j] == t && e[j][f];
                assert(j != i);
                assert(!e[i][pc[j] as int]);
            }
        }
        assert(v[c] == e[i][f]) by {
            if v[c] {
                let j = choose|j: int| 0 <= j < pc.len() && pc[j] == c && e[j][f];
                if j != i {
                    if j < i {
                        assert(pc[j] < pc[i]);
                    } else {
                        assert(pc[i] < pc[j]);
                    }
                }
            }
        }
        lemma_common_hits(e[i], v, f, c, e[i].len() as int);
    }
    assert forall|t: int| f < t < n implies !(#[trigger] null_vector(e, pc, f, n)[t]) by {
        if null_vector(e, pc, f, n)[t] {
            let j = choose|j: int| 0 <= j < pc.len() && pc[j] == t && e[j][f];
            assert(leads_at(e[j], pc[j] as int));
        }
    }
}

/// A column leads some row of a reduced echelon form exactly when no kernel
/// vector has its last one there.
pub proof fn lemma_leading_iff_no_witness(e: Seq<Seq<bool>>, pc: Seq<usize>, n: nat, c: int)
    requires
        is_reduced_echelon(e, pc, n),
        0 <= c < n,
    ensures
        pc.contains(c as usize) <==> !has_free_witness(e, c, n),
{
    if pc.contains(c as usize) {
        let i = choose|i: int| 0 <= i < pc.len() && pc[i] == c as usize;
        if has_free_witness(e, c, n) {
            let x = choose|x: Seq<bool>|
                x.len() == n && x[c] && (forall|t: int| c < t < n ==> !x[t]) && #[trigger] orthogonal_to_all(e, x);
            assert(e[i].len() == n);
            lemma_leading_detects(e[i], x, c);
            assert(!dot_bits(e[i], x));
        }
    } else {
        lemma_null_vector_orthogonal(e, pc, c, n);
        let v = null_vector(e, pc, c, n);
        assert(v.len() == n && v[c] && (forall|t: int| c < t < n ==> !v[t]) && orthogonal_to_all(e, v));
    }
}

/// All reduced echelon forms of one matrix have the same leading columns,
/// hence the same number of rows.
pub proof fn lemma_echelon_unique(
    e1: Seq<Seq<bool>>,
    pc1: Seq<usize>,
    e2: Seq<Seq<bool>>,
    pc2: Seq<usize>,
    m: Seq<Seq<bool>>,
    n: nat,
)
    requires
        is_echelon_form_of(e1, pc1, m, n),
        is_echelon_form_of(e2, pc2, m, n),
    ensures
        pc1 == pc2,
        e1.len() == e2.len(),
{
    assert forall|c: usize| pc1.contains(c) <==> pc2.contains(c) by {
        if c < n {
            lemma_leading_iff_no_witness(e1, pc1, n, c as int);
            lemma_leading_iff_no_witness(e2, pc2, n, c as int);
            if has_free_witness(e1, c as int, n) {
                let x = choose|x: Seq<bool>|
                    x.len() == n && x[c as int] && (forall|t: int| c < t < n ==> !x[t]) && #[trigger] orthogonal_to_all(e1, x);
                assert(orthogonal_to_all(e1, x) == orthogonal_to_all(m, x));
                assert(orthogonal_to_all(e2, x) == orthogonal_to_all(m, x));
                assert(has_free_witness(e2, c as int, n));
            }
            if has_free_witness(e2, c as int, n) {
                let x = choose|x: Seq<bool>|
                    x.len() == n && x[c as int] && (forall|t: int| c < t < n ==> !x[t]) && #[trigger] orthogonal_to_all(e2, x);
                assert(orthogonal_to_all(e1, x) == orthogonal_to_all(m, x));
                assert(orthogonal_to_all(e2, x) == orthogonal_to_all(m, x));
                assert(has_free_witness(e1, c as int, n));
            }
        } else {
            if pc1.contains(c) {
                let i = choose|i: int| 0 <= i < pc1.len() && pc1[i] == c;
                assert(e1[i].len() == n);
            }
            if pc2.contains(c) {
                let i = choose|i: int| 0 <= i < pc2.len() && pc2[i] == c;
                assert(e2[i].len() == n);
            }
        }
    }
    lemma_increasing_unique(pc1, pc2);
}

/// Replacing each row that has a one at `col` by its sum with `p` keeps the
/// vectors orthogonal to `p` and to every row unchanged.
pub proof fn lemma_clear_keeps_kernel(
    before: Seq<Seq<bool>>,
    after: Seq<Seq<bool>>,
    p: Seq<bool>,
    col: int,
    x: Seq<bool>,
)
    requires
        after.len() == before.len(),
        forall|t: int| 0 <= t < before.len() ==> (#[trigger] before[t]).len() == p.len(),
        forall|t: int|
            0 <= t < before.len() ==> #[trigger] after[t] == if before[t][col] {
                xor_bits(before[t], p)
            } else {
                before[t]
            },
        !dot_bits(p, x),
    ensures
        orthogonal_to_all(before, x) <==> orthogonal_to_all(after, x),
{
    assert forall|t: int| 0 <= t < before.len() implies dot_bits(#[trigger] before[t], x) == dot_bits(after[t], x) by {
        if before[t][col] {
            lemma_common_xor(before[t], p, x, p.len() as int);
            assert(xor_bits(before[t], p).len() == before[t].len());
        }
    }
    if orthogonal_to_all(before, x) {
        assert forall|t: int| 0 <= t < after.len() implies !dot_bits(#[trigger] after[t], x) by {
            assert(dot_bits(before[t], x) == dot_bits(after[t], x));
        }
    }
    if orthogonal_to_all(after, x) {
        assert forall|t: int| 0 <= t < before.len() implies !dot_bits(#[trigger] before[t], x) by {
            assert(dot_bits(before[t], x) == dot_bits(after[t], x));
        }
    }
}

/// A row of zeros is orthogonal to everything.
pub proof fn lemma_zero_row_orthogonal(v: Seq<bool>, x: Seq<bool>)
    requires
        forall|t: int| 0 <= t < v.len() ==> !v[t],
    ensures
        !dot_bits(v, x),
{
    lemma_common_zero(v, x, v.len() as int);
}

/// `v` lies in the row space of `m`: every vector of length `n` orthogonal
/// to all rows of `m` is orthogonal to `v`.
pub open spec fn in_row_space(m: Seq<Seq<bool>>, v: Seq<bool>, n: nat) -> bool {
    forall|x: Seq<bool>| x.len() == n && #[trigger] orthogonal_to_all(m, x) ==> !dot_bits(v, x)
}

/// The sum of the null vectors of the non-leading columns `t < k` at which
/// `x` has a one.
pub open spec fn null_combination(e: Seq<Seq<bool>>, pc: Seq<usize>, x: Seq<bool>, k: int, n: nat) -> Seq<bool>
    decreases k,
{
    if k <= 0 {
        zero_bits(n)
    } else {
        let prev = null_combination(e, pc, x, k - 1, n);
        if !pc.contains((k - 1) as usize) && x[k - 1] {
            xor_bits(prev, null_vector(e, pc, k - 1, n))
        } else {
            prev
        }
    }
}

/// How many non-leading columns `t < k` have a one both in `x` and in row
/// `i` of `e`.
pub open spec fn free_hits(e: Seq<Seq<bool>>, pc: Seq<usize>, x: Seq<bool>, i: int, k: int) -> nat
    decreases k,
{
    if k <= 0 {
        0
    } else {
        free_hits(e, pc, x, i, k - 1) + if !pc.contains((k - 1) as usize) && x[k - 1] && e[i][k - 1] {
            1nat
        } else {
            0nat
        }
    }
}

/// A sum of vectors orthogonal to `z` is orthogonal to `z`.
proof fn lemma_null_combination_orthogonal(e: Seq<Seq<bool>>, pc: Seq<usize>, x: Seq<bool>, k: int, n: nat, z: Seq<bool>)
    requires
        0 <= k <= n,
        forall|t: int| 0 <= t < k && !pc.contains(t as usize) && x[t] ==> !dot_bits(#[trigger] null_vector(e, pc, t, n), z),
    ensures
        null_combination(e, pc, x, k, n).len() == n,
        !dot_bits(null_combination(e, pc, x, k, n), z),
    decreases k,
{
    if k <= 0 {
        lemma_common_zero(zero_bits(n), z, n as int);
    } else {
        lemma_null_combination_orthogonal(e, pc, x, k - 1, n, z);
        let prev = null_combination(e, pc, x, k - 1, n);
        if !pc.contains((k - 1) as usize) && x[k - 1] {
            let v = null_vector(e, pc, k - 1, n);
            assert(!dot_bits(v, z));
            lemma_common_xor(prev, v, z, n as int);
        }
    }
}

/// At a non-leading column the sum holds the bit of `x`.
proof fn lemma_null_combination_free(e: Seq<Seq<bool>>, pc: Seq<usize>, x: Seq<bool>, k: int, n: nat, c: int)
    requires
        n <= usize::MAX,
        0 <= k <= n,
        0 <= c < n,
        !pc.contains(c as usize),
    ensures
        null_combination(e, pc, x, k, n)[c] == (c < k && x[c]),
    decreases k,
{
    lemma_null_combination_length(e, pc, x, k, n);
    if k > 0 {
        lemma_null_combination_length(e, pc, x, k - 1, n);
        lemma_null_combination_free(e, pc, x, k - 1, n, c);
        let t = k - 1;
        if !pc.contains(t as usize) && x[t] {
            let v = null_vector(e, pc, t, n);
            assert(v[c] == (c == t)) by {
                if exists|i: int| 0 <= i < pc.len() && pc[i] == c && e[i][t] {
                    let i = choose|i: int| 0 <= i < pc.len() && pc[i] == c && e[i][t];
                    assert(pc.contains(c as usize));
                }
            }
        }
    }
}

/// At the leading column of row `i` the sum holds the parity of the
/// non-leading columns where both `x` and that row have a one.
proof fn lemma_null_combination_leading(e: Seq<Seq<bool>>, pc: Seq<usize>, x: Seq<bool>, k: int, n: nat, i: int)
    requires
        is_reduced_echelon(e, pc, n),
        0 <= k <= n,
        0 <= i < e.len(),
    ensures
        null_combination(e, pc, x, k, n)[pc[i] as int] == (free_hits(e, pc, x, i, k) % 2 == 1),
    decreases k,
{
    lemma_null_combination_length(e, pc, x, k, n);
    assert(e[i].len() == n);
    if k > 0 {
        lemma_null_combination_length(e, pc, x, k - 1, n);
        lemma_null_combination_leading(e, pc, x, k - 1, n, i);
        let t = k - 1;
        let c = pc[i] as int;
        assert(e[i].len() == n);
        if !pc.contains(t as usize) && x[t] {
            let v = null_vector(e, pc, t, n);
            assert(v[c] == e[i][t]) by {
                assert(c != t) by {
                    if c == t {
                        assert(pc.contains(t as usize));
                    }
                }
                if v[c] {
                    let j = choose|j: int| 0 <= j < pc.len() && pc[j] == c && e[j][t];
                    if j != i {
                        if j < i {
                            assert(pc[j] < pc[i]);
                        } else {
                            assert(pc[i] < pc[j]);
                        }
                    }
                }
            }
        }
    }
}

/// The count of common ones of row `i` and `x` splits into the non-leading
/// columns and the row's own leading column.
proof fn lemma_common_split(e: Seq<Seq<bool>>, pc: Seq<usize>, x: Seq<bool>, k: int, n: nat, i: int)
    requires
        is_reduced_echelon(e, pc, n),
        0 <= k <= n,
        0 <= i < e.len(),
    ensures
        common_ones(e[i], x, k) == free_hits(e, pc, x, i, k) + if pc[i] < k && x[pc[i] as int] { 1nat } else { 0nat },
    decreases k,
{
    if k > 0 {
        lemma_common_split(e, pc, x, k - 1, n, i);
        let t = k - 1;
        assert(e[i].len() == n);
        if pc.contains(t as usize) {
            let j = choose|j: int| 0 <= j < pc.len() && pc[j] == t as usize;
            if j != i {
                assert(!e[i][pc[j] as int]);
            }
        }
    }
}

/// Every vector orthogonal to all rows of a reduced echelon form is the sum
/// of the null vectors of the non-leading columns where it has a one.
pub proof fn lemma_kernel_is_null_combination(e: Seq<Seq<bool>>, pc: Seq<usize>, x: Seq<bool>, n: nat)
    requires
        is_reduced_echelon(e, pc, n),
        x.len() == n,
        orthogonal_to_all(e, x),
    ensures
        null_combination(e, pc, x, n as int, n) == x,
{
    let s = null_combination(e, pc, x, n as int, n);
    lemma_null_combination_orthogonal(e, pc, x, 0, n, x);
    assert(s.len() == n) by {
        lemma_null_combination_length(e, pc, x, n as int, n);
    }
    assert forall|c: int| 0 <= c < n implies s[c] == x[c] by {
        if pc.contains(c as usize) {
            let i = choose|i: int| 0 <= i < pc.len() && pc[i] == c as usize;
            lemma_null_combination_leading(e, pc, x, n as int, n, i);
            lemma_common_split(e, pc, x, n as int, n, i);
            assert(e[i].len() == n);
            assert(!dot_bits(e[i], x));
        } else {
            lemma_null_combination_free(e, pc, x, n as int, n, c);
        }
    }
    assert(s =~= x);
}

/// The sum has `n` bits.
proof fn lemma_null_combination_length(e: Seq<Seq<bool>>, pc: Seq<usize>, x: Seq<bool>, k: int, n: nat)
    ensures
        null_combination(e, pc, x, k, n).len() == n,
    decreases k,
{
    if k > 0 {
        lemma_null_combination_length(e, pc, x, k - 1, n);
    }
}

/// A vector orthogonal to the null vectors of all non-leading columns is
/// orthogonal to every vector orthogonal to all rows of `e`.
pub proof fn lemma_null_vectors_generate(e: Seq<Seq<bool>>, pc: Seq<usize>, n: nat, x: Seq<bool>, z: Seq<bool>)
    requires
        is_reduced_echelon(e, pc, n),
        x.len() == n,
        orthogonal_to_all(e, x),
        forall|t: int| 0 <= t < n && !pc.contains(t as usize) ==> !dot_bits(#[trigger] null_vector(e, pc, t, n), z),
    ensures
        !dot_bits(x, z),
{
    lemma_kernel_is_null_combination(e, pc, x, n);
    lemma_null_combination_orthogonal(e, pc, x, n as int, n, z);
}

/// The sum of the rows `m[i]` with `i < k` and `sel[i]` set, on `n` bits.
pub open spec fn row_sum(m: Seq<Seq<bool>>, sel: Seq<bool>, k: int, n: nat) -> Seq<bool>
    decreases k,
{
    if k <= 0 {
        zero_bits(n)
    } else if sel[k - 1] {
        xor_bits(row_sum(m, sel, k - 1, n), m[k - 1])
    } else {
        row_sum(m, sel, k - 1, n)
    }
}

/// Every sum of rows of `m` lies in the row space of `m`.
pub proof fn lemma_row_sum_in_row_space(m: Seq<Seq<bool>>, sel: Seq<bool>, k: int, n: nat)
    requires
        0 <= k <= m.len(),
        forall|i: int| 0 <= i < m.len() ==> (#[trigger] m[i]).len() == n,
    ensures
        row_sum(m, sel, k, n).len() == n,
        in_row_space(m, row_sum(m, sel, k, n), n),
    decreases k,
{
    if k > 0 {
        lemma_row_sum_in_row_space(m, sel, k - 1, n);
    }
    assert forall|x: Seq<bool>| x.len() == n && #[trigger] orthogonal_to_all(m, x) implies !dot_bits(row_sum(m, sel, k, n), x) by {
        if k <= 0 {
            lemma_common_zero(zero_bits(n), x, n as int);
        } else if sel[k - 1] {
            assert(!dot_bits(m[k - 1], x));
            lemma_common_xor(row_sum(m, sel, k - 1, n), m[k - 1], x, n as int);
        }
    }
}

/// A sum of rows depends only on the selection of the rows it may use.
proof fn lemma_row_sum_frame(m: Seq<Seq<bool>>, s1: Seq<bool>, s2: Seq<bool>, k: int, n: nat)
    requires
        forall|i: int| 0 <= i < k ==> s1[i] == s2[i],
    ensures
        row_sum(m, s1, k, n) == row_sum(m, s2, k, n),
    decreases k,
{
    if k > 0 {
        lemma_row_sum_frame(m, s1, s2, k - 1, n);
    }
}

/// When `v` is no sum of the first `k` rows of `m`, some vector orthogonal
/// to those rows has an odd dot product with `v`.
proof fn lemma_separating_vector(m: Seq<Seq<bool>>, v: Seq<bool>, k: int, n: nat)
    requires
        0 <= k <= m.len(),
        v.len() == n,
        forall|i: int| 0 <= i < m.len() ==> (#[trigger] m[i]).len() == n,
        forall|sel: Seq<bool>| #[trigger] row_sum(m, sel, k, n) != v,
    ensures
        exists|x: Seq<bool>| x.len() == n && orthogonal_to_all(m.subrange(0, k), x) && #[trigger] dot_bits(v, x),
    decreases k,
{
    if k == 0 {
        assert(row_sum(m, Seq::empty(), 0, n) == zero_bits(n));
        assert(v != zero_bits(n));
        assert(exists|c: int| 0 <= c < n && v[c]) by {
            if !(exists|c: int| 0 <= c < n && v[c]) {
                assert(v =~= zero_bits(n));
            }
        }
        let c = choose|c: int| 0 <= c < n && v[c];
        let x = Seq::new(n, |t: int| t == c);
        lemma_common_hits(v, x, c, -1, n as int);
        assert(orthogonal_to_all(m.subrange(0, 0), x));
        assert(dot_bits(v, x));
    } else {
        let r = m[k - 1];
        let w = xor_bits(v, r);
        assert forall|sel: Seq<bool>| #[trigger] row_sum(m, sel, k - 1, n) != v by {
            let s2 = Seq::new(k as nat, |i: int| if i < k - 1 { sel[i] } else { false });
            lemma_row_sum_frame(m, sel, s2, k - 1, n);
            assert(row_sum(m, s2, k, n) != v);
        }
        assert forall|sel: Seq<bool>| #[trigger] row_sum(m, sel, k - 1, n) != w by {
            let s2 = Seq::new(k as nat, |i: int| if i < k - 1 { sel[i] } else { true });
            lemma_row_sum_frame(m, sel, s2, k - 1, n);
            lemma_row_sum_in_row_space(m, sel, k - 1, n);
            if row_sum(m, sel, k - 1, n) == w {
                assert(xor_bits(w, r) =~= v);
                assert(row_sum(m, s2, k, n) == v);
            }
        }
        lemma_separating_vector(m, v, k - 1, n);
        lemma_separating_vector(m, w, k - 1, n);
        let x1 = choose|x: Seq<bool>| x.len() == n && orthogonal_to_all(m.subrange(0, k - 1), x) && #[trigger] dot_bits(v, x);
        let x2 = choose|x: Seq<bool>| x.len() == n && orthogonal_to_all(m.subrange(0, k - 1), x) && #[trigger] dot_bits(w, x);
        lemma_common_xor(v, r, x2, n as int);
        let pre = m.subrange(0, k - 1);
        let all = m.subrange(0, k);
        if !dot_bits(r, x1) {
            assert forall|i: int| 0 <= i < all.len() implies !dot_bits(#[trigger] all[i], x1) by {
                if i < k - 1 {
                    assert(all[i] == pre[i]);
                }
            }
            assert(orthogonal_to_all(all, x1));
        } else if !dot_bits(r, x2) {
            assert forall|i: int| 0 <= i < all.len() implies !dot_bits(#[trigger] all[i], x2) by {
                if i < k - 1 {
                    assert(all[i] == pre[i]);
                }
            }
            assert(dot_bits(v, x2));
            assert(orthogonal_to_all(all, x2));
        } else {
            let x = xor_bits(x1, x2);
            lemma_common_symmetric(v, x, n as int);
            lemma_common_xor(x1, x2, v, n as int);
            lemma_common_symmetric(v, x1, n as int);
            lemma_common_symmetric(v, x2, n as int);
            assert(dot_bits(v, x));
            assert forall|i: int| 0 <= i < all.len() implies !dot_bits(#[trigger] all[i], x) by {
                let row = all[i];
                assert(row.len() == n);
                lemma_common_symmetric(row, x, n as int);
                lemma_common_xor(x1, x2, row, n as int);
                lemma_common_symmetric(row, x1, n as int);
                lemma_common_symmetric(row, x2, n as int);
                if i < k - 1 {
                    assert(all[i] == pre[i]);
                    assert(!dot_bits(pre[i], x1));
                    assert(!dot_bits(pre[i], x2));
                } else {
                    assert(row == r);
                }
            }
            assert(orthogonal_to_all(all, x));
        }
    }
}

/// The row space defined through the kernel is exactly the set of sums of
/// rows: `v` lies in it if and only if some selection of rows adds up to
/// `v`.
pub proof fn lemma_row_space_is_sums(m: Seq<Seq<bool>>, v: Seq<bool>, n: nat)
    requires
        v.len() == n,
        forall|i: int| 0 <= i < m.len() ==> (#[trigger] m[i]).len() == n,
    ensures
        in_row_space(m, v, n) <==> exists|sel: Seq<bool>| #[trigger] row_sum(m, sel, m.len() as int, n) == v,
{
    if exists|sel: Seq<bool>| #[trigger] row_sum(m, sel, m.len() as int, n) == v {
        let sel = choose|sel: Seq<bool>| #[trigger] row_sum(m, sel, m.len() as int, n) == v;
        lemma_row_sum_in_row_space(m, sel, m.len() as int, n);
    } else {
        lemma_separating_vector(m, v, m.len() as int, n);
        let x = choose|x: Seq<bool>| x.len() == n && orthogonal_to_all(m.subrange(0, m.len() as int), x) && #[trigger] dot_bits(v, x);
        assert(m.subrange(0, m.len() as int) =~= m);
    }
}

} // verus!
