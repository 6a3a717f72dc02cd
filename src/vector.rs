use vstd::prelude::*;
use crate::error::QecError;

verus! {

/// Every element is smaller than the next one.
pub open spec fn strictly_increasing(s: Seq<usize>) -> bool {
    forall|i: int, j: int| 0 <= i < j < s.len() ==> s[i] < s[j]
}

/// The dense bits of a vector of length `n` whose ones stand at the positions `s`.
pub open spec fn bits_of(n: nat, s: Seq<usize>) -> Seq<bool> {
    Seq::new(n, |i: int| s.contains(i as usize))
}

/// How many of the first `n` positions hold a one in both `u` and `x`.
pub open spec fn common_ones(u: Seq<bool>, x: Seq<bool>, n: int) -> nat
    decreases n,
{
    if n <= 0 {
        0
    } else {
        common_ones(u, x, n - 1) + if u[n - 1] && x[n - 1] { 1nat } else { 0nat }
    }
}

/// The dot product over GF(2): whether `u` and `x` share an odd number of ones.
pub open spec fn dot_bits(u: Seq<bool>, x: Seq<bool>) -> bool {
    common_ones(u, x, u.len() as int) % 2 == 1
}

/// Positions where `u` is 0 add nothing to the count.
pub proof fn lemma_common_gap(u: Seq<bool>, x: Seq<bool>, lo: int, hi: int)
    requires
        0 <= lo <= hi,
        forall|t: int| lo <= t < hi ==> !u[t],
    ensures
        common_ones(u, x, hi) == common_ones(u, x, lo),
    decreases hi - lo,
{
    if hi > lo {
        lemma_common_gap(u, x, lo, hi - 1);
    }
}

/// The count does not depend on the order of the two operands.
pub proof fn lemma_common_symmetric(u: Seq<bool>, x: Seq<bool>, n: int)
    ensures
        common_ones(u, x, n) == common_ones(x, u, n),
    decreases n,
{
    if n > 0 {
        lemma_common_symmetric(u, x, n - 1);
    }
}

/// The dot product is linear in its first operand.
pub proof fn lemma_common_xor(a: Seq<bool>, b: Seq<bool>, x: Seq<bool>, n: int)
    requires
        a.len() == b.len(),
        n <= a.len(),
    ensures
        common_ones(xor_bits(a, b), x, n) % 2 == (common_ones(a, x, n) + common_ones(b, x, n)) % 2,
    decreases n,
{
    if n > 0 {
        lemma_common_xor(a, b, x, n - 1);
    }
}

/// The dot product of a zero vector with anything is 0.
pub proof fn lemma_common_zero(u: Seq<bool>, x: Seq<bool>, n: int)
    requires
        forall|t: int| 0 <= t < n ==> !u[t],
    ensures
        common_ones(u, x, n) == 0,
    decreases n,
{
    if n > 0 {
        lemma_common_zero(u, x, n - 1);
    }
}

/// How many of the first `n` bits are ones.
pub open spec fn ones_below(bits: Seq<bool>, n: int) -> nat
    decreases n,
{
    if n <= 0 {
        0
    } else {
        ones_below(bits, n - 1) + if bits[n - 1] { 1nat } else { 0nat }
    }
}

/// Setting one more bit adds one to the count past that bit.
pub proof fn lemma_ones_differ_at(a: Seq<bool>, b: Seq<bool>, m: int, n: int)
    requires
        0 <= n,
        a[m],
        !b[m],
        forall|t: int| 0 <= t < n && t != m ==> a[t] == b[t],
    ensures
        ones_below(a, n) == ones_below(b, n) + if 0 <= m < n { 1nat } else { 0nat },
    decreases n,
{
    if n > 0 {
        lemma_ones_differ_at(a, b, m, n - 1);
    }
}

/// A strictly increasing list of positions below `len` marks as many ones
/// as it has elements.
pub proof fn lemma_positions_count(s: Seq<usize>, len: nat)
    requires
        strictly_increasing(s),
        forall|k: int| 0 <= k < s.len() ==> s[k] < len,
        len <= usize::MAX,
    ensures
        ones_below(bits_of(len, s), len as int) == s.len(),
    decreases s.len(),
{
    if s.len() == 0 {
        assert forall|t: int| 0 <= t < len implies !bits_of(len, s)[t] by {}
        lemma_no_ones(bits_of(len, s), len as int);
    } else {
        let m = s.last();
        let t = s.drop_last();
        lemma_positions_count(t, len);
        assert(!t.contains(m)) by {
            if t.contains(m) {
                let k = choose|k: int| 0 <= k < t.len() && t[k] == m;
                assert(s[k] < s[s.len() - 1]);
            }
        }
        assert(s.contains(m)) by {
            assert(s[s.len() - 1] == m);
        }
        assert forall|u: int| 0 <= u < len && u != m implies bits_of(len, s)[u] == bits_of(len, t)[u] by {
            if s.contains(u as usize) {
                let k = choose|k: int| 0 <= k < s.len() && s[k] == u as usize;
                assert(k < t.len());
                assert(t[k] == u as usize);
            }
            if t.contains(u as usize) {
                let k = choose|k: int| 0 <= k < t.len() && t[k] == u as usize;
                assert(s[k] == u as usize);
            }
        }
        lemma_ones_differ_at(bits_of(len, s), bits_of(len, t), m as int, len as int);
    }
}

/// A sequence without ones counts none.
pub proof fn lemma_no_ones(bits: Seq<bool>, n: int)
    requires
        forall|t: int| 0 <= t < n ==> !bits[t],
    ensures
        ones_below(bits, n) == 0,
    decreases n,
{
    if n > 0 {
        lemma_no_ones(bits, n - 1);
    }
}

/// Two strictly increasing sequences with the same elements are equal.
pub proof fn lemma_increasing_unique(s1: Seq<usize>, s2: Seq<usize>)
    requires
        strictly_increasing(s1),
        strictly_increasing(s2),
        forall|x: usize| s1.contains(x) <==> s2.contains(x),
    ensures
        s1 == s2,
    decreases s1.len() + s2.len(),
{
    if s1.len() == 0 {
        if s2.len() > 0 {
            assert(s2.contains(s2[0]));
        }
        assert(s1 =~= s2);
    } else if s2.len() == 0 {
        assert(s1.contains(s1[0]));
    } else {
        assert(s1.contains(s1[0]));
        assert(s2.contains(s2[0]));
        let k1 = choose|k: int| 0 <= k < s2.len() && s2[k] == s1[0];
        let k2 = choose|k: int| 0 <= k < s1.len() && s1[k] == s2[0];
        assert(s1[0] == s2[0]) by {
            if k1 > 0 {
                assert(s2[0] < s2[k1]);
            }
            if k2 > 0 {
                assert(s1[0] < s1[k2]);
            }
        }
        let t1 = s1.drop_first();
        let t2 = s2.drop_first();
        assert forall|x: usize| t1.contains(x) <==> t2.contains(x) by {
            if t1.contains(x) {
                let k = choose|k: int| 0 <= k < t1.len() && t1[k] == x;
                assert(s1[k + 1] == x);
                assert(s1.contains(x));
                let m = choose|m: int| 0 <= m < s2.len() && s2[m] == x;
                assert(m != 0);
                assert(t2[m - 1] == x);
            }
            if t2.contains(x) {
                let k = choose|k: int| 0 <= k < t2.len() && t2[k] == x;
                assert(s2[k + 1] == x);
                assert(s2.contains(x));
                let m = choose|m: int| 0 <= m < s1.len() && s1[m] == x;
                assert(m != 0);
                assert(t1[m - 1] == x);
            }
        }
        lemma_increasing_unique(t1, t2);
        assert(s1 =~= s2) by {
            assert forall|i: int| 0 <= i < s1.len() implies s1[i] == s2[i] by {
                if i > 0 {
                    assert(s1[i] == t1[i - 1]);
                }
            }
        }
    }
}

/// A sequence with one more element contains exactly that element besides
/// the old ones.
pub proof fn lemma_push_contains(s: Seq<usize>, v: usize, x: usize)
    ensures
        s.push(v).contains(x) <==> (s.contains(x) || x == v),
{
    if s.push(v).contains(x) {
        let k = choose|k: int| 0 <= k < s.push(v).len() && s.push(v)[k] == x;
        if k < s.len() {
            assert(s[k] == x);
        }
    }
    if s.contains(x) {
        let k = choose|k: int| 0 <= k < s.len() && s[k] == x;
        assert(s.push(v)[k] == x);
    }
    assert(s.push(v)[s.len() as int] == v);
}

/// Whether `x` belongs to the merge of two position sets: in either of them
/// when `keep_common`, in exactly one of them otherwise.
pub open spec fn merged_has(keep_common: bool, in_a: bool, in_b: bool) -> bool {
    if keep_common {
        in_a || in_b
    } else {
        in_a != in_b
    }
}

/// Merges two strictly increasing position lists in one pass.
fn merge_positions(a: &Vec<usize>, b: &Vec<usize>, keep_common: bool) -> (r: Vec<usize>)
    requires
        strictly_increasing(a@),
        strictly_increasing(b@),
    ensures
        strictly_increasing(r@),
        forall|x: usize| r@.contains(x) <==> merged_has(keep_common, a@.contains(x), b@.contains(x)),
{
    let mut r: Vec<usize> = Vec::new();
    let mut i: usize = 0;
    let mut j: usize = 0;
    while i < a.len() || j < b.len()
        invariant
            i <= a.len(),
            j <= b.len(),
            strictly_increasing(a@),
            strictly_increasing(b@),
            strictly_increasing(r@),
            forall|k: int| 0 <= k < r@.len() && i < a.len() ==> r@[k] < a@[i as int],
            forall|k: int| 0 <= k < r@.len() && j < b.len() ==> r@[k] < b@[j as int],
            forall|k: int| 0 <= k < i && j < b.len() ==> a@[k] < b@[j as int],
            forall|k: int| 0 <= k < j && i < a.len() ==> b@[k] < a@[i as int],
            forall|x: usize|
                r@.contains(x) <==> merged_has(
                    keep_common,
                    a@.subrange(0, i as int).contains(x),
                    b@.subrange(0, j as int).contains(x),
                ),
        decreases a.len() + b.len() - i - j,
    {
        let ghost pa = a@.subrange(0, i as int);
        let ghost pb = b@.subrange(0, j as int);
        let ghost before = r@;
        let take_a = j == b.len() || (i < a.len() && a[i] < b[j]);
        let take_b = i == a.len() || (j < b.len() && b[j] < a[i]);
        if take_a {
            let v = a[i];
            r.push(v);
            i = i + 1;
            assert(a@.subrange(0, i as int) =~= pa.push(v));
            assert forall|x: usize| r@.contains(x) <==> merged_has(
                keep_common,
                a@.subrange(0, i as int).contains(x),
                b@.subrange(0, j as int).contains(x),
            ) by {
                lemma_push_contains(pa, v, x);
                assert(r@ == before.push(v));
                lemma_push_contains(before, v, x);
                if pb.contains(v) {
                    let k = choose|k: int| 0 <= k < pb.len() && pb[k] == v;
                    assert(b@[k] < a@[i - 1]);
                }
                if pa.contains(v) {
                    let k = choose|k: int| 0 <= k < pa.len() && pa[k] == v;
                    assert(a@[k] < a@[i - 1]);
                }
            }
        } else if take_b {
            let v = b[j];
            r.push(v);
            j = j + 1;
            assert(b@.subrange(0, j as int) =~= pb.push(v));
            assert forall|x: usize| r@.contains(x) <==> merged_has(
                keep_common,
                a@.subrange(0, i as int).contains(x),
                b@.subrange(0, j as int).contains(x),
            ) by {
                lemma_push_contains(pb, v, x);
                assert(r@ == before.push(v));
                lemma_push_contains(before, v, x);
                if pa.contains(v) {
                    let k = choose|k: int| 0 <= k < pa.len() && pa[k] == v;
                    assert(a@[k] < b@[j - 1]);
                }
                if pb.contains(v) {
                    let k = choose|k: int| 0 <= k < pb.len() && pb[k] == v;
                    assert(b@[k] < b@[j - 1]);
                }
            }
        } else {
            let v = a[i];
            if keep_common {
                r.push(v);
            }
            i = i + 1;
            j = j + 1;
            assert(a@.subrange(0, i as int) =~= pa.push(v));
            assert(b@.subrange(0, j as int) =~= pb.push(v));
            assert forall|x: usize| r@.contains(x) <==> merged_has(
                keep_common,
                a@.subrange(0, i as int).contains(x),
                b@.subrange(0, j as int).contains(x),
            ) by {
                lemma_push_contains(pa, v, x);
                lemma_push_contains(pb, v, x);
                if keep_common {
                    assert(r@ == before.push(v));
                lemma_push_contains(before, v, x);
                }
                if pa.contains(v) {
                    let k = choose|k: int| 0 <= k < pa.len() && pa[k] == v;
                    assert(a@[k] < a@[i - 1]);
                }
                if pb.contains(v) {
                    let k = choose|k: int| 0 <= k < pb.len() && pb[k] == v;
                    assert(b@[k] < b@[j - 1]);
                }
            }
        }
    }
    assert(a@.subrange(0, a@.len() as int) =~= a@);
    assert(b@.subrange(0, b@.len() as int) =~= b@);
    r
}

/// A binary vector stored by the positions of its ones.
#[derive(Debug, Hash)]
pub struct BinaryVector {
    length: usize,
    positions: Vec<usize>,
}

impl View for BinaryVector {
    type V = Seq<bool>;

    open spec fn view(&self) -> Seq<bool> {
        bits_of(self.dim(), self.support())
    }
}

impl BinaryVector {
    /// The number of elements.
    pub closed spec fn dim(&self) -> nat {
        self.length as nat
    }

    /// The positions of the ones, in the order in which they are stored.
    pub closed spec fn support(&self) -> Seq<usize> {
        self.positions@
    }

    /// The positions are strictly increasing and within the length.
    pub open spec fn wf(&self) -> bool {
        &&& strictly_increasing(self.support())
        &&& forall|k: int| 0 <= k < self.support().len() ==> self.support()[k] < self.dim()
        &&& self.dim() <= usize::MAX
    }

    /// The stored forms agree; this is what `==` compares.
    pub open spec fn same_as(&self, other: &Self) -> bool {
        self.dim() == other.dim() && self.support() == other.support()
    }

    /// The vector's value is fixed by its bits: it has one stored form.
    pub proof fn lemma_canonical(a: &Self, b: &Self)
        requires
            a.wf(),
            b.wf(),
            a@ == b@,
        ensures
            a.dim() == b.dim(),
            a.support() == b.support(),
    {
        assert(a@.len() == a.dim());
        assert forall|x: usize| a.support().contains(x) <==> b.support().contains(x) by {
            if a.support().contains(x) {
                let k = choose|k: int| 0 <= k < a.support().len() && a.support()[k] == x;
                assert(a@[x as int]);
            }
            if b.support().contains(x) {
                let k = choose|k: int| 0 <= k < b.support().len() && b.support()[k] == x;
                assert(b@[x as int]);
            }
        }
        lemma_increasing_unique(a.support(), b.support());
    }

    /// The vector whose bits are `bits`.
    pub fn from_bits(bits: &Vec<bool>) -> (r: Self)
        ensures
            r.wf(),
            r@ == bits@,
    {
        let mut positions: Vec<usize> = Vec::new();
        let mut i: usize = 0;
        while i < bits.len()
            invariant
                i <= bits.len(),
                strictly_increasing(positions@),
                forall|k: int| 0 <= k < positions@.len() ==> positions@[k] < i,
                forall|x: usize| positions@.contains(x) <==> (x < i && bits@[x as int]),
            decreases bits.len() - i,
        {
            if bits[i] {
                let ghost before = positions@;
                positions.push(i);
                assert forall|x: usize| positions@.contains(x) <==> (x < i + 1 && bits@[x as int]) by {
                    if x == i {
                        assert(positions@[before.len() as int] == x);
                    } else if positions@.contains(x) {
                        let k = choose|k: int| 0 <= k < positions@.len() && positions@[k] == x;
                        assert(before[k] == x);
                    } else if x < i && bits@[x as int] {
                        let k = choose|k: int| 0 <= k < before.len() && before[k] == x;
                        assert(positions@[k] == x);
                    }
                }
            } else {
                assert forall|x: usize| positions@.contains(x) <==> (x < i + 1 && bits@[x as int]) by {
                    if positions@.contains(x) {
                        let k = choose|k: int| 0 <= k < positions@.len() && positions@[k] == x;
                    }
                }
            }
            i = i + 1;
        }
        let r = BinaryVector { length: bits.len(), positions };
        assert(r@ =~= bits@);
        r
    }
}


/// No position reaches `n` and no position is given twice.
pub open spec fn valid_positions(n: nat, s: Seq<usize>) -> bool {
    &&& forall|k: int| 0 <= k < s.len() ==> s[k] < n
    &&& forall|k1: int, k2: int| 0 <= k1 < s.len() && 0 <= k2 < s.len() && k1 != k2 ==> s[k1] != s[k2]
}

/// The bitwise sum of two bit sequences of one length.
pub open spec fn xor_bits(a: Seq<bool>, b: Seq<bool>) -> Seq<bool> {
    Seq::new(a.len(), |i: int| a[i] != b[i])
}

/// The bitwise union of two bit sequences of one length.
pub open spec fn or_bits(a: Seq<bool>, b: Seq<bool>) -> Seq<bool> {
    Seq::new(a.len(), |i: int| a[i] || b[i])
}

/// `n` zeros.
pub open spec fn zero_bits(n: nat) -> Seq<bool> {
    Seq::new(n, |i: int| false)
}

impl BinaryVector {
    /// The vector of `length` zeros.
    pub fn zeros(length: usize) -> (r: Self)
        ensures
            r.wf(),
            r@ == zero_bits(length as nat),
    {
        let r = BinaryVector { length, positions: Vec::new() };
        assert(r@ =~= zero_bits(length as nat));
        r
    }

    /// The vector of the given length with ones at `positions`, which are
    /// already strictly increasing and within the length.
    pub fn from_sorted(length: usize, positions: Vec<usize>) -> (r: Self)
        requires
            strictly_increasing(positions@),
            forall|k: int| 0 <= k < positions@.len() ==> positions@[k] < length,
        ensures
            r.wf(),
            r@ == bits_of(length as nat, positions@),
            r.support() == positions@,
    {
        BinaryVector { length, positions }
    }

    /// The vector of length 0.
    pub fn empty() -> (r: Self)
        ensures
            r.wf(),
            r@.len() == 0,
    {
        Self::zeros(0)
    }

    /// The vector of the given length with ones at `positions`, which may come
    /// in any order.
    pub fn new(length: usize, positions: Vec<usize>) -> (r: Result<Self, QecError>)
        ensures
            valid_positions(length as nat, positions@) ==> (r matches Ok(v) && v.wf() && v@ == bits_of(
                length as nat,
                positions@,
            )),
            !valid_positions(length as nat, positions@) ==> r == Err::<Self, QecError>(
                QecError::InvalidConstruction,
            ),
    {
        let mut marks: Vec<bool> = Vec::new();
        let mut i: usize = 0;
        while i < length
            invariant
                i <= length,
                marks@ == zero_bits(i as nat),
            decreases length - i,
        {
            marks.push(false);
            i = i + 1;
            assert(marks@ =~= zero_bits(i as nat));
        }
        let mut k: usize = 0;
        while k < positions.len()
            invariant
                k <= positions.len(),
                marks@.len() == length,
                valid_positions(length as nat, positions@.subrange(0, k as int)),
                forall|x: int| 0 <= x < length ==> (marks@[x] <==> positions@.subrange(0, k as int).contains(x as usize)),
            decreases positions.len() - k,
        {
            let p = positions[k];
            let ghost pre = positions@.subrange(0, k as int);
            if p >= length {
                assert(!valid_positions(length as nat, positions@) ) by {
                    assert(positions@[k as int] == p);
                }
                return Err(QecError::InvalidConstruction);
            }
            if marks[p] {
                assert(!valid_positions(length as nat, positions@)) by {
                    assert(pre.contains(p));
                    let k1 = choose|k1: int| 0 <= k1 < pre.len() && pre[k1] == p;
                    assert(positions@[k1] == positions@[k as int]);
                }
                return Err(QecError::InvalidConstruction);
            }
            marks.set(p, true);
            k = k + 1;
            assert(positions@.subrange(0, k as int) =~= pre.push(p));
            assert forall|x: int| 0 <= x < length implies (marks@[x] <==> positions@.subrange(0, k as int).contains(x as usize)) by {
                if x == p as int {
                    assert(pre.push(p)[pre.len() as int] == p);
                } else {
                    if pre.push(p).contains(x as usize) {
                        let t = choose|t: int| 0 <= t < pre.push(p).len() && pre.push(p)[t] == x as usize;
                        assert(pre[t] == x as usize);
                    }
                    if pre.contains(x as usize) {
                        let t = choose|t: int| 0 <= t < pre.len() && pre[t] == x as usize;
                        assert(pre.push(p)[t] == x as usize);
                    }
                }
            }
            assert(valid_positions(length as nat, positions@.subrange(0, k as int))) by {
                assert forall|k1: int, k2: int| 0 <= k1 < k && 0 <= k2 < k && k1 != k2 implies
                    positions@.subrange(0, k as int)[k1] != positions@.subrange(0, k as int)[k2] by {
                    if k1 == k - 1 && k2 < k - 1 {
                        assert(pre[k2] == positions@[k2]);
                        assert(pre.contains(positions@[k2]));
                    } else if k2 == k - 1 && k1 < k - 1 {
                        assert(pre[k1] == positions@[k1]);
                        assert(pre.contains(positions@[k1]));
                    }
                }
            }
        }
        assert(positions@.subrange(0, k as int) =~= positions@);
        let r = Self::from_bits(&marks);
        assert(r@ =~= bits_of(length as nat, positions@));
        Ok(r)
    }

    /// The number of elements.
    pub fn len(&self) -> (r: usize)
        requires
            self.wf(),
        ensures
            r == self@.len(),
    {
        self.length
    }

    /// The number of ones.
    pub fn weight(&self) -> (r: usize)
        requires
            self.wf(),
        ensures
            r == self.support().len(),
            r == ones_below(self@, self@.len() as int),
    {
        proof {
            lemma_support_count(self);
        }
        self.positions.len()
    }

    /// Whether the length is 0.
    pub fn is_empty(&self) -> (r: bool)
        ensures
            r == (self@.len() == 0),
    {
        self.length == 0
    }

    /// Whether every element is 0.
    pub fn is_zero(&self) -> (r: bool)
        requires
            self.wf(),
        ensures
            r == (self@ == zero_bits(self@.len())),
            r == (self.support().len() == 0),
    {
        if self.positions.len() == 0 {
            assert(self@ =~= zero_bits(self@.len()));
            true
        } else {
            assert(self@[self.positions@[0] as int]);
            false
        }
    }

    /// Whether `p` is one of the stored positions.
    pub fn has_position(&self, p: usize) -> (r: bool)
        requires
            self.wf(),
        ensures
            r == self.support().contains(p),
    {
        let mut k: usize = 0;
        while k < self.positions.len()
            invariant
                k <= self.positions@.len(),
                self.wf(),
                forall|t: int| 0 <= t < k ==> self.positions@[t] < p,
            decreases self.positions@.len() - k,
        {
            if self.positions[k] == p {
                return true;
            }
            if self.positions[k] > p {
                assert(!self.support().contains(p)) by {
                    if self.support().contains(p) {
                        let t = choose|t: int| 0 <= t < self.positions@.len() && self.positions@[t] == p;
                        if t > k {
                            assert(self.positions@[k as int] < self.positions@[t]);
                        }
                    }
                }
                return false;
            }
            k = k + 1;
        }
        false
    }

    /// Whether the element at `position` is 1.
    pub fn is_one_at(&self, position: usize) -> (r: Result<bool, QecError>)
        requires
            self.wf(),
        ensures
            position < self@.len() ==> r == Ok::<bool, QecError>(self@[position as int]),
            position >= self@.len() ==> r == Err::<bool, QecError>(QecError::OutOfBounds),
    {
        if position >= self.length {
            Err(QecError::OutOfBounds)
        } else {
            Ok(self.has_position(position))
        }
    }

    /// Whether the element at `position` is 0.
    pub fn is_zero_at(&self, position: usize) -> (r: Result<bool, QecError>)
        requires
            self.wf(),
        ensures
            position < self@.len() ==> r == Ok::<bool, QecError>(!self@[position as int]),
            position >= self@.len() ==> r == Err::<bool, QecError>(QecError::OutOfBounds),
    {
        if position >= self.length {
            Err(QecError::OutOfBounds)
        } else {
            Ok(!self.has_position(position))
        }
    }

    /// The element at `position`, 0 or 1.
    pub fn element(&self, position: usize) -> (r: Result<u8, QecError>)
        requires
            self.wf(),
        ensures
            position < self@.len() ==> r == Ok::<u8, QecError>(if self@[position as int] { 1u8 } else { 0u8 }),
            position >= self@.len() ==> r == Err::<u8, QecError>(QecError::OutOfBounds),
    {
        if position >= self.length {
            Err(QecError::OutOfBounds)
        } else if self.has_position(position) {
            Ok(1)
        } else {
            Ok(0)
        }
    }

    /// The position of the `index`-th one, counting from the left.
    pub fn non_trivial_position(&self, index: usize) -> (r: Result<usize, QecError>)
        ensures
            index < self.support().len() ==> r == Ok::<usize, QecError>(self.support()[index as int]),
            index >= self.support().len() ==> r == Err::<usize, QecError>(QecError::OutOfBounds),
    {
        if index < self.positions.len() {
            Ok(self.positions[index])
        } else {
            Err(QecError::OutOfBounds)
        }
    }

    /// The positions of the ones, in increasing order.
    pub fn non_trivial_positions(&self) -> (r: &[usize])
        ensures
            r@ == self.support(),
    {
        self.positions.as_slice()
    }

    /// A copy of the positions of the ones, in increasing order.
    pub fn positions_vec(&self) -> (r: Vec<usize>)
        ensures
            r@ == self.support(),
    {
        let r = self.positions.clone();
        assert(r@ =~= self.positions@);
        r
    }

    /// `self` followed by `other`.
    pub fn concat(&self, other: &Self) -> (r: Self)
        requires
            self.wf(),
            other.wf(),
            self@.len() + other@.len() <= usize::MAX,
        ensures
            r.wf(),
            r@ == self@ + other@,
    {
        let shift = self.length;
        let mut positions: Vec<usize> = self.positions.clone();
        assert(positions@ =~= self.positions@);
        let mut k: usize = 0;
        while k < other.positions.len()
            invariant
                self.wf(),
                other.wf(),
                shift == self@.len(),
                self@.len() + other@.len() <= usize::MAX,
                k <= other.positions@.len(),
                positions@ =~= self.positions@ + Seq::new(k as nat, |t: int| (other.positions@[t] + shift) as usize),
            decreases other.positions@.len() - k,
        {
            positions.push(other.positions[k] + shift);
            k = k + 1;
        }
        let ghost shifted = Seq::new(k as nat, |t: int| (other.positions@[t] + shift) as usize);
        let r = BinaryVector { length: self.length + other.length, positions };
        assert(strictly_increasing(r.positions@)) by {
            assert forall|i: int, j: int| 0 <= i < j < r.positions@.len() implies r.positions@[i] < r.positions@[j] by {
                if j >= self.positions@.len() && i < self.positions@.len() {
                    assert(r.positions@[j] == shifted[j - self.positions@.len()]);
                }
            }
        }
        assert(r@ =~= self@ + other@) by {
            assert forall|x: int| 0 <= x < r@.len() implies r@[x] == (self@ + other@)[x] by {
                if x < shift {
                    if r.positions@.contains(x as usize) {
                        let t = choose|t: int| 0 <= t < r.positions@.len() && r.positions@[t] == x as usize;
                        if t >= self.positions@.len() {
                            assert(r.positions@[t] == shifted[t - self.positions@.len()]);
                        }
                        assert(self.positions@[t] == x as usize);
                    }
                    if self.positions@.contains(x as usize) {
                        let t = choose|t: int| 0 <= t < self.positions@.len() && self.positions@[t] == x as usize;
                        assert(r.positions@[t] == x as usize);
                    }
                } else {
                    let y = (x - shift) as usize;
                    if r.positions@.contains(x as usize) {
                        let t = choose|t: int| 0 <= t < r.positions@.len() && r.positions@[t] == x as usize;
                        assert(t >= self.positions@.len());
                        assert(r.positions@[t] == shifted[t - self.positions@.len()]);
                        assert(other.positions@[t - self.positions@.len()] == y);
                    }
                    if other.positions@.contains(y) {
                        let t = choose|t: int| 0 <= t < other.positions@.len() && other.positions@[t] == y;
                        assert(r.positions@[t + self.positions@.len()] == shifted[t]);
                    }
                }
            }
        }
        r
    }

    /// The dot product over GF(2), computed by one pass over both position lists.
    pub fn dot_with_vector(&self, other: &Self) -> (r: Result<u8, QecError>)
        requires
            self.wf(),
            other.wf(),
        ensures
            self@.len() != other@.len() ==> r == Err::<u8, QecError>(QecError::DimensionMismatch),
            self@.len() == other@.len() ==> r == Ok::<u8, QecError>(
                if dot_bits(self@, other@) { 1u8 } else { 0u8 },
            ),
    {
        if self.length != other.length {
            return Err(QecError::DimensionMismatch);
        }
        if self.dot(other) {
            Ok(1)
        } else {
            Ok(0)
        }
    }

    /// The dot product over GF(2) of two vectors of one length.
    pub fn dot(&self, other: &Self) -> (r: bool)
        requires
            self.wf(),
            other.wf(),
            self@.len() == other@.len(),
        ensures
            r == dot_bits(self@, other@),
    {
        self.common_count(other) % 2 == 1
    }

    /// The number of positions where both vectors of one length hold a one,
    /// counted in one pass over both position lists.
    pub fn common_count(&self, other: &Self) -> (r: usize)
        requires
            self.wf(),
            other.wf(),
            self@.len() == other@.len(),
        ensures
            r == common_ones(self@, other@, self@.len() as int),
    {
        let a = &self.positions;
        let b = &other.positions;
        let mut count: usize = 0;
        let mut i: usize = 0;
        let mut j: usize = 0;
        let ghost mut lo: int = 0;
        while i < a.len()
            invariant
                self.wf(),
                other.wf(),
                self@.len() == other@.len(),
                a@ == self.support(),
                b@ == other.support(),
                i <= a@.len(),
                j <= b@.len(),
                0 <= lo <= self@.len(),
                i > 0 ==> lo == a@[i - 1] + 1,
                i == 0 ==> lo == 0,
                count == common_ones(self@, other@, lo),
                count <= i,
                forall|t: int| 0 <= t < j && i < a@.len() ==> b@[t] < a@[i as int],
            decreases a@.len() - i,
        {
            let v = a[i];
            while j < b.len() && b[j] < v
                invariant
                    self.wf(),
                    other.wf(),
                    a@ == self.support(),
                    b@ == other.support(),
                    i < a@.len(),
                    v == a@[i as int],
                    j <= b@.len(),
                    forall|t: int| 0 <= t < j ==> b@[t] < v,
                decreases b@.len() - j,
            {
                j = j + 1;
            }
            let found = j < b.len() && b[j] == v;
            assert(found == other@[v as int]) by {
                if b@.contains(v) {
                    let t = choose|t: int| 0 <= t < b@.len() && b@[t] == v;
                    if t > j {
                        assert(b@[j as int] < b@[t]);
                    }
                }
                if found {
                    assert(b@[j as int] == v);
                }
            }
            assert(self@[v as int]) by {
                assert(a@[i as int] == v);
            }
            assert forall|t: int| lo <= t < v implies !self@[t] by {
                if a@.contains(t as usize) {
                    let k = choose|k: int| 0 <= k < a@.len() && a@[k] == t as usize;
                    if k < i {
                        if k < i - 1 {
                            assert(a@[k] < a@[i - 1]);
                        }
                    } else if k > i {
                        assert(a@[i as int] < a@[k]);
                    }
                }
            }
            proof { lemma_common_gap(self@, other@, lo, v as int); }
            if found {
                count = count + 1;
            }
            i = i + 1;
            proof {
                lo = v + 1;
            }
            assert forall|t: int| 0 <= t < j && i < a@.len() implies b@[t] < a@[i as int] by {
                assert(a@[i - 1] < a@[i as int]);
            }
        }
        assert forall|t: int| lo <= t < self@.len() implies !self@[t] by {
            if a@.contains(t as usize) {
                let k = choose|k: int| 0 <= k < a@.len() && a@[k] == t as usize;
                if k < i - 1 {
                    assert(a@[k] < a@[i - 1]);
                }
            }
        }
        proof { lemma_common_gap(self@, other@, lo, self@.len() as int); }
        count
    }

    /// The element-wise sum modulo 2 of two vectors of one length.
    pub fn bitwise_xor(&self, other: &Self) -> (r: Result<Self, QecError>)
        requires
            self.wf(),
            other.wf(),
        ensures
            self@.len() != other@.len() ==> r == Err::<Self, QecError>(QecError::DimensionMismatch),
            self@.len() == other@.len() ==> (r matches Ok(v) && v.wf() && v@ == xor_bits(self@, other@)),
    {
        if self.length != other.length {
            return Err(QecError::DimensionMismatch);
        }
        Ok(self.merged_with(other, false))
    }

    /// The element-wise sum modulo 2; the lengths must agree.
    pub fn xor(&self, other: &Self) -> (r: Self)
        requires
            self.wf(),
            other.wf(),
            self@.len() == other@.len(),
        ensures
            r.wf(),
            r@ == xor_bits(self@, other@),
    {
        self.merged_with(other, false)
    }

    /// The element-wise "or"; the lengths must agree.
    pub fn union(&self, other: &Self) -> (r: Self)
        requires
            self.wf(),
            other.wf(),
            self@.len() == other@.len(),
        ensures
            r.wf(),
            r@ == or_bits(self@, other@),
    {
        self.merged_with(other, true)
    }

    fn merged_with(&self, other: &Self, keep_common: bool) -> (r: Self)
        requires
            self.wf(),
            other.wf(),
            self@.len() == other@.len(),
        ensures
            r.wf(),
            r@ == Seq::new(self@.len(), |i: int| merged_has(keep_common, self@[i], other@[i])),
            keep_common ==> r@ == or_bits(self@, other@),
            !keep_common ==> r@ == xor_bits(self@, other@),
    {
        let positions = merge_positions(&self.positions, &other.positions, keep_common);
        let r = BinaryVector { length: self.length, positions };
        assert forall|k: int| 0 <= k < r.positions@.len() implies r.positions@[k] < r.length by {
            let x = r.positions@[k];
            assert(r.positions@.contains(x));
            if self.positions@.contains(x) {
                let t = choose|t: int| 0 <= t < self.positions@.len() && self.positions@[t] == x;
            }
            if other.positions@.contains(x) {
                let t = choose|t: int| 0 <= t < other.positions@.len() && other.positions@[t] == x;
            }
        }
        assert(r@ =~= Seq::new(self@.len(), |i: int| merged_has(keep_common, self@[i], other@[i])));
        assert(keep_common ==> r@ =~= or_bits(self@, other@));
        assert(!keep_common ==> r@ =~= xor_bits(self@, other@));
        r
    }
}

impl Clone for BinaryVector {
    fn clone(&self) -> (r: Self)
        ensures
            r.dim() == self.dim(),
            r.support() == self.support(),
    {
        let positions = self.positions.clone();
        assert(positions@ =~= self.positions@);
        BinaryVector { length: self.length, positions }
    }
}

impl PartialEq for BinaryVector {
    fn eq(&self, other: &Self) -> (r: bool) {
        if self.length != other.length || self.positions.len() != other.positions.len() {
            return false;
        }
        let mut k: usize = 0;
        while k < self.positions.len()
            invariant
                self.positions@.len() == other.positions@.len(),
                k <= self.positions@.len(),
                forall|t: int| 0 <= t < k ==> self.positions@[t] == other.positions@[t],
            decreases self.positions@.len() - k,
        {
            if self.positions[k] != other.positions[k] {
                return false;
            }
            k = k + 1;
        }
        assert(self.positions@ =~= other.positions@);
        true
    }
}

impl vstd::std_specs::cmp::PartialEqSpecImpl for BinaryVector {
    open spec fn obeys_eq_spec() -> bool {
        true
    }

    open spec fn eq_spec(&self, other: &BinaryVector) -> bool {
        self.same_as(other)
    }
}

impl Eq for BinaryVector {
}

/// The number of stored positions is the number of ones.
pub proof fn lemma_support_count(v: &BinaryVector)
    requires
        v.wf(),
    ensures
        v.support().len() == ones_below(v@, v@.len() as int),
{
    lemma_positions_count(v.support(), v.dim());
}

/// Vectors with the same bits compare equal.
pub proof fn lemma_same_bits_equal(a: &BinaryVector, b: &BinaryVector)
    requires
        a.wf(),
        b.wf(),
        a@ == b@,
    ensures
        a.same_as(b),
{
    BinaryVector::lemma_canonical(a, b);
}

/// The bitwise sum of two vectors does not depend on their order, and a
/// vector added to itself is the zero vector: for results `ab`, `ba` and `aa`
/// of `bitwise_xor` on `(a, b)`, `(b, a)` and `(a, a)`, `ab == ba` and `aa`
/// is zero.
pub proof fn lemma_xor_symmetric_and_self_inverse(
    a: &BinaryVector,
    b: &BinaryVector,
    ab: &BinaryVector,
    ba: &BinaryVector,
    aa: &BinaryVector,
)
    requires
        a.wf(),
        b.wf(),
        a@.len() == b@.len(),
        ab.wf() && ab@ == xor_bits(a@, b@),
        ba.wf() && ba@ == xor_bits(b@, a@),
        aa.wf() && aa@ == xor_bits(a@, a@),
    ensures
        ab.same_as(ba),
        aa@ == zero_bits(a@.len()),
        aa.support().len() == 0,
{
    assert(xor_bits(a@, b@) =~= xor_bits(b@, a@));
    lemma_same_bits_equal(ab, ba);
    assert(xor_bits(a@, a@) =~= zero_bits(a@.len()));
    if aa.support().len() > 0 {
        assert(aa@[aa.support()[0] as int]);
    }
}

} // verus!
