use vstd::prelude::*;
use crate::error::QecError;
use crate::kernel::orthogonal_to_all;
use crate::linear_code::LinearCode;
use crate::matrix::{column, BinaryMatrix};
use crate::vector::{common_ones, dot_bits, zero_bits, BinaryVector};

verus! {

/// How many checks of `h` that fail under the syndrome `s` involve bit `j`.
pub open spec fn failing_checks_on(h: Seq<Seq<bool>>, s: Seq<bool>, j: int) -> nat {
    common_ones(column(h, j), s, h.len() as int)
}

/// `best` is the lowest of the `n` bits with the most failing checks.
pub open spec fn is_flip_choice(h: Seq<Seq<bool>>, s: Seq<bool>, n: int, best: int) -> bool {
    &&& 0 <= best < n
    &&& forall|j: int| 0 <= j < n ==> #[trigger] failing_checks_on(h, s, j) <= failing_checks_on(h, s, best)
    &&& forall|j: int| 0 <= j < best ==> #[trigger] failing_checks_on(h, s, j) < failing_checks_on(h, s, best)
}

/// Two lowest bits with the most failing checks are the same bit.
pub proof fn lemma_flip_choice_unique(h: Seq<Seq<bool>>, s: Seq<bool>, n: int, a: int, b: int)
    requires
        is_flip_choice(h, s, n, a),
        is_flip_choice(h, s, n, b),
    ensures
        a == b,
{
    if a < b {
        assert(failing_checks_on(h, s, a) < failing_checks_on(h, s, b));
        assert(failing_checks_on(h, s, b) <= failing_checks_on(h, s, a));
    } else if b < a {
        assert(failing_checks_on(h, s, b) < failing_checks_on(h, s, a));
        assert(failing_checks_on(h, s, a) <= failing_checks_on(h, s, b));
    }
}

/// The syndrome `h · y`.
pub open spec fn syndrome_bits(h: Seq<Seq<bool>>, y: Seq<bool>) -> Seq<bool> {
    Seq::new(h.len(), |i: int| dot_bits(h[i], y))
}

/// The bit a round flips: the lowest with the most failing checks.
pub open spec fn flip_choice(h: Seq<Seq<bool>>, y: Seq<bool>) -> int {
    choose|b: int| is_flip_choice(h, syndrome_bits(h, y), y.len() as int, b)
}

/// What `rounds` rounds of bit flipping make of `y`: it stops as soon as
/// every check is satisfied, and otherwise flips the chosen bit.
pub open spec fn flip_run(h: Seq<Seq<bool>>, y: Seq<bool>, rounds: nat) -> Seq<bool>
    decreases rounds,
{
    if rounds == 0 || orthogonal_to_all(h, y) {
        y
    } else {
        let b = flip_choice(h, y);
        flip_run(h, y.update(b, !y[b]), (rounds - 1) as nat)
    }
}

/// The bit-flip decoder: while some check fails, flips the bit that takes
/// part in the most failing checks (the lowest such bit on ties), for at
/// most as many rounds as the code has bits.
pub struct FlipDecoder {
    code: LinearCode,
    checks_of_bits: BinaryMatrix,
    tag: String,
}

impl FlipDecoder {
    /// The code decoded.
    pub closed spec fn code_spec(&self) -> LinearCode {
        self.code
    }

    /// The code is well formed and `checks_of_bits` is the transpose of its
    /// parity-check matrix.
    pub closed spec fn wf(&self) -> bool {
        &&& self.code.wf()
        &&& self.checks_of_bits.wf()
        &&& self.checks_of_bits.nrows() == self.code.len_spec()
        &&& self.checks_of_bits.ncols() == self.code.pcm().nrows()
        &&& forall|j: int| 0 <= j < self.code.len_spec() ==> #[trigger] self.checks_of_bits@[j] == column(self.code.pcm()@, j)
    }

    /// The label given to the decoder.
    pub closed spec fn tag_spec(&self) -> Seq<char> {
        self.tag@
    }

    /// The decoder of `code`, labelled `tag`.
    pub fn new(code: LinearCode, tag: String) -> (r: Self)
        requires
            code.wf(),
        ensures
            r.wf(),
            r.code_spec() == code,
            r.tag_spec() == tag@,
    {
        let checks_of_bits = code.par_mat().transposed();
        FlipDecoder { code, checks_of_bits, tag }
    }

    /// The label given to the decoder.
    pub fn tag(&self) -> (r: &str)
        ensures
            r@ == self.tag_spec(),
    {
        self.tag.as_str()
    }

    /// A description of the decoder.
    pub fn to_json(&self) -> (r: String)
        ensures
            r@ == "Flip decoder"@,
    {
        "Flip decoder".to_owned()
    }

    /// The code decoded.
    pub fn code(&self) -> (r: &LinearCode)
        ensures
            r == self.code_spec(),
    {
        &self.code
    }

    /// Decodes `message`: fails unless it has the code's length. Runs at
    /// most as many flip rounds as the code has bits, stopping at the first
    /// codeword; a codeword comes back unchanged.
    pub fn decode(&self, message: &BinaryVector) -> (r: Result<BinaryVector, QecError>)
        requires
            self.wf(),
            message.wf(),
        ensures
            message@.len() != self.code_spec().len_spec() ==> r == Err::<BinaryVector, QecError>(QecError::DimensionMismatch),
            message@.len() == self.code_spec().len_spec() ==> (r matches Ok(v) && v.wf()
                && v@ == flip_run(self.code_spec().pcm()@, message@, message@.len())),
    {
        let n = self.code.length();
        if message.len() != n {
            return Err(QecError::DimensionMismatch);
        }
        if self.code.has_codeword(message) {
            return Ok(message.clone());
        }
        let ghost hv = self.code.pcm()@;
        let h = self.code.par_mat();
        let mut current = message.clone();
        let mut round: usize = 0;
        while round < n
            invariant
                self.wf(),
                h == self.code_spec().pcm(),
                n == self.code_spec().len_spec(),
                current.wf(),
                current@.len() == n,
                round <= n,
                message@.len() == n,
                hv == self.code_spec().pcm()@,
                flip_run(hv, message@, n as nat) == flip_run(hv, current@, (n - round) as nat),
            decreases n - round,
        {
            let syndrome = h.times_vector(&current);
            if syndrome.is_zero() {
                assert(orthogonal_to_all(hv, current@)) by {
                    assert forall|i: int| 0 <= i < hv.len() implies !dot_bits(#[trigger] hv[i], current@) by {
                        assert(syndrome@[i] == zero_bits(syndrome@.len())[i]);
                    }
                }
                return Ok(current);
            }
            assert(!orthogonal_to_all(hv, current@)) by {
                if orthogonal_to_all(hv, current@) {
                    assert(syndrome@ =~= zero_bits(syndrome@.len()));
                }
            }
            let (next, best) = self.flip_round(&current, &syndrome);
            proof {
                assert(syndrome@ == syndrome_bits(hv, current@));
                lemma_flip_choice_unique(hv, syndrome@, n as int, best as int, flip_choice(hv, current@));
            }
            current = next;
            round = round + 1;
        }
        Ok(current)
    }

    /// One round: flips the lowest bit that takes part in the most checks
    /// failing under `syndrome`, the syndrome of `current`.
    fn flip_round(&self, current: &BinaryVector, syndrome: &BinaryVector) -> (r: (BinaryVector, usize))
        requires
            self.wf(),
            current.wf(),
            current@.len() == self.code_spec().len_spec(),
            current@.len() > 0,
            syndrome.wf(),
            syndrome@ == Seq::new(self.code_spec().pcm().nrows(), |i: int| dot_bits(self.code_spec().pcm()@[i], current@)),
        ensures
            is_flip_choice(self.code_spec().pcm()@, syndrome@, current@.len() as int, r.1 as int),
            r.0.wf(),
            r.0@ == current@.update(r.1 as int, !current@[r.1 as int]),
    {
        let n = current.len();
        let ghost h = self.code.pcm()@;
        let mut best: usize = 0;
        let mut best_count = self.failing_checks(0, syndrome);
        let mut bit: usize = 1;
        while bit < n
            invariant
                self.wf(),
                h == self.code_spec().pcm()@,
                n == self.code_spec().len_spec(),
                syndrome.wf(),
                syndrome@.len() == self.code_spec().pcm().nrows(),
                1 <= bit <= n,
                best < bit,
                best_count == failing_checks_on(h, syndrome@, best as int),
                forall|j: int| 0 <= j < bit ==> #[trigger] failing_checks_on(h, syndrome@, j) <= best_count,
                forall|j: int| 0 <= j < best ==> #[trigger] failing_checks_on(h, syndrome@, j) < best_count,
            decreases n - bit,
        {
            let count = self.failing_checks(bit, syndrome);
            if count > best_count {
                best = bit;
                best_count = count;
            }
            bit = bit + 1;
        }
        let flip = BinaryVector::from_sorted(n, vec![best]);
        assert(flip@ =~= Seq::new(n as nat, |t: int| t == best)) by {
            assert(seq![best][0] == best);
            assert forall|t: int| 0 <= t < n implies flip@[t] == (t == best) by {
                if seq![best].contains(t as usize) {
                    let k = choose|k: int| 0 <= k < 1 && seq![best][k] == t as usize;
                }
            }
        }
        let next = current.xor(&flip);
        assert(next@ =~= current@.update(best as int, !current@[best as int]));
        (next, best)
    }

    /// How many of the checks on `bit` fail under `syndrome`.
    fn failing_checks(&self, bit: usize, syndrome: &BinaryVector) -> (r: usize)
        requires
            self.wf(),
            syndrome.wf(),
            syndrome@.len() == self.code_spec().pcm().nrows(),
            bit < self.code_spec().len_spec(),
        ensures
            r == failing_checks_on(self.code_spec().pcm()@, syndrome@, bit as int),
    {
        let rows = self.checks_of_bits.rows();
        assert(self.checks_of_bits@[bit as int] == rows@[bit as int]@);
        rows[bit].common_count(syndrome)
    }
}

} // verus!
