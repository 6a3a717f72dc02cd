use vstd::prelude::*;
use crate::error::QecError;
use crate::pauli::{Pauli, PauliOperator};
use crate::rng::Rng;
use crate::vector::{zero_bits, BinaryVector};

verus! {

/// A probability, held exactly as `numerator / denominator`.
#[derive(Debug, Clone, Copy, PartialEq, Eq, Structural)]
pub struct Probability {
    numerator: u64,
    denominator: u64,
}

impl Probability {
    /// The numerator.
    pub closed spec fn num(&self) -> nat {
        self.numerator as nat
    }

    /// The denominator.
    pub closed spec fn den(&self) -> nat {
        self.denominator as nat
    }

    /// A probability lies in `[0, 1]`.
    pub open spec fn wf(&self) -> bool {
        0 < self.den() && self.num() <= self.den()
    }

    /// The probability `numerator / denominator`: fails unless it lies in
    /// `[0, 1]`.
    pub fn try_new(numerator: u64, denominator: u64) -> (r: Result<Self, QecError>)
        ensures
            (denominator == 0 || numerator > denominator) ==> r == Err::<Self, QecError>(QecError::InvalidProbability),
            !(denominator == 0 || numerator > denominator) ==> (r matches Ok(p) && p.wf() && p.num() == numerator
                && p.den() == denominator),
    {
        if denominator == 0 || numerator > denominator {
            Err(QecError::InvalidProbability)
        } else {
            Ok(Probability { numerator, denominator })
        }
    }

    /// The numerator.
    pub fn numerator(&self) -> (r: u64)
        ensures
            r == self.num(),
    {
        self.numerator
    }

    /// The denominator.
    pub fn denominator(&self) -> (r: u64)
        ensures
            r == self.den(),
    {
        self.denominator
    }
}

/// Flips each bit independently with a fixed probability.
pub struct BinarySymmetricChannel {
    probability: Probability,
}

impl BinarySymmetricChannel {
    /// The flip probability.
    pub closed spec fn prob(&self) -> Probability {
        self.probability
    }

    /// The channel flipping each bit with probability
    /// `numerator / denominator`: fails unless that lies in `[0, 1]`.
    pub fn new(numerator: u64, denominator: u64) -> (r: Result<Self, QecError>)
        ensures
            (denominator == 0 || numerator > denominator) ==> r == Err::<Self, QecError>(QecError::InvalidProbability),
            !(denominator == 0 || numerator > denominator) ==> (r matches Ok(c) && c.prob().wf()
                && c.prob().num() == numerator && c.prob().den() == denominator),
    {
        match Probability::try_new(numerator, denominator) {
            Ok(probability) => Ok(BinarySymmetricChannel { probability }),
            Err(e) => Err(e),
        }
    }

    /// The flip probability.
    pub fn error_probability(&self) -> (r: Probability)
        ensures
            r == self.prob(),
    {
        self.probability
    }

    /// The error pattern given by uniform draws below the denominator: bit
    /// `i` flips when `draws[i]` is below the numerator.
    pub fn flips_from_draws(&self, draws: &Vec<u64>) -> (r: BinaryVector)
        ensures
            r.wf(),
            r@ == Seq::new(draws@.len(), |i: int| draws@[i] < self.prob().num()),
    {
        let mut bits: Vec<bool> = Vec::new();
        let mut i: usize = 0;
        while i < draws.len()
            invariant
                i <= draws@.len(),
                bits@ =~= Seq::new(i as nat, |t: int| draws@[t] < self.prob().num()),
            decreases draws@.len() - i,
        {
            bits.push(draws[i] < self.probability.numerator);
            i = i + 1;
        }
        BinaryVector::from_bits(&bits)
    }

    /// An error pattern on `length` bits, from `length` draws below the
    /// denominator: all zeros at probability 0, all ones at probability 1.
    pub fn sample(&self, length: usize, rng: &mut Rng) -> (r: BinaryVector)
        requires
            self.prob().wf(),
        ensures
            r.wf(),
            r@.len() == length,
            self.prob().num() == 0 ==> r@ == zero_bits(length as nat),
            self.prob().num() == self.prob().den() ==> r@ == Seq::new(length as nat, |i: int| true),
    {
        let draws = draws_below(self.probability.denominator, length, rng);
        let r = self.flips_from_draws(&draws);
        assert(self.prob().num() == 0 ==> r@ =~= zero_bits(length as nat));
        assert(self.prob().num() == self.prob().den() ==> r@ =~= Seq::new(length as nat, |i: int| true));
        r
    }
}

/// `count` uniform draws below `bound`.
fn draws_below(bound: u64, count: usize, rng: &mut Rng) -> (r: Vec<u64>)
    requires
        bound > 0,
    ensures
        r@.len() == count,
        forall|i: int| 0 <= i < count ==> #[trigger] r@[i] < bound,
{
    let mut draws: Vec<u64> = Vec::new();
    let mut i: usize = 0;
    while i < count
        invariant
            bound > 0,
            i <= count,
            draws@.len() == i,
            forall|t: int| 0 <= t < i ==> #[trigger] draws@[t] < bound,
        decreases count - i,
    {
        draws.push(rng.below_range(0, bound));
        i = i + 1;
    }
    draws
}

/// The label a draw below 3 picks: X, Y or Z.
pub open spec fn label_of(k: u64) -> Pauli {
    if k == 0 {
        Pauli::X
    } else if k == 1 {
        Pauli::Y
    } else {
        Pauli::Z
    }
}

/// Replaces each qubit independently, with a fixed probability, by X, Y or
/// Z chosen uniformly.
pub struct DepolarizingNoise {
    probability: Probability,
}

impl DepolarizingNoise {
    /// The error probability.
    pub closed spec fn prob(&self) -> Probability {
        self.probability
    }

    /// The channel with error probability `numerator / denominator`: fails
    /// unless that lies in `[0, 1]`.
    pub fn new(numerator: u64, denominator: u64) -> (r: Result<Self, QecError>)
        ensures
            (denominator == 0 || numerator > denominator) ==> r == Err::<Self, QecError>(QecError::InvalidProbability),
            !(denominator == 0 || numerator > denominator) ==> (r matches Ok(c) && c.prob().wf()
                && c.prob().num() == numerator && c.prob().den() == denominator),
    {
        match Probability::try_new(numerator, denominator) {
            Ok(probability) => Ok(DepolarizingNoise { probability }),
            Err(e) => Err(e),
        }
    }

    /// The error probability.
    pub fn error_probability(&self) -> (r: Probability)
        ensures
            r == self.prob(),
    {
        self.probability
    }

    /// The error given by pairs of draws: qubit `i` gets the label that
    /// `draws[i].1` picks when `draws[i].0` is below the numerator, and the
    /// identity otherwise.
    pub fn error_from_draws(&self, draws: &Vec<(u64, u64)>) -> (r: PauliOperator)
        ensures
            r.wf(),
            r@ == Seq::new(draws@.len(), |i: int| if draws@[i].0 < self.prob().num() { label_of(draws@[i].1) } else { Pauli::I }),
    {
        let mut xs: Vec<bool> = Vec::new();
        let mut zs: Vec<bool> = Vec::new();
        let mut i: usize = 0;
        while i < draws.len()
            invariant
                i <= draws@.len(),
                xs@.len() == i,
                zs@.len() == i,
                forall|t: int|
                    0 <= t < i ==> #[trigger] Pauli::from_parts(xs@[t], zs@[t]) == if draws@[t].0 < self.prob().num() {
                        label_of(draws@[t].1)
                    } else {
                        Pauli::I
                    },
            decreases draws@.len() - i,
        {
            let (hit, k) = draws[i];
            if hit < self.probability.numerator {
                if k == 0 {
                    xs.push(true);
                    zs.push(false);
                } else if k == 1 {
                    xs.push(true);
                    zs.push(true);
                } else {
                    xs.push(false);
                    zs.push(true);
                }
            } else {
                xs.push(false);
                zs.push(false);
            }
            i = i + 1;
        }
        let r = PauliOperator::from_parts(BinaryVector::from_bits(&xs), BinaryVector::from_bits(&zs));
        assert(r@ =~= Seq::new(draws@.len(), |i: int| if draws@[i].0 < self.prob().num() { label_of(draws@[i].1) } else { Pauli::I }));
        r
    }

    /// An error on `length` qubits, from a draw below the denominator for
    /// each qubit and, where it is below the numerator, a draw below 3 for the
    /// label: the identity everywhere at probability 0, a non-identity
    /// label on every qubit at probability 1.
    pub fn sample(&self, length: usize, rng: &mut Rng) -> (r: PauliOperator)
        requires
            self.prob().wf(),
        ensures
            r.wf(),
            r@.len() == length,
            self.prob().num() == 0 ==> r@ == Seq::new(length as nat, |i: int| Pauli::I),
            self.prob().num() == self.prob().den() ==> forall|i: int| 0 <= i < length ==> #[trigger] r@[i] != Pauli::I,
    {
        let mut draws: Vec<(u64, u64)> = Vec::new();
        let mut i: usize = 0;
        while i < length
            invariant
                self.prob().wf(),
                i <= length,
                draws@.len() == i,
                forall|t: int| 0 <= t < i ==> #[trigger] draws@[t].0 < self.prob().den(),
            decreases length - i,
        {
            let hit = rng.below_range(0, self.probability.denominator);
            let k = if hit < self.probability.numerator { rng.below_range(0, 3) } else { 0 };
            draws.push((hit, k));
            i = i + 1;
        }
        let r = self.error_from_draws(&draws);
        assert(self.prob().num() == 0 ==> r@ =~= Seq::new(length as nat, |i: int| Pauli::I));
        r
    }
}

} // verus!
