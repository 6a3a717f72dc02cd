use vstd::prelude::*;
use rand::Rng as _;
use rand::SeedableRng as _;

use rand_xoshiro::Xoshiro512StarStar;

verus! {

#[verifier::external_type_specification]
#[verifier::external_body]
pub struct ExXoshiro512StarStar(Xoshiro512StarStar);

/// The state that `seed_from_u64` builds from a seed.
pub uninterp spec fn seeded_state(seed: u64) -> Xoshiro512StarStar;

/// The state that `Xoshiro512StarStar::jump` moves a state to.
pub uninterp spec fn jumped(state: Xoshiro512StarStar) -> Xoshiro512StarStar;

/// The state that `Xoshiro512StarStar::long_jump` moves a state to.
pub uninterp spec fn long_jumped(state: Xoshiro512StarStar) -> Xoshiro512StarStar;

/// Relies on `SeedableRng::seed_from_u64` for `Xoshiro512StarStar`, which
/// expands the seed with SplitMix64: the state depends on the seed alone.
#[verifier::external_body]
fn xoshiro_from_seed(seed: u64) -> (r: Xoshiro512StarStar)
    ensures
        r == seeded_state(seed),
{
    Xoshiro512StarStar::seed_from_u64(seed)
}

/// Relies on `SeedableRng::from_rng` over `rand::rngs::OsRng`: a generator
/// seeded by the operating system, or `None` when the operating system
/// cannot supply entropy.
#[verifier::external_body]
fn xoshiro_from_os() -> (r: Option<Xoshiro512StarStar>) {
    Xoshiro512StarStar::from_rng(rand::rngs::OsRng).ok()
}

/// Relies on the derived `Clone` of `Xoshiro512StarStar`: a copy of the
/// state.
#[verifier::external_body]
fn xoshiro_copy(g: &Xoshiro512StarStar) -> (r: Xoshiro512StarStar)
    ensures
        r == *g,
{
    g.clone()
}

/// Relies on `Xoshiro512StarStar::jump`: advances the state by 2^256 draws;
/// the new state depends on the old one alone.
#[verifier::external_body]
fn xoshiro_jump(g: &mut Xoshiro512StarStar)
    ensures
        *final(g) == jumped(*old(g)),
{
    g.jump()
}

/// Relies on `Xoshiro512StarStar::long_jump`: advances the state by 2^384
/// draws; the new state depends on the old one alone.
#[verifier::external_body]
fn xoshiro_long_jump(g: &mut Xoshiro512StarStar)
    ensures
        *final(g) == long_jumped(*old(g)),
{
    g.long_jump()
}

/// Relies on `Rng::gen_range` over `low..high`: a value in that range; it
/// panics on an empty range, which `requires` leaves out.
#[verifier::external_body]
fn xoshiro_in_range(g: &mut Xoshiro512StarStar, low: u64, high: u64) -> (r: u64)
    requires
        low < high,
    ensures
        low <= r < high,
{
    g.gen_range(low..high)
}

/// Relies on `Rng::gen::<u64>`: any 64-bit value.
#[verifier::external_body]
fn xoshiro_next(g: &mut Xoshiro512StarStar) -> (r: u64) {
    g.gen::<u64>()
}

/// A splittable pseudo-random generator (xoshiro512**): `jump` and
/// `long_jump` hand out streams that do not overlap with the rest of this one.
pub struct Rng {
    inner: Xoshiro512StarStar,
}

impl Rng {
    /// The generator's state.
    pub closed spec fn state(&self) -> Xoshiro512StarStar {
        self.inner
    }

    /// A generator seeded with `seed`, or from the operating system's
    /// entropy when no seed is given; `None` only when that entropy is not
    /// available.
    pub fn new(seed: Option<u64>) -> (r: Option<Self>)
        ensures
            seed matches Some(s) ==> (r matches Some(g) && g.state() == seeded_state(s)),
    {
        match seed {
            Some(s) => Some(Rng::from_seed(s)),
            None => match xoshiro_from_os() {
                Some(inner) => Some(Rng { inner }),
                None => None,
            },
        }
    }

    /// The generator whose state is `state`.
    pub fn from_state(state: Xoshiro512StarStar) -> (r: Self)
        ensures
            r.state() == state,
    {
        Rng { inner: state }
    }

    /// The generator's state.
    pub fn generator(&self) -> (r: &Xoshiro512StarStar)
        ensures
            *r == self.state(),
    {
        &self.inner
    }

    /// The generator seeded with `seed`.
    pub fn from_seed(seed: u64) -> (r: Self)
        ensures
            r.state() == seeded_state(seed),
    {
        Rng { inner: xoshiro_from_seed(seed) }
    }

    /// Returns a stream that starts at the current state, then moves this
    /// generator 2^256 draws ahead.
    pub fn jump(&mut self) -> (r: Self)
        ensures
            r.state() == old(self).state(),
            final(self).state() == jumped(old(self).state()),
    {
        let other = Rng { inner: xoshiro_copy(&self.inner) };
        xoshiro_jump(&mut self.inner);
        other
    }

    /// Returns a stream that starts at the current state, then moves this
    /// generator 2^384 draws ahead.
    pub fn long_jump(&mut self) -> (r: Self)
        ensures
            r.state() == old(self).state(),
            final(self).state() == long_jumped(old(self).state()),
    {
        let other = Rng { inner: xoshiro_copy(&self.inner) };
        xoshiro_long_jump(&mut self.inner);
        other
    }

    /// A draw in `low..high`; the range must not be empty.
    pub fn below_range(&mut self, low: u64, high: u64) -> (r: u64)
        requires
            low < high,
        ensures
            low <= r < high,
    {
        xoshiro_in_range(&mut self.inner, low, high)
    }

    /// A draw in `range.0..range.1` when a range is given, any 64-bit value
    /// otherwise; a given range must not be empty.
    pub fn rand_int(&mut self, range: Option<(u64, u64)>) -> (r: u64)
        requires
            range matches Some(bounds) ==> bounds.0 < bounds.1,
        ensures
            range matches Some(bounds) ==> bounds.0 <= r < bounds.1,
    {
        match range {
            Some((low, high)) => xoshiro_in_range(&mut self.inner, low, high),
            None => xoshiro_next(&mut self.inner),
        }
    }
}

} // verus!
