//! The random source that every generating operation draws from.

use vstd::prelude::*;
use rand::rngs::StdRng;
use rand::Rng;
use rand::SeedableRng;
use rand::seq::SliceRandom;

verus! {

#[verifier::external_type_specification]
#[verifier::external_body]
pub struct ExStdRng(StdRng);

/// `SeedableRng::seed_from_u64` for `StdRng`: a generator whose stream is fixed
/// by `seed`. Nothing is claimed of the stream.
#[verifier::external_body]
fn std_rng_from_seed(seed: u64) -> StdRng {
    StdRng::seed_from_u64(seed)
}

/// `Rng::gen::<bool>`: a uniform boolean. Nothing is claimed of the value.
#[verifier::external_body]
fn std_rng_bool(rng: &mut StdRng) -> bool {
    rng.gen::<bool>()
}

/// `Rng::gen::<u64>`: a uniform 64-bit value. Nothing is claimed of the value.
#[verifier::external_body]
fn std_rng_u64(rng: &mut StdRng) -> u64 {
    rng.gen::<u64>()
}

/// `Rng::gen::<u128>`: a uniform 128-bit value. Nothing is claimed of the value.
#[verifier::external_body]
fn std_rng_u128(rng: &mut StdRng) -> u128 {
    rng.gen::<u128>()
}

/// `Rng::gen_ratio`: true with probability `numerator / denominator`. The call
/// panics on a zero denominator or a numerator above it, which the
/// precondition excludes. The value is claimed only where the odds leave no
/// choice: true for a numerator equal to the denominator, false for a
/// numerator of zero.
#[verifier::external_body]
fn std_rng_ratio(rng: &mut StdRng, numerator: u32, denominator: u32) -> (outcome: bool)
    requires
        0 < denominator,
        numerator <= denominator,
    ensures
        numerator == denominator ==> outcome,
        numerator == 0 ==> !outcome,
{
    rng.gen_ratio(numerator, denominator)
}

/// `SliceRandom::choose` on a slice: `None` for an empty slice, otherwise one
/// of its elements, handed out as a copy.
#[verifier::external_body]
fn std_rng_choose<T: Copy>(rng: &mut StdRng, items: &Vec<T>) -> (picked: Option<T>)
    ensures
        items@.len() == 0 ==> picked is None,
        items@.len() > 0 ==> picked is Some && items@.contains(picked->0),
{
    items.choose(rng).copied()
}

/// One draw as the source recorded it: what was asked for and what came.
pub enum Draw {
    /// A fair boolean and its outcome.
    Flip(bool),
    /// A 64-bit value.
    Word(u64),
    /// A 128-bit value.
    WideWord(u128),
    /// A draw with the odds `numerator` in `denominator`, and its outcome.
    Chance(u32, u32, bool),
    /// A choice among this many items.
    Pick(usize),
}

/// Whether `later` is the record `earlier` with more draws behind it.
pub open spec fn grown_from(earlier: Seq<Draw>, later: Seq<Draw>) -> bool {
    &&& earlier.len() <= later.len()
    &&& forall|k: int| 0 <= k < earlier.len() ==> #[trigger] later[k] == earlier[k]
}

/// Whether a draw is no draw with odds that came out true.
pub open spec fn missed(draw: Draw) -> bool {
    match draw {
        Draw::Chance(_, _, outcome) => !outcome,
        _ => true,
    }
}

/// Whether every draw with odds that the record holds from position `from`
/// on came out false.
pub open spec fn missed_since(log: Seq<Draw>, from: nat) -> bool {
    forall|k: int| from <= k < log.len() ==> missed(#[trigger] log[k])
}

/// What held of a record from some position on held of every record that
/// it grew from.
pub proof fn lemma_missed_earlier(earlier: Seq<Draw>, later: Seq<Draw>, from: nat)
    requires
        grown_from(earlier, later),
        missed_since(later, from),
    ensures
        missed_since(earlier, from),
{
    assert forall|k: int| from <= k < earlier.len() implies missed(#[trigger] earlier[k]) by {
        assert(later[k] == earlier[k]);
    }
}

/// A record that grew twice grew.
pub proof fn lemma_grown_twice(first: Seq<Draw>, second: Seq<Draw>, third: Seq<Draw>)
    requires
        grown_from(first, second),
        grown_from(second, third),
    ensures
        grown_from(first, third),
{
    assert forall|k: int| 0 <= k < first.len() implies #[trigger] third[k] == first[k] by {
        assert(second[k] == first[k]);
    }
}

/// An explicit handle on the randomness used by generation, wiring and relay.
/// It keeps a record of every draw made through it.
pub struct RandomSource {
    rng: StdRng,
    log: Ghost<Seq<Draw>>,
}

impl RandomSource {
    /// The generator that the draws are taken from.
    pub closed spec fn generator(&self) -> StdRng {
        self.rng
    }

    /// The draws made through this source so far, oldest first.
    pub closed spec fn drawn(&self) -> Seq<Draw> {
        self.log@
    }

    /// Wraps a generator that the caller prepared: the draws of the source
    /// are taken from it, and none has been made.
    pub fn new(rng: StdRng) -> (source: RandomSource)
        ensures
            source.generator() == rng,
            source.drawn() == Seq::<Draw>::empty(),
    {
        RandomSource { rng, log: Ghost(Seq::empty()) }
    }

    /// A source whose draws are reproducible from `seed`. None has been
    /// made.
    pub fn seeded(seed: u64) -> (source: RandomSource)
        ensures
            source.drawn() == Seq::<Draw>::empty(),
    {
        RandomSource { rng: std_rng_from_seed(seed), log: Ghost(Seq::empty()) }
    }

    /// A uniform boolean.
    pub fn flip(&mut self) -> (outcome: bool)
        ensures
            final(self).drawn() == old(self).drawn().push(Draw::Flip(outcome)),
    {
        let outcome = std_rng_bool(&mut self.rng);
        self.log = Ghost(self.log@.push(Draw::Flip(outcome)));
        outcome
    }

    /// A uniform 64-bit value.
    pub fn word(&mut self) -> (value: u64)
        ensures
            final(self).drawn() == old(self).drawn().push(Draw::Word(value)),
    {
        let value = std_rng_u64(&mut self.rng);
        self.log = Ghost(self.log@.push(Draw::Word(value)));
        value
    }

    /// A uniform 128-bit value.
    pub fn wide_word(&mut self) -> (value: u128)
        ensures
            final(self).drawn() == old(self).drawn().push(Draw::WideWord(value)),
    {
        let value = std_rng_u128(&mut self.rng);
        self.log = Ghost(self.log@.push(Draw::WideWord(value)));
        value
    }

    /// True with probability `numerator / denominator`: always where the
    /// two are equal, never where the numerator is zero.
    pub fn chance(&mut self, numerator: u32, denominator: u32) -> (outcome: bool)
        requires
            0 < denominator,
            numerator <= denominator,
        ensures
            numerator == denominator ==> outcome,
            numerator == 0 ==> !outcome,
            final(self).drawn() == old(self).drawn().push(
                Draw::Chance(numerator, denominator, outcome),
            ),
    {
        let outcome = std_rng_ratio(&mut self.rng, numerator, denominator);
        self.log = Ghost(self.log@.push(Draw::Chance(numerator, denominator, outcome)));
        outcome
    }

    /// One element of `items` chosen uniformly, or `None` when there is none.
    pub fn pick<T: Copy>(&mut self, items: &Vec<T>) -> (picked: Option<T>)
        ensures
            items@.len() == 0 ==> picked is None,
            items@.len() > 0 ==> picked is Some && items@.contains(picked->0),
            final(self).drawn() == old(self).drawn().push(Draw::Pick(items.len())),
    {
        let picked = std_rng_choose(&mut self.rng, items);
        self.log = Ghost(self.log@.push(Draw::Pick(items.len())));
        picked
    }
}

} // verus!
