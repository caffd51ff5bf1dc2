//! The seeded pseudo-random source that drives every generation algorithm.
//!
//! The generator is `rand_pcg::Pcg64`. Nothing here is proved of it: what its functions return
//! is given a name, so that the algorithms can say exactly which draws decide their result.

use rand::seq::SliceRandom;
use rand::Rng;
use rand::SeedableRng;
use rand_pcg::Pcg64;
use vstd::prelude::*;

verus! {

/// `rand_pcg::Pcg64`, declared so that verified code can carry a generator from one draw to
/// the next. Nothing inside it is visible here.
#[verifier::external_type_specification]
#[verifier::external_body]
pub struct ExPcg64(rand_pcg::Lcg128Xsl64);

/// The two 128-bit words that a `Pcg64` generator holds: its state and its increment.
pub uninterp spec fn pcg64_state(rng: Pcg64) -> (u128, u128);

/// The words of the generator that `Pcg64::seed_from_u64` makes from a seed.
pub uninterp spec fn pcg64_seeded(seed: u64) -> (u128, u128);

/// What `Rng::gen::<u64>` draws from a generator that holds `state`, and the words the generator
/// holds afterwards.
pub uninterp spec fn pcg64_word(state: (u128, u128)) -> (u64, (u128, u128));

/// What `Rng::gen::<u8>` draws from a generator that holds `state`, and the words the generator
/// holds afterwards.
pub uninterp spec fn pcg64_byte(state: (u128, u128)) -> (u8, (u128, u128));

/// What `Rng::gen_range(0..bound)` draws from a generator that holds `state`, and the words the
/// generator holds afterwards.
pub uninterp spec fn pcg64_below(state: (u128, u128), bound: u64) -> (u64, (u128, u128));

/// The index of the element that `SliceRandom::choose` picks from a slice of `len` elements with
/// a generator that holds `state`, and the words the generator holds afterwards.
pub uninterp spec fn pcg64_choice(state: (u128, u128), len: usize) -> (usize, (u128, u128));

/// `Pcg64::seed_from_u64`: the generator it returns depends on the seed alone.
#[verifier::external_body]
pub(crate) fn seeded_generator(seed: u64) -> (rng: Pcg64)
    ensures
        pcg64_state(rng) == pcg64_seeded(seed),
{
    Pcg64::seed_from_u64(seed)
}

/// `Rng::gen` for `u64`, on a `Pcg64`: the value drawn and the generator's new words depend on
/// the words it held.
#[verifier::external_body]
pub(crate) fn draw_word(rng: &mut Pcg64) -> (word: u64)
    ensures
        word == pcg64_word(pcg64_state(*old(rng))).0,
        pcg64_state(*final(rng)) == pcg64_word(pcg64_state(*old(rng))).1,
{
    rng.gen()
}

/// `Rng::gen` for `u8`, on a `Pcg64`: the value drawn and the generator's new words depend on
/// the words it held.
#[verifier::external_body]
pub(crate) fn draw_byte(rng: &mut Pcg64) -> (byte: u8)
    ensures
        byte == pcg64_byte(pcg64_state(*old(rng))).0,
        pcg64_state(*final(rng)) == pcg64_byte(pcg64_state(*old(rng))).1,
{
    rng.gen()
}

/// `Rng::gen_range` over `0..bound`, on a `Pcg64`: the value drawn lies in the range, and it and
/// the generator's new words depend on the bound and on the words the generator held. An empty
/// range is left out: there `gen_range` panics.
#[verifier::external_body]
pub(crate) fn draw_below(rng: &mut Pcg64, bound: u64) -> (drawn: u64)
    requires
        bound > 0,
    ensures
        drawn < bound,
        drawn == pcg64_below(pcg64_state(*old(rng)), bound).0,
        pcg64_state(*final(rng)) == pcg64_below(pcg64_state(*old(rng)), bound).1,
{
    rng.gen_range(0..bound)
}

/// `SliceRandom::choose`, on a `Pcg64`: of an empty slice it returns `None` and leaves the
/// generator alone; else it returns one of the elements, and which one, and the generator's new
/// words, depend on the slice's length and on the words the generator held.
#[verifier::external_body]
pub(crate) fn choose_member(rng: &mut Pcg64, run: &Vec<(usize, usize)>) -> (member: Option<
    (usize, usize),
>)
    ensures
        run@.len() == 0 ==> member is None && pcg64_state(*final(rng)) == pcg64_state(*old(rng)),
        run@.len() > 0 ==> member == Some(
            run@[pcg64_choice(pcg64_state(*old(rng)), run@.len() as usize).0 as int],
        ) && pcg64_choice(pcg64_state(*old(rng)), run@.len() as usize).0 < run@.len(),
        run@.len() > 0 ==> pcg64_state(*final(rng)) == pcg64_choice(
            pcg64_state(*old(rng)),
            run@.len() as usize,
        ).1,
{
    run.choose(rng).copied()
}

/// `rand::thread_rng` and `Rng::gen` for `u64`: a seed from the thread's generator, which the
/// system seeds. Nothing is known of the value.
#[verifier::external_body]
pub(crate) fn fresh_seed() -> (seed: u64) {
    rand::thread_rng().gen()
}

} // verus!
