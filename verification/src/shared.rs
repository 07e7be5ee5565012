//! Run settings shared by every search domain, and the randomness sources
//! that the behaviours draw from.

use vstd::prelude::*;
use rand::distributions::{Alphanumeric, DistString};
use rand::seq::SliceRandom;
use rand::RngCore;

verus! {

/// Command-line settings, as plain values; argument parsing itself lives
/// outside the library.
#[derive(Debug)]
pub struct CliSettings {
    /// Path of the keyboard settings file.
    pub keyboard: Option<String>,

    /// Path of the sample text file.
    pub text: Option<String>,

    /// Path of the digraphs file.
    pub digraphs: Option<String>,

    pub frozen_left: String,

    pub frozen_right: String,

    pub mutations_count: u8,

    pub population_size: u16,

    pub children_count: u16,

    /// How long we run a genetic algorithm.
    pub generations_count: u16,

    /// How much we render at the end.
    pub results_count: u8,

    pub left_count: u8,

    /// How long we continue on the same result: if generations are not
    /// evolving there is not much sense to continue.
    pub repeats_count: u16,
}

/// A fresh version token.
///
/// Relies on rand's `Alphanumeric::sample_string` over the thread-local
/// generator: exactly ten characters are appended to an empty string, each
/// sampled from its 62-character ASCII alphanumeric charset.  Which
/// characters come out is random, so nothing more is promised.
#[verifier::external_body]
pub fn get_version() -> (r: String)
    ensures
        r@.len() == 10,
        forall|i: int| 0 <= i < r@.len() ==> crate::text::is_ascii_alphanumeric(#[trigger] r@[i]),
{
    Alphanumeric.sample_string(&mut rand::thread_rng(), 10)
}

/// Permute a vector randomly, in place.
///
/// Relies on rand's `SliceRandom::shuffle`: a Durstenfeld shuffle that only
/// swaps elements of the slice, so the multiset of elements is unchanged.
#[verifier::external_body]
pub(crate) fn shuffle<T>(v: &mut Vec<T>)
    ensures
        final(v)@.len() == old(v)@.len(),
        final(v)@.to_multiset() == old(v)@.to_multiset(),
{
    v.shuffle(&mut rand::thread_rng());
}

/// A random machine word.
///
/// Relies on rand's `RngCore::next_u32` on the thread-local generator; the
/// result is random, so nothing is promised of it.
#[verifier::external_body]
pub(crate) fn random_u32() -> u32 {
    rand::thread_rng().next_u32()
}

} // verus!
