//! The random source that seeds the key salt.
use rand::Rng;
use vstd::prelude::*;

verus! {

/// Relies on `rand::thread_rng` and `Rng::gen`: a uniformly drawn machine word.
/// Nothing is known of the value.
#[verifier::external_body]
pub(crate) fn random_word() -> (r: usize) {
    rand::thread_rng().gen::<usize>()
}

} // verus!
