use vstd::prelude::*;

verus! {

/// Relies on rand::rngs::StdRng: a seedable random number generator, used
/// for candidate tie-breaking and for capping a paragraph's selection.
#[verifier::external_type_specification]
#[verifier::external_body]
pub struct ExStdRng(rand::rngs::StdRng);

/// Relies on rand::Rng::next_u64: the next draw. Nothing is known of
/// the value.
#[verifier::external_body]
pub(crate) fn next_u64(rng: &mut rand::rngs::StdRng) -> u64 {
    rand::Rng::next_u64(rng)
}

} // verus!
