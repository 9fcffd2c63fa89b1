use vstd::prelude::*;

verus! {

/// Draws one 64-bit word from `rand::random`, the thread-local generator of the `rand`
/// crate. Nothing is claimed of the word: every value may come back.
#[verifier::external_body]
pub(crate) fn random_word() -> (w: u64) {
    rand::random::<u64>()
}

} // verus!
