use vstd::prelude::*;

verus! {

/// Relies on `rand::random::<bool>`: one draw of a fair coin from the
/// thread-local generator. The outcome is chance, so nothing is promised
/// of it.
#[verifier::external_body]
pub(crate) fn coin() -> bool {
    rand::random::<bool>()
}

} // verus!
