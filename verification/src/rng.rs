use vstd::prelude::*;

verus! {

/// The seed used when the operating system gives no random number.
pub const FALLBACK_SEED: u64 = 0x2545_F491_4F6C_DD1D;

/// Draws a `u64` from the operating system's generator with
/// `TryRngCore::try_next_u64` on `rand::rngs::OsRng`; `None` when the operating
/// system gives no entropy. Nothing is stated of the value drawn: any `u64` may
/// come back.
#[verifier::external_body]
pub(crate) fn random_u64() -> Option<u64> {
    rand::TryRngCore::try_next_u64(&mut rand::rngs::OsRng).ok()
}

/// A random seed: a draw from the operating system, or `FALLBACK_SEED` when there is
/// none.
pub(crate) fn random_seed() -> (r: u64) {
    match random_u64() {
        Some(x) => x,
        None => FALLBACK_SEED,
    }
}

} // verus!
