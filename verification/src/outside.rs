//! The two collaborators the notes rely on: an identifier generator and a
//! clock. Their contracts are believed, not proved.
use vstd::prelude::*;

verus! {

/// The date and time of the `time` crate, without an offset. The library
/// stores such a value with each note and never looks inside it.
#[verifier::external_type_specification]
#[verifier::external_body]
pub struct ExPrimitiveDateTime(time::PrimitiveDateTime);

/// Calls `nanoid::format` with the crate's default random source, its
/// URL-safe alphabet and its default size, as `nanoid::nanoid!()` does.
/// The generator stops once it has collected 21 symbols of the alphabet,
/// so the token has 21 characters; which ones is left open. The call
/// panics if the system has no randomness to give.
#[verifier::external_body]
pub(crate) fn fresh_token() -> (token: String)
    ensures
        token@.len() == 21,
{
    nanoid::format(nanoid::rngs::default, &nanoid::alphabet::SAFE, 21)
}

/// Reads the clock with `time::OffsetDateTime::now_utc` and joins its date
/// and time of day with `time::PrimitiveDateTime::new`. Nothing is claimed
/// of the value: it depends on the moment of the call. The call panics if
/// the system's clock is set outside the years that `time` can hold.
#[verifier::external_body]
pub(crate) fn current_timestamp() -> (stamp: time::PrimitiveDateTime) {
    let now = time::OffsetDateTime::now_utc();
    time::PrimitiveDateTime::new(now.date(), now.time())
}

} // verus!
