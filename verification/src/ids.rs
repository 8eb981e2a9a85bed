//! Fresh ids for songs, sections, loops and routines: random, never reused,
//! and below 2^53 so they survive a round trip through a JSON number
//! (a 64-bit float represents every integer below 2^53 exactly).
use vstd::prelude::*;
use std::collections::HashSet;

verus! {

/// Ids are drawn from `[1, ID_LIMIT)`.
pub const ID_LIMIT: u64 = 0x20_0000_0000_0000;

/// Draws eight bytes from the system random source (`getrandom::getrandom`)
/// and reads them as a little-endian `u64`; `None` when the source is
/// unavailable. Nothing is promised about the value.
#[verifier::external_body]
fn random_u64() -> Option<u64> {
    let mut b = [0u8; 8];
    match getrandom::getrandom(&mut b) {
        Ok(()) => Some(u64::from_le_bytes(b)),
        Err(_) => None,
    }
}

/// The id a random draw maps to.
pub open spec fn spec_id_from_random(x: u64) -> int {
    1 + (x as int) % ((ID_LIMIT - 1) as int)
}

/// Map a random draw into `[1, 2^53)`.
pub fn id_from_random(x: u64) -> (id: i64)
    ensures
        id == spec_id_from_random(x),
        1 <= id < ID_LIMIT,
{
    (1 + x % (ID_LIMIT - 1)) as i64
}

/// Why no id came out of one attempt.
#[derive(Debug, Clone, Copy, PartialEq, Eq, Structural)]
pub enum IdError {
    /// The system random source is unavailable.
    RngUnavailable,
    /// The drawn id is already in use; draw again.
    Taken,
}

/// Keep a drawn random value as an id if it is free: `None` (no draw) is
/// `RngUnavailable`; otherwise the value's id is recorded in `used` and
/// returned, or refused as `Taken` when `used` already holds it.
pub fn claim_drawn_id(used: &mut HashSet<i64>, draw: Option<u64>) -> (r: Result<i64, IdError>)
    ensures
        match draw {
            None => r == Err::<i64, IdError>(IdError::RngUnavailable) && final(used)@ == old(used)@,
            Some(x) => {
                let id = spec_id_from_random(x) as i64;
                if old(used)@.contains(id) {
                    r == Err::<i64, IdError>(IdError::Taken) && final(used)@ == old(used)@
                } else {
                    r == Ok::<i64, IdError>(id) && final(used)@ == old(used)@.insert(id)
                }
            },
        },
{
    broadcast use vstd::std_specs::hash::group_hash_axioms;
    match draw {
        None => Err(IdError::RngUnavailable),
        Some(x) => {
            let id = id_from_random(x);
            if used.contains(&id) {
                Err(IdError::Taken)
            } else {
                used.insert(id);
                Ok(id)
            }
        }
    }
}

/// One attempt at a fresh id: draw at random and keep the id only if `used`
/// does not hold it yet, recording it there. Retrying until success yields an
/// id in `[1, 2^53)` that nothing else uses. Whether an attempt succeeds
/// rests on the random draw, so no input is promised success.
pub fn fresh_id_attempt(used: &mut HashSet<i64>) -> (r: Result<i64, IdError>)
    ensures
        match r {
            Ok(id) => 1 <= id < ID_LIMIT && !old(used)@.contains(id) && final(used)@ == old(used)@.insert(id),
            Err(_) => final(used)@ == old(used)@,
        },
{
    claim_drawn_id(used, random_u64())
}

} // verus!
