//! Finalized traffic relay with shared evidence and independent receipt observation.

pub mod bytes;
pub mod command;
pub mod config;
pub mod evidence;
pub mod fold;
pub mod foreign;
pub mod inspect;
pub mod observe;
pub mod relay;
pub mod service;
pub mod source;
pub mod state;
pub mod store;
pub mod table;
pub mod text;
pub mod words;

use std::time::SystemTime;
use vstd::prelude::*;

verus! {

/// A clock reading in milliseconds since the epoch: zero before it, and at most what a `u64` holds.
pub open spec fn reading(millis: Option<u128>) -> u64 {
    match millis {
        None => 0,
        Some(millis) => if millis <= u64::MAX {
            millis as u64
        } else {
            u64::MAX
        },
    }
}

/// A reading is the time that the clock showed, as far as it fits: no time before the epoch is negative,
/// and none after the last that fits wraps around.
pub proof fn law_a_reading_never_wraps(millis: Option<u128>)
    ensures
        millis is None ==> reading(millis) == 0,
        millis is Some && millis->0 < 0x1_0000_0000_0000_0000 ==> reading(millis) == millis->0,
        millis is Some && millis->0 >= 0x1_0000_0000_0000_0000 ==> reading(millis) == 0xffff_ffff_ffff_ffff,
{
}

/// The clock reading for what the clock showed.
pub fn clamp_millis(millis: Option<u128>) -> (r: u64)
    ensures
        r == reading(millis),
{
    match millis {
        None => 0,
        Some(millis) => if millis <= u64::MAX as u128 {
            millis as u64
        } else {
            u64::MAX
        },
    }
}

/// The machine's clock in milliseconds since the epoch.
pub fn now_ms() -> (r: u64)
    ensures
        exists|millis: Option<u128>| r == #[trigger] reading(millis),
{
    let millis: Option<u128> = match SystemTime::now().duration_since(foreign::unix_epoch()) {
        Ok(elapsed) => Some(elapsed.as_millis()),
        Err(_) => None,
    };
    clamp_millis(millis)
}

} // verus!
