//! The system clock.

use vstd::prelude::*;

verus! {

/// `std::time::SystemTime`, declared so that a reading of the clock can be
/// handed on. Nothing of its inside is known.
#[verifier::external_type_specification]
#[verifier::external_body]
pub struct ExSystemTime(std::time::SystemTime);

/// `std::time::SystemTimeError`, declared so that the failure of a reading
/// can be told from its success: the clock fails to give the time passed
/// since the start of 1970 where it is set before that. Nothing of the
/// inside of the error is known.
#[verifier::external_type_specification]
#[verifier::external_body]
pub struct ExSystemTimeError(std::time::SystemTimeError);

/// `std::time::SystemTime::now`: what the system clock shows. Nothing is
/// claimed of it.
#[verifier::external_body]
fn system_now() -> std::time::SystemTime {
    std::time::SystemTime::now()
}

/// `std::time::SystemTime::duration_since`, from the start of 1970: the time
/// passed since then, or an error for a clock set before it. Nothing is
/// claimed of either.
#[verifier::external_body]
fn since_epoch(now: &std::time::SystemTime) -> Result<
    core::time::Duration,
    std::time::SystemTimeError,
> {
    now.duration_since(std::time::UNIX_EPOCH)
}

/// `core::time::Duration::as_millis`: the whole milliseconds of a duration.
/// Nothing is claimed of them.
#[verifier::external_body]
fn whole_millis(duration: &core::time::Duration) -> u128 {
    duration.as_millis()
}

/// The time in milliseconds since the start of 1970, as the system clock
/// has it; zero where the clock is set before that.
pub fn get_time() -> u128 {
    let now = system_now();
    let reading = match since_epoch(&now) {
        Ok(passed) => Some(whole_millis(&passed)),
        Err(_) => None,
    };
    time_of_reading(reading)
}

/// The time that a reading of the clock stands for: the milliseconds that
/// the clock gave, and zero where it gave none.
pub fn time_of_reading(reading: Option<u128>) -> (time: u128)
    ensures
        time == match reading {
            Some(millis) => millis,
            None => 0,
        },
{
    match reading {
        Some(millis) => millis,
        None => 0,
    }
}

} // verus!
