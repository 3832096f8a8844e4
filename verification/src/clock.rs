use vstd::prelude::*;

verus! {

#[verifier::external_type_specification]
#[verifier::external_body]
pub struct ExSystemTime(std::time::SystemTime);

#[verifier::external_type_specification]
#[verifier::external_body]
pub struct ExSystemTimeError(std::time::SystemTimeError);

/// The system clock's reading, from `std::time::SystemTime::now()`. Nothing is stated of
/// it: it depends on the clock.
#[verifier::external_body]
fn system_now() -> std::time::SystemTime {
    std::time::SystemTime::now()
}

/// How long after the Unix epoch `t` is, from `SystemTime::duration_since(UNIX_EPOCH)`; the
/// error when `t` is before the epoch. Its documentation states no panic.
#[verifier::external_body]
fn since_epoch(t: &std::time::SystemTime) -> std::result::Result<std::time::Duration, std::time::SystemTimeError> {
    t.duration_since(std::time::UNIX_EPOCH)
}

/// How far before the epoch the time was, from `SystemTimeError::duration`.
#[verifier::external_body]
fn before_epoch(e: &std::time::SystemTimeError) -> std::time::Duration {
    e.duration()
}

/// The whole milliseconds of `d`, from `Duration::as_millis`.
#[verifier::external_body]
fn whole_millis(d: &std::time::Duration) -> u128 {
    d.as_millis()
}

/// The wall-clock time in milliseconds since the Unix epoch (negative before it), held to
/// the range of `i64`. Reading the clock never fails; which value comes back depends on the
/// clock and is not stated.
pub(crate) fn now_millis() -> (ms: i64) {
    let t = system_now();
    match since_epoch(&t) {
        Ok(d) => {
            let m = whole_millis(&d);
            if m > i64::MAX as u128 {
                i64::MAX
            } else {
                m as i64
            }
        },
        Err(e) => {
            let d = before_epoch(&e);
            let m = whole_millis(&d);
            if m > i64::MAX as u128 {
                -i64::MAX
            } else {
                -(m as i64)
            }
        },
    }
}

} // verus!
