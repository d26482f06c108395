use vstd::prelude::*;

verus! {

#[verifier::external_type_specification]
#[verifier::external_body]
pub struct ExSystemTime(std::time::SystemTime);

/// Relies on std's `SystemTime::now`: the machine's clock, of which nothing is promised.
#[verifier::external_body]
fn system_time_now() -> (r: std::time::SystemTime) {
    std::time::SystemTime::now()
}

/// Relies on std's `SystemTime::duration_since`, from the Unix epoch: the time elapsed since
/// then, or none where `t` lies before it.
#[verifier::external_body]
fn since_unix_epoch(t: &std::time::SystemTime) -> (r: Option<core::time::Duration>) {
    match t.duration_since(std::time::SystemTime::UNIX_EPOCH) {
        Ok(d) => Some(d),
        Err(_) => None,
    }
}

/// Relies on std's `Duration::as_millis`: the whole milliseconds of `d`.
#[verifier::external_body]
fn whole_millis(d: &core::time::Duration) -> (r: u128) {
    d.as_millis()
}

/// Milliseconds as a timestamp: held to the range of `i64`, and zero where there are none.
pub fn millis_to_timestamp(ms: Option<u128>) -> (r: i64)
    ensures
        r == match ms {
            Some(m) => if m <= i64::MAX {
                m as i64
            } else {
                i64::MAX
            },
            None => 0,
        },
{
    match ms {
        Some(m) => if m <= 0x7fff_ffff_ffff_ffffu128 {
            m as i64
        } else {
            0x7fff_ffff_ffff_ffffi64
        },
        None => 0,
    }
}

/// Wall-clock milliseconds since the Unix epoch as a timestamp; nothing is promised of the clock.
pub fn current_time_millis() -> (r: i64)
    ensures
        r >= 0,
{
    let now = system_time_now();
    let ms = match since_unix_epoch(&now) {
        Some(d) => Some(whole_millis(&d)),
        None => None,
    };
    millis_to_timestamp(ms)
}

} // verus!
