use vstd::prelude::*;
use crate::error::ConvertError;

verus! {

/// The current time in whole seconds since the Unix epoch, as `chrono::Utc::now` reads it. The value is the
/// machine's clock, so all that is stated is that it is not negative: chrono panics on a clock set before the epoch.
#[verifier::external_body]
fn unix_time_now() -> (r: i64)
    ensures
        r >= 0,
{
    chrono::Utc::now().timestamp()
}

/// A random version 4 UUID from `uuid::Uuid::new_v4`, as its 16 bytes: the version nibble is 4 and the variant bits
/// are `10`, the other bits come from the operating system's random source (the crate panics if that fails).
#[verifier::external_body]
fn random_uuid_v4() -> (r: [u8; 16])
    ensures
        r[6] / 16 == 4,
        r[8] / 64 == 2,
{
    *uuid::Uuid::new_v4().as_bytes()
}

/// The creation time that the superblock records for `timestamp` seconds since the epoch, or `InvalidTimestamp` if
/// it does not fit the superblock's 32-bit field.
pub fn mkfs_time_of(timestamp: i64) -> (r: Result<u32, ConvertError>)
    ensures
        0 <= timestamp <= u32::MAX ==> r == Ok::<u32, ConvertError>(timestamp as u32),
        !(0 <= timestamp <= u32::MAX) ==> r == Err::<u32, ConvertError>(ConvertError::InvalidTimestamp),
{
    if 0 <= timestamp && timestamp <= u32::MAX as i64 {
        Ok(timestamp as u32)
    } else {
        Err(ConvertError::InvalidTimestamp)
    }
}

/// The identity of a new filesystem: a random version 4 UUID and the current time as its creation time. Fails with
/// `InvalidTimestamp` if the clock is beyond what the superblock's 32-bit creation time holds.
pub fn new_filesystem_identity() -> (r: Result<([u8; 16], u32), ConvertError>)
    ensures
        r matches Ok((uuid, _)) ==> uuid[6] / 16 == 4 && uuid[8] / 64 == 2,
        r matches Err(e) ==> e == ConvertError::InvalidTimestamp,
{
    let uuid = random_uuid_v4();
    let mkfs_time = mkfs_time_of(unix_time_now())?;
    Ok((uuid, mkfs_time))
}

} // verus!
