//! The last scan of each device, so "what changed since last time" can be
//! shown next to the absolute total.

use vstd::prelude::*;
use crate::arena::Stats;

verus! {

/// Totals of one finished scan, and when it finished.
#[derive(Debug, Clone, Copy)]
pub struct ScanRecord {
    pub size: u64,
    pub files: u32,
    pub dirs: u32,
    /// Unix seconds. The frontend formats it; the host does not guess a
    /// locale.
    pub at: u64,
}

#[verifier::external_type_specification]
#[verifier::external_body]
pub struct ExSystemTime(std::time::SystemTime);

#[verifier::external_type_specification]
#[verifier::external_body]
pub struct ExSystemTimeError(std::time::SystemTimeError);

/// Calls `SystemTime::now`, the clock's current reading; nothing is claimed
/// of it.
#[verifier::external_body]
fn system_now() -> std::time::SystemTime {
    std::time::SystemTime::now()
}

/// Calls `SystemTime::duration_since` with the Unix epoch, which fails when
/// the clock reads earlier than the epoch; nothing is claimed of either
/// outcome.
#[verifier::external_body]
fn since_epoch(t: &std::time::SystemTime) -> std::result::Result<
    core::time::Duration,
    std::time::SystemTimeError,
> {
    t.duration_since(std::time::UNIX_EPOCH)
}

/// Calls `Duration::as_secs`, the whole seconds of a duration; the duration
/// is opaque here, so nothing is claimed of the number.
#[verifier::external_body]
fn whole_secs(d: &core::time::Duration) -> u64 {
    d.as_secs()
}

impl ScanRecord {
    /// Record the totals of a scan at a clock reading: the whole seconds
    /// since the Unix epoch, or `None` for a clock that reads before the
    /// epoch, which is recorded as time 0.
    pub fn from_stats_at(stats: &Stats, since_epoch_secs: Option<u64>) -> (r: ScanRecord)
        ensures
            r.size == stats.size,
            r.files == stats.files,
            r.dirs == stats.dirs,
            r.at == match since_epoch_secs {
                Some(s) => s,
                None => 0,
            },
    {
        let at = match since_epoch_secs {
            Some(s) => s,
            None => 0,
        };
        ScanRecord { size: stats.size, files: stats.files, dirs: stats.dirs, at }
    }

    /// Record the totals of a scan as of now, by `from_stats_at` with the
    /// clock's reading.
    pub fn from_stats(stats: &Stats) -> (r: ScanRecord)
        ensures
            r.size == stats.size,
            r.files == stats.files,
            r.dirs == stats.dirs,
    {
        let now = system_now();
        let secs = match since_epoch(&now) {
            Ok(d) => Some(whole_secs(&d)),
            Err(_) => None,
        };
        Self::from_stats_at(stats, secs)
    }
}

} // verus!
