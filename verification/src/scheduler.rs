//! Decisions of the background scheduler.
//!
//! The scheduler keeps cron-style schedules for three maintenance jobs:
//! statistics refresh ("optimize"), storage reclamation ("vacuum") and
//! compaction. The surrounding runtime computes each job's next calendar
//! occurrence and sleeps; the decisions — how long to sleep, whether a wakeup
//! is due, whether compaction gets another slice of its budget — are plain
//! functions of timestamps and live here.

use vstd::prelude::*;
use vstd::string::StringExecFns;

verus! {

/// When the statistics refresh runs (minute, hour, day, month, weekday).
pub const DB_OPTIMIZE_CRON_SCHEDULE: &'static str = "10 */3 * * *";

/// When storage reclamation runs.
pub const DB_VACUUM_CRON_SCHEDULE: &'static str = "30 4 */2 * *";

/// When compaction runs.
pub const DB_COMPRESS_MESSAGES_CRON_SCHEDULE: &'static str = "50 2 * * *";

/// Longest single sleep, in milliseconds. Sleeps are capped so that a host
/// suspension — which lets the monotonic clock drift against wall-clock
/// time — delays a job by at most one interval instead of arbitrarily long.
pub const MAX_SLEEP_MILLIS: u64 = 10 * 60 * 1000;

/// Wall-clock budget of one compaction cycle, in milliseconds: a backlog
/// drains over several cycles instead of monopolizing the writer.
pub const MAX_COMPRESS_MILLIS: u64 = 5 * 1000;

/// How long to sleep before re-examining a job scheduled for wall-clock time
/// `next_ms`: until the occurrence, but never longer than the cap, and not at
/// all for an occurrence already reached.
pub fn wake_delay_millis(now_ms: i64, next_ms: i64) -> (r: u64)
    ensures
        next_ms <= now_ms ==> r == 0,
        next_ms > now_ms ==> r == (if next_ms - now_ms > MAX_SLEEP_MILLIS {
            MAX_SLEEP_MILLIS as int
        } else {
            next_ms - now_ms
        }),
{
    if next_ms <= now_ms {
        0
    } else {
        let diff = next_ms as i128 - now_ms as i128;
        if diff > MAX_SLEEP_MILLIS as i128 {
            MAX_SLEEP_MILLIS
        } else {
            diff as u64
        }
    }
}

/// Whether a woken job is actually due: a wakeup before the scheduled
/// wall-clock time (a spurious or capped one) must go back to sleep.
pub fn due(now_ms: i64, scheduled_ms: i64) -> (r: bool)
    ensures
        r == (now_ms >= scheduled_ms),
{
    now_ms >= scheduled_ms
}

/// Whether a compaction cycle should invoke another pass: only while the
/// store reports more eligible data and the cycle's time budget remains.
pub fn compress_again(elapsed_ms: u64, more: bool) -> (r: bool)
    ensures
        r == (more && elapsed_ms < MAX_COMPRESS_MILLIS),
{
    more && elapsed_ms < MAX_COMPRESS_MILLIS
}

/// Validates the background-task frequency: running more often than once a
/// minute is refused.
pub fn frequency_seconds_valid_range(seconds: u64) -> (r: Result<u64, String>)
    ensures
        seconds >= 60 ==> (r matches Ok(v) && v == seconds),
        seconds < 60 ==> r is Err,
{
    if seconds < 60 {
        Err(
            String::from_str(
                "Running more often than once per minute is not recommended",
            ),
        )
    } else {
        Ok(seconds)
    }
}

} // verus!
