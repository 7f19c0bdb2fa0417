//! One process, independent relay/receipt workers, and a shared durable writer.

use crate::evidence;
use crate::evidence::{EvidenceError, EvidenceStore, Progress};
use crate::state;
use crate::store::DiskUsage;
use vstd::prelude::*;

verus! {

/// The window in which the last dispatched transactions may still appear on the target is over,
/// counted in time or in target blocks.
pub open spec fn window_elapsed(progress: Progress, now: u64, missing_ms: u64, missing_blocks: u64, has_window: bool) -> bool {
    ||| has_window && state::elapsed(now, progress.last_dispatch_ms) >= missing_ms
    ||| missing_blocks > 0 && state::elapsed(
        progress.target.height,
        progress.last_dispatch_target.height,
    ) >= missing_blocks
}

/// The window of the last dispatch is over if and only if its time has passed, where there is one in
/// time, or the target has come as many blocks further as the one in blocks counts, where that is not
/// zero.
pub proof fn law_the_window_of_the_last_dispatch(
    progress: Progress,
    now: u64,
    missing_ms: u64,
    missing_blocks: u64,
    has_window: bool,
)
    ensures
        window_elapsed(progress, now, missing_ms, missing_blocks, has_window) <==> {
            ||| has_window && (missing_ms == 0 || now >= progress.last_dispatch_ms + missing_ms)
            ||| missing_blocks > 0 && progress.target.height >= progress.last_dispatch_target.height + missing_blocks
        },
{
}

/// Whether the service has done what it was asked for: both source cursors have reached the end,
/// and nothing is pending any more or its window is over. `missing_seconds` is the window in time,
/// of which zero means none.
pub fn finished(
    progress: &Progress,
    pending: bool,
    to_block: Option<u64>,
    now: u64,
    missing_seconds: u64,
    missing_blocks: u64,
) -> (r: bool)
    ensures
        r == {
            &&& to_block matches Some(end) && progress.source.height >= end && progress.source_receipts.height >= end
            &&& !pending || window_elapsed(
                *progress,
                now,
                ((missing_seconds * 1000) % 0x1_0000_0000_0000_0000) as u64,
                missing_blocks,
                missing_seconds > 0,
            )
        },
{
    let end: u64 = match to_block {
        Some(end) => end,
        None => {
            return false;
        },
    };
    if progress.source.height < end || progress.source_receipts.height < end {
        return false;
    }
    let missing_ms: u64 = crate::config::millis(missing_seconds);
    let time_elapsed = missing_seconds > 0 && now.saturating_sub(progress.last_dispatch_ms)
        >= missing_ms;
    let blocks_elapsed = missing_blocks > 0 && progress.target.height.saturating_sub(
        progress.last_dispatch_target.height,
    ) >= missing_blocks;
    !pending || time_elapsed || blocks_elapsed
}

impl EvidenceStore {
    /// What the service does once a second: checks for a stall and prunes, then tells the progress
    /// and whether anything is pending.
    pub fn tick_at(
        &mut self,
        stall_ms: u64,
        retain_blocks: u64,
        usage: DiskUsage,
        now: u64,
    ) -> (r: Result<(Progress, bool), EvidenceError>)
        requires
            old(self).wf(),
            old(self)@.stalls(stall_ms, now) ==> old(self)@.progress.incident_sequence < u64::MAX,
            old(self)@.progress.archived_unmatched + old(self)@.retired_unmatched(retain_blocks) <= u64::MAX,
            old(self)@.progress.archived_included + old(self)@.retired_clean(retain_blocks) <= u64::MAX,
        ensures
            final(self).wf(),
            old(self)@.healthy() ==> final(self)@.healthy(),
            ({
                let checked = old(self)@.settle(old(self)@.check(stall_ms, now));
                let pruned = if retain_blocks == 0 {
                    Ok(None)
                } else {
                    checked.retire(retain_blocks)
                };
                match pruned {
                    Err(error) => final(self)@ == checked && r == Err::<(Progress, bool), EvidenceError>(error),
                    Ok(commit) => {
                        &&& final(self)@ == checked.settle(commit)
                        &&& r == (if retain_blocks > 0 && !checked.limits.admits_spec(usage) {
                            Err::<(Progress, bool), EvidenceError>(EvidenceError::DiskLimit)
                        } else {
                            Ok(
                                (
                                    final(self)@.progress,
                                    exists|key: Seq<u8>| #[trigger] final(self)@.store.pending.contains_key(key),
                                ),
                            )
                        })
                    },
                }
            }),
    {
        self.check_stall_at(stall_ms, now);
        proof {
            evidence::intake_laws::lemma_a_check_files_an_incident(old(self)@, stall_ms, now);
        }
        if let Err(error) = self.prune(retain_blocks, usage) {
            return Err(error);
        }
        let pending = self.has_pending();
        Ok((self.progress(), pending))
    }
}

} // verus!
