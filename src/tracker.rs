//! The decisions of one sampling tick and of attaching to the root process.
use crate::report::ReportIdentifier;
use crate::types::{ProcessResources, StackTrace};
use crate::writer::{occurrences, WriteRequest};
use vstd::prelude::*;

verus! {

/// How often attaching to the root process is tried before giving up.
pub const ATTACH_ATTEMPTS: u32 = 5;

/// What to do after a failed attempt to attach to the root process.
#[derive(Debug, Clone, Copy, PartialEq, Eq, Structural)]
pub enum AttachStep {
    /// Pause, then try again.
    RetryAfterPause,
    /// Fail with the last error.
    GiveUp,
}

/// Counts the failed attempts to attach to the root process.
pub struct AttachRetry {
    pub failures: u32,
}

impl AttachRetry {
    pub fn new() -> (r: AttachRetry)
        ensures
            r.failures == 0,
    {
        AttachRetry { failures: 0 }
    }

    /// Records a failed attempt and says whether to try again.
    pub fn on_failure(&mut self) -> (r: AttachStep)
        requires
            old(self).failures < ATTACH_ATTEMPTS,
        ensures
            final(self).failures == old(self).failures + 1,
            r == (if final(self).failures < ATTACH_ATTEMPTS {
                AttachStep::RetryAfterPause
            } else {
                AttachStep::GiveUp
            }),
    {
        self.failures = self.failures + 1;
        if self.failures < ATTACH_ATTEMPTS {
            AttachStep::RetryAfterPause
        } else {
            AttachStep::GiveUp
        }
    }
}

/// The positions, in order, of the captures whose process still had resources.
pub open spec fn kept_positions(found: Seq<bool>) -> Seq<int>
    decreases found.len(),
{
    if found.len() == 0 {
        Seq::empty()
    } else if found.last() {
        kept_positions(found.drop_last()).push(found.len() - 1)
    } else {
        kept_positions(found.drop_last())
    }
}

pub open spec fn found_flags(resources: Seq<Option<ProcessResources>>) -> Seq<bool> {
    resources.map_values(|r: Option<ProcessResources>| r is Some)
}

/// The identities a tick writes: each captured process whose resources were found,
/// in capture order, then the system-wide identity.
pub open spec fn tick_identities(pids: Seq<u32>, found: Seq<bool>) -> Seq<ReportIdentifier> {
    kept_positions(found).map_values(|k: int| ReportIdentifier::Pid(pids[k])).push(
        ReportIdentifier::Global,
    )
}

proof fn lemma_kept_positions_bounds(found: Seq<bool>)
    ensures
        forall|k: int|
            0 <= k < kept_positions(found).len() ==> 0 <= #[trigger] kept_positions(found)[k] < found.len()
                && found[kept_positions(found)[k]],
        forall|k1: int, k2: int|
            0 <= k1 < k2 < kept_positions(found).len() ==> #[trigger] kept_positions(found)[k1]
                < #[trigger] kept_positions(found)[k2],
    decreases found.len(),
{
    if found.len() > 0 {
        let prev = found.drop_last();
        lemma_kept_positions_bounds(prev);
        let kp = kept_positions(prev);
        let kf = kept_positions(found);
        assert forall|k: int| 0 <= k < kp.len() implies #[trigger] kf[k] == kp[k] && found[kp[k]] by {
            assert(found[kp[k]] == prev[kp[k]]);
        }
        if found.last() {
            assert(kf == kp.push(found.len() - 1));
        }
    }
}

/// The write requests of one tick. Each captured process, given with the resources
/// found for it, is written if its resources were found and skipped if it vanished in
/// between; the system-wide record, with no stack traces, is always written last.
pub fn plan_tick(
    captures: Vec<(u32, Vec<StackTrace>)>,
    resources: Vec<Option<ProcessResources>>,
    global: ProcessResources,
    time: u128,
) -> (r: Vec<WriteRequest>)
    requires
        captures@.len() == resources@.len(),
    ensures
        r@.map_values(|q: WriteRequest| q.identity) == tick_identities(
            captures@.map_values(|c: (u32, Vec<StackTrace>)| c.0),
            found_flags(resources@),
        ),
        forall|k: int|
            0 <= k < r@.len() - 1 ==> {
                let src = #[trigger] kept_positions(found_flags(resources@))[k];
                &&& r@[k].stacktraces == captures@[src].1
                &&& resources@[src] == Some(r@[k].resources)
                &&& r@[k].time == time
            },
        r@.last().stacktraces@.len() == 0,
        r@.last().resources == global,
        r@.last().time == time,
{
    let ghost all_caps = captures@;
    let ghost all_res = resources@;
    let ghost pids = all_caps.map_values(|c: (u32, Vec<StackTrace>)| c.0);
    let ghost found = found_flags(all_res);
    let mut captures = captures;
    let mut resources = resources;
    let mut requests: Vec<WriteRequest> = Vec::new();
    let n = captures.len();
    let mut k: usize = 0;
    while k < n
        invariant
            n == all_caps.len(),
            n == all_res.len(),
            k <= n,
            pids == all_caps.map_values(|c: (u32, Vec<StackTrace>)| c.0),
            found == found_flags(all_res),
            captures@ == all_caps.subrange(k as int, n as int),
            resources@ == all_res.subrange(k as int, n as int),
            requests@.len() == kept_positions(found.subrange(0, k as int)).len(),
            forall|m: int|
                0 <= m < requests@.len() ==> {
                    let src = #[trigger] kept_positions(found.subrange(0, k as int))[m];
                    &&& requests@[m].identity == ReportIdentifier::Pid(pids[src])
                    &&& requests@[m].stacktraces == all_caps[src].1
                    &&& all_res[src] == Some(requests@[m].resources)
                    &&& requests@[m].time == time
                },
        decreases n - k,
    {
        let (pid, stacktraces) = captures.remove(0);
        let found_res = resources.remove(0);
        assert(all_caps[k as int] == (pid, stacktraces));
        assert(all_res[k as int] == found_res);
        let ghost before = requests@;
        let ghost old_kept = kept_positions(found.subrange(0, k as int));
        assert(found.subrange(0, k + 1).drop_last() =~= found.subrange(0, k as int));
        match found_res {
            Some(res) => {
                requests.push(
                    WriteRequest { identity: ReportIdentifier::Pid(pid), resources: res, stacktraces, time },
                );
                assert(kept_positions(found.subrange(0, k + 1)) == old_kept.push(k as int));
            },
            None => {
                assert(kept_positions(found.subrange(0, k + 1)) == old_kept);
            },
        }
        assert(captures@ =~= all_caps.subrange(k + 1, n as int));
        assert(resources@ =~= all_res.subrange(k + 1, n as int));
        k = k + 1;
    }
    assert(found.subrange(0, n as int) =~= found);
    requests.push(
        WriteRequest { identity: ReportIdentifier::Global, resources: global, stacktraces: Vec::new(), time },
    );
    proof {
        let kept = kept_positions(found);
        assert(requests@.map_values(|q: WriteRequest| q.identity) =~= tick_identities(pids, found));
    }
    requests
}

/// A process that was captured but whose resources were not found is not written in
/// that tick: the tick adds no record to its log, so the next index its log gets is
/// the one it would have got had the tick not happened.
pub proof fn lemma_vanished_process_not_written(
    history: Seq<ReportIdentifier>,
    pids: Seq<u32>,
    found: Seq<bool>,
    k: int,
)
    requires
        pids.len() == found.len(),
        0 <= k < pids.len(),
        !found[k],
        forall|a: int, b: int| 0 <= a < b < pids.len() ==> #[trigger] pids[a] != #[trigger] pids[b],
    ensures
        occurrences(history + tick_identities(pids, found), ReportIdentifier::Pid(pids[k]))
            == occurrences(history, ReportIdentifier::Pid(pids[k])),
{
    let id = ReportIdentifier::Pid(pids[k]);
    let ids = tick_identities(pids, found);
    lemma_kept_positions_bounds(found);
    assert forall|m: int| 0 <= m < ids.len() implies #[trigger] ids[m] != id by {
        if m < ids.len() - 1 {
            let src = kept_positions(found)[m];
            assert(found[src]);
            assert(src != k);
        }
    }
    lemma_occurrences_of_absent(history, ids, id);
}

proof fn lemma_occurrences_of_absent(history: Seq<ReportIdentifier>, ids: Seq<ReportIdentifier>, id: ReportIdentifier)
    requires
        forall|m: int| 0 <= m < ids.len() ==> #[trigger] ids[m] != id,
    ensures
        occurrences(history + ids, id) == occurrences(history, id),
    decreases ids.len(),
{
    if ids.len() > 0 {
        assert((history + ids).drop_last() =~= history + ids.drop_last());
        lemma_occurrences_of_absent(history, ids.drop_last(), id);
    } else {
        assert(history + ids =~= history);
    }
}

} // verus!
