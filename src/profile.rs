//! Reconstruction of a recorded session into a timeline profile: the reference time,
//! the sampling interval, one timeline per recorded process, and the determinism of
//! the whole.
use crate::intern::{frame_view, frame_views, interned_key, thread_view, thread_views, FrameView, ThreadView};
use crate::main_thread::{is_main_thread, observes};
use crate::process::{build_process, is_timeline_of, sample_of, tick_of};
use crate::report::{
    all_named, is_first_unnamed, lines_for, read_report, ExportError, Report, ReportIdentifier,
};
use crate::timeline::{ProcessTimeline, TimelineProfile, TimelineSample, TimelineTick};
use crate::types::JsonLine;
use vstd::prelude::*;

verus! {

/// The earliest of the given times.
pub open spec fn is_earliest(times: Seq<u128>, t: u128) -> bool {
    times.contains(t) && forall|i: int| 0 <= i < times.len() ==> t <= #[trigger] times[i]
}

/// The gaps between consecutive times; a step back in time counts as no gap.
pub open spec fn time_deltas(times: Seq<u128>) -> Seq<u128> {
    Seq::new(
        (times.len() - 1) as nat,
        |i: int| if times[i + 1] >= times[i] { (times[i + 1] - times[i]) as u128 } else { 0 },
    )
}

pub open spec fn ascending(s: Seq<u128>) -> bool {
    forall|i: int, j: int| 0 <= i < j < s.len() ==> s[i] <= s[j]
}

/// `m` is the median of `d`: the element at position `len / 2` once `d` is sorted.
pub open spec fn is_median(d: Seq<u128>, m: u128) -> bool {
    exists|s: Seq<u128>|
        #![trigger s.to_multiset()]
        s.to_multiset() == d.to_multiset() && ascending(s) && s.len() == d.len() && d.len() / 2
            < s.len() && s[(d.len() / 2) as int] == m
}

/// Relies on `slice::sort_unstable`: the elements are kept and put in ascending order.
#[verifier::external_body]
fn sort_ascending(v: &mut Vec<u128>)
    ensures
        final(v)@.to_multiset() == old(v)@.to_multiset(),
        ascending(final(v)@),
{
    v.sort_unstable();
}

pub open spec fn line_times(lines: Seq<JsonLine>) -> Seq<u128> {
    lines.map_values(|l: JsonLine| l.time)
}

/// The times of the processes' records, process after process.
pub open spec fn entries_times(entries: Seq<(u32, Vec<JsonLine>)>) -> Seq<u128>
    decreases entries.len(),
{
    if entries.len() == 0 {
        Seq::empty()
    } else {
        entries_times(entries.drop_last()) + line_times(entries.last().1@)
    }
}

/// The merged record stream of a session, as times: the processes' records by
/// ascending process id, then the system-wide records.
pub open spec fn session_times(report: Report) -> Seq<u128> {
    entries_times(report.processes@) + match report.global {
        Some(lines) => line_times(lines@),
        None => Seq::empty(),
    }
}

/// The processes of a session that have records, by ascending process id.
pub open spec fn recorded_processes(entries: Seq<(u32, Vec<JsonLine>)>) -> Seq<(u32, Vec<JsonLine>)>
    decreases entries.len(),
{
    if entries.len() == 0 {
        Seq::empty()
    } else if entries.last().1@.len() > 0 {
        recorded_processes(entries.drop_last()).push(entries.last())
    } else {
        recorded_processes(entries.drop_last())
    }
}

/// Whether a process of the session has records but no stack trace in any of them.
pub open spec fn has_threadless_process(entries: Seq<(u32, Vec<JsonLine>)>) -> bool {
    exists|a: int|
        0 <= a < entries.len() && (#[trigger] entries[a]).1@.len() > 0 && !exists|u: u64|
            observes(entries[a].1@, u, false)
}

proof fn lemma_time_in_entries(entries: Seq<(u32, Vec<JsonLine>)>, a: int, k: int)
    requires
        0 <= a < entries.len(),
        0 <= k < entries[a].1@.len(),
    ensures
        entries_times(entries).contains(entries[a].1@[k].time),
    decreases entries.len(),
{
    let front = entries_times(entries.drop_last());
    let back = line_times(entries.last().1@);
    if a == entries.len() - 1 {
        assert((front + back)[front.len() + k] == back[k]);
    } else {
        lemma_time_in_entries(entries.drop_last(), a, k);
        let i = choose|i: int| 0 <= i < front.len() && front[i] == entries[a].1@[k].time;
        assert((front + back)[i] == front[i]);
    }
}

fn collect_times(lines: &Vec<JsonLine>, times: &mut Vec<u128>)
    ensures
        final(times)@ == old(times)@ + line_times(lines@),
{
    let ghost before = times@;
    let mut k: usize = 0;
    while k < lines.len()
        invariant
            k <= lines@.len(),
            times@ == before + line_times(lines@.subrange(0, k as int)),
        decreases lines@.len() - k,
    {
        times.push(lines[k].time);
        assert(line_times(lines@.subrange(0, k + 1)) =~= line_times(lines@.subrange(0, k as int)).push(
            lines@[k as int].time,
        ));
        k = k + 1;
    }
    assert(lines@.subrange(0, k as int) =~= lines@);
}

/// The times of a session's merged record stream.
pub fn session_record_times(report: &Report) -> (r: Vec<u128>)
    ensures
        r@ == session_times(*report),
{
    let mut times: Vec<u128> = Vec::new();
    let mut a: usize = 0;
    while a < report.processes.len()
        invariant
            a <= report.processes@.len(),
            times@ == entries_times(report.processes@.subrange(0, a as int)),
        decreases report.processes@.len() - a,
    {
        collect_times(&report.processes[a].1, &mut times);
        assert(report.processes@.subrange(0, a + 1).drop_last() =~= report.processes@.subrange(0, a as int));
        a = a + 1;
    }
    assert(report.processes@.subrange(0, a as int) =~= report.processes@);
    match &report.global {
        Some(lines) => collect_times(lines, &mut times),
        None => {
            assert(times@ + Seq::<u128>::empty() =~= times@);
        },
    }
    times
}

/// Builds a session's timeline: anchors it, then adds the processes one by one.
pub struct ProfileBuilder {
    pub start_time_millis: u128,
    pub interval_millis: u64,
    /// The processes added so far, in the order they were added.
    pub processes: Vec<ProcessTimeline>,
}

impl ProfileBuilder {
    /// A builder anchored at the session's reference time and sampling interval.
    pub fn from_samples(report: &Report) -> (r: Result<ProfileBuilder, ExportError>)
        ensures
            session_times(*report).len() < 2 <==> r is Err,
            r is Err ==> r == Err::<ProfileBuilder, ExportError>(ExportError::NoSamples),
            r matches Ok(b) ==> is_earliest(session_times(*report), b.start_time_millis) && (exists|
                d: u128,
            | is_median(time_deltas(session_times(*report)), d) && b.interval_millis == d as u64)
                && b.processes@.len() == 0,
    {
        let times = session_record_times(report);
        let start = Self::start_time(&times)?;
        let interval = Self::sampling_interval(&times)?;
        Ok(Self::new(start, interval))
    }

    /// The reference time of a session: the earliest time of any of its records.
    pub fn start_time(times: &Vec<u128>) -> (r: Result<u128, ExportError>)
        ensures
            times@.len() == 0 <==> r is Err,
            r is Err ==> r == Err::<u128, ExportError>(ExportError::NoSamples),
            r matches Ok(t) ==> is_earliest(times@, t),
    {
        if times.len() == 0 {
            return Err(ExportError::NoSamples);
        }
        let mut best = times[0];
        let mut i: usize = 1;
        assert(times@.subrange(0, 1)[0] == best);
        while i < times.len()
            invariant
                1 <= i <= times@.len(),
                times@.subrange(0, i as int).contains(best),
                forall|k: int| 0 <= k < i ==> best <= #[trigger] times@[k],
            decreases times@.len() - i,
        {
            if times[i] < best {
                best = times[i];
            }
            assert(times@.subrange(0, i + 1)[i as int] == times@[i as int]);
            assert(times@.subrange(0, i as int) =~= times@.subrange(0, i + 1).drop_last());
            i = i + 1;
        }
        assert(times@.subrange(0, i as int) =~= times@);
        Ok(best)
    }

    /// The intended time between samples: the median gap between consecutive times of
    /// the merged record stream, which one long pause does not move.
    pub fn sampling_interval(times: &Vec<u128>) -> (r: Result<u64, ExportError>)
        ensures
            times@.len() < 2 <==> r is Err,
            r is Err ==> r == Err::<u64, ExportError>(ExportError::NoSamples),
            r matches Ok(m) ==> exists|d: u128| is_median(time_deltas(times@), d) && m == d as u64,
    {
        if times.len() < 2 {
            return Err(ExportError::NoSamples);
        }
        let mut deltas: Vec<u128> = Vec::new();
        let mut i: usize = 1;
        while i < times.len()
            invariant
                1 <= i <= times@.len(),
                deltas@ =~= time_deltas(times@.subrange(0, i as int)),
            decreases times@.len() - i,
        {
            let gap = if times[i] >= times[i - 1] { times[i] - times[i - 1] } else { 0 };
            deltas.push(gap);
            assert(deltas@ =~= time_deltas(times@.subrange(0, i + 1)));
            i = i + 1;
        }
        assert(times@.subrange(0, i as int) =~= times@);
        let ghost unsorted = deltas@;
        sort_ascending(&mut deltas);
        proof {
            unsorted.to_multiset_ensures();
            deltas@.to_multiset_ensures();
            assert(deltas@.len() == unsorted.len());
        }
        let m = deltas[deltas.len() / 2];
        assert(is_median(unsorted, m));
        Ok(m as u64)
    }

    /// A builder with the given anchor and no processes.
    pub fn new(start_time_millis: u128, interval_millis: u64) -> (r: ProfileBuilder)
        ensures
            r.start_time_millis == start_time_millis,
            r.interval_millis == interval_millis,
            r.processes@.len() == 0,
    {
        ProfileBuilder { start_time_millis, interval_millis, processes: Vec::new() }
    }

    /// Adds the timeline of process `pid`; a process without records is skipped.
    pub fn add_process(&mut self, pid: u32, samples: &Vec<JsonLine>) -> (r: Result<(), ExportError>)
        requires
            forall|i: int|
                0 <= i < samples@.len() ==> old(self).start_time_millis <= (#[trigger] samples@[i]).time,
        ensures
            final(self).start_time_millis == old(self).start_time_millis,
            final(self).interval_millis == old(self).interval_millis,
            samples@.len() == 0 ==> r is Ok && final(self).processes@ == old(self).processes@,
            samples@.len() > 0 ==> (r is Err <==> !exists|u: u64| observes(samples@, u, false)),
            r matches Err(e) ==> e == (ExportError::NoThreads { pid }) && final(self).processes@
                == old(self).processes@,
            samples@.len() > 0 && r is Ok ==> final(self).processes@.len() == old(self).processes@.len()
                + 1 && final(self).processes@.drop_last() == old(self).processes@ && is_timeline_of(
                final(self).processes@.last(),
                pid,
                samples@,
                old(self).start_time_millis,
                old(self).interval_millis,
            ),
    {
        if samples.len() == 0 {
            return Ok(());
        }
        let process = build_process(pid, samples, self.start_time_millis, self.interval_millis)?;
        self.processes.push(process);
        proof {
            assert(self.processes@.drop_last() =~= old(self).processes@);
        }
        Ok(())
    }

    /// The finished timeline.
    pub fn finish(self) -> (r: TimelineProfile)
        ensures
            r.start_time_millis == self.start_time_millis,
            r.interval_millis == self.interval_millis,
            r.processes@ == self.processes@,
    {
        TimelineProfile {
            start_time_millis: self.start_time_millis,
            interval_millis: self.interval_millis,
            processes: self.processes,
        }
    }
}

/// `p` is the timeline of session `report`: anchored at its earliest record, with the
/// median gap as interval, and one process timeline per process with records, by
/// ascending process id.
pub open spec fn is_profile_of(p: TimelineProfile, report: Report) -> bool {
    let recorded = recorded_processes(report.processes@);
    &&& is_earliest(session_times(report), p.start_time_millis)
    &&& exists|d: u128| is_median(time_deltas(session_times(report)), d) && p.interval_millis == d as u64
    &&& p.processes@.len() == recorded.len()
    &&& forall|k: int|
        0 <= k < recorded.len() ==> is_timeline_of(
            #[trigger] p.processes@[k],
            recorded[k].0,
            recorded[k].1@,
            p.start_time_millis,
            p.interval_millis,
        )
}

/// What building the timeline of `report` gives: no timeline without two records, none
/// while a process with records shows no thread, else the session's timeline.
pub open spec fn is_outcome_for(r: Result<TimelineProfile, ExportError>, report: Report) -> bool {
    &&& session_times(report).len() < 2 ==> r == Err::<TimelineProfile, ExportError>(ExportError::NoSamples)
    &&& session_times(report).len() >= 2 ==> (r is Ok <==> !has_threadless_process(report.processes@))
    &&& session_times(report).len() >= 2 && r is Err ==> (r matches Err(ExportError::NoThreads { .. }))
    &&& r matches Err(ExportError::NoThreads { pid }) ==> session_times(report).len() >= 2 && exists|a: int|
        0 <= a < report.processes@.len() && (#[trigger] report.processes@[a]).0 == pid
            && report.processes@[a].1@.len() > 0 && !(exists|u: u64| observes(report.processes@[a].1@, u, false))
            && !has_threadless_process(report.processes@.subrange(0, a))
    &&& !(r matches Err(ExportError::UnrecognizedFileName { .. }))
    &&& r matches Ok(p) ==> is_profile_of(p, report)
}

/// The timeline of a loaded session.
pub fn generate_profile(report: &Report) -> (r: Result<TimelineProfile, ExportError>)
    requires
        report.well_formed(),
    ensures
        is_outcome_for(r, *report),
{
    let mut builder = ProfileBuilder::from_samples(report)?;
    let ghost times = session_times(*report);
    let ghost entries = report.processes@;
    let n = report.processes.len();
    let mut a: usize = 0;
    while a < n
        invariant
            n == entries.len(),
            entries == report.processes@,
            times == session_times(*report),
            a <= n,
            is_earliest(times, builder.start_time_millis),
            exists|d: u128| is_median(time_deltas(times), d) && builder.interval_millis == d as u64,
            !has_threadless_process(entries.subrange(0, a as int)),
            builder.processes@.len() == recorded_processes(entries.subrange(0, a as int)).len(),
            forall|k: int|
                0 <= k < builder.processes@.len() ==> is_timeline_of(
                    #[trigger] builder.processes@[k],
                    recorded_processes(entries.subrange(0, a as int))[k].0,
                    recorded_processes(entries.subrange(0, a as int))[k].1@,
                    builder.start_time_millis,
                    builder.interval_millis,
                ),
        decreases n - a,
    {
        let entry = &report.processes[a];
        let ghost prefix = entries.subrange(0, a + 1);
        proof {
            assert(prefix.drop_last() =~= entries.subrange(0, a as int));
            assert(prefix.last() == entries[a as int]);
            assert forall|k: int| 0 <= k < entry.1@.len() implies builder.start_time_millis <= (
            #[trigger] entry.1@[k]).time by {
                lemma_time_in_entries(entries, a as int, k);
                let t = entry.1@[k].time;
                let i = choose|i: int| 0 <= i < entries_times(entries).len() && entries_times(entries)[i] == t;
                let rest = match report.global {
                    Some(lines) => line_times(lines@),
                    None => Seq::empty(),
                };
                assert((entries_times(entries) + rest)[i] == t);
            }
        }
        let ghost before = builder.processes@;
        match builder.add_process(entry.0, &entry.1) {
            Ok(()) => {},
            Err(e) => {
                proof {
                    assert(has_threadless_process(entries) && entries[a as int] == *entry);
                    assert(!has_threadless_process(entries.subrange(0, a as int)));
                }
                return Err(e);
            },
        }
        proof {
            let old_rec = recorded_processes(entries.subrange(0, a as int));
            let new_rec = recorded_processes(prefix);
            assert forall|b: int| 0 <= b < prefix.len() && (#[trigger] prefix[b]).1@.len() > 0 implies exists|
                u: u64,
            | observes(prefix[b].1@, u, false) by {
                if b < a {
                    assert(prefix[b] == entries.subrange(0, a as int)[b]);
                }
            }
            if entry.1@.len() > 0 {
                assert(new_rec == old_rec.push(*entry));
                assert forall|k: int| 0 <= k < builder.processes@.len() implies is_timeline_of(
                    #[trigger] builder.processes@[k],
                    new_rec[k].0,
                    new_rec[k].1@,
                    builder.start_time_millis,
                    builder.interval_millis,
                ) by {
                    if k < before.len() {
                        assert(builder.processes@[k] == builder.processes@.drop_last()[k]);
                    }
                }
            } else {
                assert(new_rec == old_rec);
            }
        }
        a = a + 1;
    }
    proof {
        assert(entries.subrange(0, n as int) =~= entries);
    }
    Ok(builder.finish())
}

/// What exporting a session given by its logs gives: an error naming the first log
/// whose file name names no identity; else the outcome of building the timeline of the
/// session those logs make up.
pub open spec fn is_export_outcome(
    files: Seq<(String, Vec<JsonLine>)>,
    r: Result<TimelineProfile, ExportError>,
) -> bool {
    &&& !all_named(files) ==> (r matches Err(ExportError::UnrecognizedFileName { name }) && exists|a: int|
        is_first_unnamed(files, a) && (#[trigger] files[a]).0@ == name@)
    &&& all_named(files) ==> exists|report: Report|
        report.well_formed() && (forall|id: ReportIdentifier| #[trigger] report.lines_of(id) == lines_for(files, id))
            && is_outcome_for(r, report)
}

/// The timeline of a recorded session, given by its logs: each log's file name
/// (without extension) and its records.
pub fn export_firefox(files: Vec<(String, Vec<JsonLine>)>) -> (r: Result<TimelineProfile, ExportError>)
    ensures
        is_export_outcome(files@, r),
{
    let ghost named = files@;
    let report = read_report(files)?;
    let r = generate_profile(&report);
    assert(report.well_formed() && (forall|id: ReportIdentifier| #[trigger] report.lines_of(id) == lines_for(named, id))
        && is_outcome_for(r, report));
    r
}

/// A sample as plain values: thread position, frame positions, CPU time.
pub open spec fn sample_view(smp: TimelineSample) -> (usize, Seq<usize>, u128) {
    (smp.thread, smp.stack@, smp.cpu_micros)
}

/// A tick as plain values.
pub open spec fn tick_view(tick: TimelineTick) -> (u128, Seq<(usize, Seq<usize>, u128)>, i128, i128) {
    (
        tick.time,
        tick.samples@.map_values(|smp: TimelineSample| sample_view(smp)),
        tick.memory_delta,
        tick.io_delta,
    )
}

/// A process timeline as plain values.
pub open spec fn process_view(p: ProcessTimeline) -> (
    u32,
    u128,
    Seq<ThreadView>,
    Seq<FrameView>,
    Seq<(u128, Seq<(usize, Seq<usize>, u128)>, i128, i128)>,
) {
    (
        p.pid,
        p.start_time,
        thread_views(p.threads@),
        frame_views(p.frames@),
        p.ticks@.map_values(|t: TimelineTick| tick_view(t)),
    )
}

/// A whole timeline as plain values: everything that is written out.
pub open spec fn profile_view(p: TimelineProfile) -> (
    u128,
    u64,
    Seq<
        (
            u32,
            u128,
            Seq<ThreadView>,
            Seq<FrameView>,
            Seq<(u128, Seq<(usize, Seq<usize>, u128)>, i128, i128)>,
        ),
    >,
) {
    (
        p.start_time_millis,
        p.interval_millis,
        p.processes@.map_values(|q: ProcessTimeline| process_view(q)),
    )
}

proof fn lemma_earliest_unique(times: Seq<u128>, t1: u128, t2: u128)
    requires
        is_earliest(times, t1),
        is_earliest(times, t2),
    ensures
        t1 == t2,
{
    let i1 = choose|i: int| 0 <= i < times.len() && times[i] == t1;
    let i2 = choose|i: int| 0 <= i < times.len() && times[i] == t2;
    assert(t1 <= times[i2]);
    assert(t2 <= times[i1]);
}

proof fn lemma_median_unique(d: Seq<u128>, m1: u128, m2: u128)
    requires
        is_median(d, m1),
        is_median(d, m2),
    ensures
        m1 == m2,
{
    let s1 = choose|s: Seq<u128>|
        #![trigger s.to_multiset()]
        s.to_multiset() == d.to_multiset() && ascending(s) && s.len() == d.len() && d.len() / 2
            < s.len() && s[(d.len() / 2) as int] == m1;
    let s2 = choose|s: Seq<u128>|
        #![trigger s.to_multiset()]
        s.to_multiset() == d.to_multiset() && ascending(s) && s.len() == d.len() && d.len() / 2
            < s.len() && s[(d.len() / 2) as int] == m2;
    let leq = |a: u128, b: u128| a <= b;
    assert(vstd::relations::total_ordering(leq)) by {
        reveal(vstd::relations::total_ordering);
    }
    assert(vstd::relations::sorted_by(s1, leq));
    assert(vstd::relations::sorted_by(s2, leq));
    vstd::seq_lib::lemma_sorted_unique(s1, s2, leq);
}

proof fn lemma_main_unique(lines: Seq<JsonLine>, t1: u64, t2: u64)
    requires
        is_main_thread(lines, t1),
        is_main_thread(lines, t2),
    ensures
        t1 == t2,
{
}

/// Two timelines of the same records agree in everything they hold.
proof fn lemma_process_determined(
    p1: ProcessTimeline,
    p2: ProcessTimeline,
    pid: u32,
    lines: Seq<JsonLine>,
    start: u128,
    interval: u64,
)
    requires
        is_timeline_of(p1, pid, lines, start, interval),
        is_timeline_of(p2, pid, lines, start, interval),
    ensures
        process_view(p1) == process_view(p2),
{
    lemma_main_unique(lines, p1.threads@[0].tid, p2.threads@[0].tid);
    let th1 = p1.threads@;
    let th2 = p2.threads@;
    let fr1 = p1.frames@;
    let fr2 = p2.frames@;
    let main = th1[0].tid;
    assert(thread_views(th1) == thread_views(th2));
    assert(frame_views(fr1) == frame_views(fr2));
    assert(th1.len() == thread_views(th1).len() && th2.len() == thread_views(th2).len());
    assert(fr1.len() == frame_views(fr1).len() && fr2.len() == frame_views(fr2).len());
    assert forall|x: int| 0 <= x < th1.len() implies (#[trigger] th1[x]).tid == th2[x].tid by {
        assert(thread_views(th1)[x] == thread_view(th1[x]));
        assert(thread_views(th2)[x] == thread_view(th2[x]));
    }
    assert forall|x: int| 0 <= x < fr1.len() implies interned_key(#[trigger] fr1[x]) == interned_key(fr2[x]) by {
        assert(frame_views(fr1)[x] == frame_view(fr1[x]));
        assert(frame_views(fr2)[x] == frame_view(fr2[x]));
    }
    let v1 = p1.ticks@.map_values(|t: TimelineTick| tick_view(t));
    let v2 = p2.ticks@.map_values(|t: TimelineTick| tick_view(t));
    assert forall|i: int| 0 <= i < lines.len() implies #[trigger] v1[i] == v2[i] by {
        let k1 = p1.ticks@[i];
        let k2 = p2.ticks@[i];
        assert(tick_of(k1, lines, i, start, th1, fr1, main, interval));
        assert(tick_of(k2, lines, i, start, th2, fr2, main, interval));
        let sv1 = k1.samples@.map_values(|smp: TimelineSample| sample_view(smp));
        let sv2 = k2.samples@.map_values(|smp: TimelineSample| sample_view(smp));
        assert forall|j: int| 0 <= j < k1.samples@.len() implies #[trigger] sv1[j] == sv2[j] by {
            let a = k1.samples@[j];
            let b = k2.samples@[j];
            let trace = lines[i].stacktraces@[j];
            assert(sample_of(a, trace, lines[i].resources, th1, fr1, main, interval));
            assert(sample_of(b, trace, lines[i].resources, th2, fr2, main, interval));
            assert(th1[b.thread as int].tid == th2[b.thread as int].tid);
            assert(a.thread == b.thread);
            assert forall|k: int| 0 <= k < a.stack@.len() implies #[trigger] a.stack@[k] == b.stack@[k] by {
                assert(interned_key(fr1[b.stack@[k] as int]) == interned_key(fr2[b.stack@[k] as int]));
            }
            assert(a.stack@ =~= b.stack@);
        }
        assert(sv1 =~= sv2);
    }
    assert(v1 =~= v2);
}

/// Two loaded sessions hold the same logs: the same process ids in the same order,
/// the same records for each, and the same system-wide records.
pub open spec fn same_session(r1: Report, r2: Report) -> bool {
    &&& same_entries(r1.processes@, r2.processes@)
    &&& global_view(r1) == global_view(r2)
}

pub open spec fn global_view(r: Report) -> Option<Seq<JsonLine>> {
    match r.global {
        Some(lines) => Some(lines@),
        None => None,
    }
}

/// The same process ids in the same order, with the same records.
pub open spec fn same_entries(e1: Seq<(u32, Vec<JsonLine>)>, e2: Seq<(u32, Vec<JsonLine>)>) -> bool {
    &&& e1.len() == e2.len()
    &&& forall|a: int| 0 <= a < e1.len() ==> (#[trigger] e1[a]).0 == e2[a].0 && e1[a].1@ == e2[a].1@
}

pub open spec fn strictly_ascending(s: Seq<u32>) -> bool {
    forall|a: int, b: int| 0 <= a < b < s.len() ==> s[a] < s[b]
}

proof fn lemma_ascending_keys_equal(s: Seq<u32>, t: Seq<u32>)
    requires
        strictly_ascending(s),
        strictly_ascending(t),
        forall|x: u32| s.contains(x) <==> t.contains(x),
    ensures
        s == t,
    decreases s.len() + t.len(),
{
    if s.len() == 0 {
        if t.len() > 0 {
            assert(t.contains(t[0]));
        }
        assert(s =~= t);
    } else if t.len() == 0 {
        assert(s.contains(s[0]));
    } else {
        assert(s.contains(s[0]));
        assert(t.contains(t[0]));
        let j = choose|j: int| 0 <= j < t.len() && t[j] == s[0];
        let i = choose|i: int| 0 <= i < s.len() && s[i] == t[0];
        assert(s[0] <= s[i]);
        assert(t[0] <= t[j]);
        assert forall|x: u32| s.drop_first().contains(x) <==> t.drop_first().contains(x) by {
            if s.drop_first().contains(x) {
                let a = choose|a: int| 0 <= a < s.len() - 1 && s.drop_first()[a] == x;
                assert(s[a + 1] == x);
                assert(t.contains(x));
                let b = choose|b: int| 0 <= b < t.len() && t[b] == x;
                assert(b != 0);
                assert(t.drop_first()[b - 1] == x);
            }
            if t.drop_first().contains(x) {
                let b = choose|b: int| 0 <= b < t.len() - 1 && t.drop_first()[b] == x;
                assert(t[b + 1] == x);
                assert(s.contains(x));
                let a = choose|a: int| 0 <= a < s.len() && s[a] == x;
                assert(a != 0);
                assert(s.drop_first()[a - 1] == x);
            }
        }
        lemma_ascending_keys_equal(s.drop_first(), t.drop_first());
        assert(s =~= seq![s[0]] + s.drop_first());
        assert(t =~= seq![t[0]] + t.drop_first());
    }
}

/// Two well-formed sessions that give every identity the same records hold the same logs.
proof fn lemma_same_lines_same_session(r1: Report, r2: Report)
    requires
        r1.well_formed(),
        r2.well_formed(),
        forall|id: ReportIdentifier| #[trigger] r1.lines_of(id) == r2.lines_of(id),
    ensures
        same_session(r1, r2),
{
    let e1 = r1.processes@;
    let e2 = r2.processes@;
    let k1 = e1.map_values(|e: (u32, Vec<JsonLine>)| e.0);
    let k2 = e2.map_values(|e: (u32, Vec<JsonLine>)| e.0);
    assert(r1.lines_of(ReportIdentifier::Global) == r2.lines_of(ReportIdentifier::Global));
    assert forall|x: u32| k1.contains(x) <==> k2.contains(x) by {
        assert(r1.lines_of(ReportIdentifier::Pid(x)) == r2.lines_of(ReportIdentifier::Pid(x)));
        if k1.contains(x) {
            let a = choose|a: int| 0 <= a < k1.len() && k1[a] == x;
            assert(e1[a].0 == x);
            assert(r2.lines_of(ReportIdentifier::Pid(x)) is Some);
            let b = choose|b: int| 0 <= b < e2.len() && (#[trigger] e2[b]).0 == x;
            assert(k2[b] == x);
        }
        if k2.contains(x) {
            let b = choose|b: int| 0 <= b < k2.len() && k2[b] == x;
            assert(e2[b].0 == x);
            assert(r1.lines_of(ReportIdentifier::Pid(x)) is Some);
            let a = choose|a: int| 0 <= a < e1.len() && (#[trigger] e1[a]).0 == x;
            assert(k1[a] == x);
        }
    }
    assert(strictly_ascending(k1)) by {
        assert forall|a: int, b: int| 0 <= a < b < k1.len() implies k1[a] < k1[b] by {
            assert(e1[a].0 < e1[b].0);
        }
    }
    assert(strictly_ascending(k2)) by {
        assert forall|a: int, b: int| 0 <= a < b < k2.len() implies k2[a] < k2[b] by {
            assert(e2[a].0 < e2[b].0);
        }
    }
    lemma_ascending_keys_equal(k1, k2);
    assert forall|a: int| 0 <= a < e1.len() implies (#[trigger] e1[a]).0 == e2[a].0 && e1[a].1@ == e2[a].1@ by {
        assert(k1[a] == k2[a]);
        let x = e1[a].0;
        assert(r1.lines_of(ReportIdentifier::Pid(x)) == r2.lines_of(ReportIdentifier::Pid(x)));
        let c1 = choose|c: int| 0 <= c < e1.len() && (#[trigger] e1[c]).0 == x;
        let c2 = choose|c: int| 0 <= c < e2.len() && (#[trigger] e2[c]).0 == x;
        assert(c1 == a);
        assert(c2 == a);
    }
}

proof fn lemma_same_entries_agree(e1: Seq<(u32, Vec<JsonLine>)>, e2: Seq<(u32, Vec<JsonLine>)>)
    requires
        same_entries(e1, e2),
    ensures
        entries_times(e1) == entries_times(e2),
        same_entries(recorded_processes(e1), recorded_processes(e2)),
        has_threadless_process(e1) == has_threadless_process(e2),
    decreases e1.len(),
{
    if e1.len() > 0 {
        let d1 = e1.drop_last();
        let d2 = e2.drop_last();
        assert forall|a: int| 0 <= a < d1.len() implies (#[trigger] d1[a]).0 == d2[a].0 && d1[a].1@ == d2[a].1@ by {
            assert(d1[a] == e1[a] && d2[a] == e2[a]);
        }
        lemma_same_entries_agree(d1, d2);
        assert(e1.last() == e1[e1.len() - 1] && e2.last() == e2[e1.len() - 1]);
    }
    if has_threadless_process(e1) {
        let a = choose|a: int|
            0 <= a < e1.len() && (#[trigger] e1[a]).1@.len() > 0 && !exists|u: u64| observes(e1[a].1@, u, false);
        assert(e2[a].1@ == e1[a].1@);
    }
    if has_threadless_process(e2) {
        let a = choose|a: int|
            0 <= a < e2.len() && (#[trigger] e2[a]).1@.len() > 0 && !exists|u: u64| observes(e2[a].1@, u, false);
        assert(e1[a].1@ == e2[a].1@);
    }
}

/// Building a profile is deterministic: two sessions holding the same logs give the
/// same outcome, and two profiles hold exactly the same values, down to the numbering
/// of frames and threads.
pub proof fn lemma_same_logs_same_profile(
    report1: Report,
    report2: Report,
    r1: Result<TimelineProfile, ExportError>,
    r2: Result<TimelineProfile, ExportError>,
)
    requires
        same_session(report1, report2),
        is_outcome_for(r1, report1),
        is_outcome_for(r2, report2),
    ensures
        r1 is Ok <==> r2 is Ok,
        r1 is Err ==> r1 == r2,
        r1 matches Ok(p1) ==> r2 matches Ok(p2) && profile_view(p1) == profile_view(p2),
{
    let e1 = report1.processes@;
    let e2 = report2.processes@;
    lemma_same_entries_agree(e1, e2);
    let times = session_times(report1);
    assert(times == session_times(report2));
    if let Err(x1) = r1 {
        if let Err(x2) = r2 {
            if times.len() >= 2 {
                if let ExportError::NoThreads { pid: q1 } = x1 {
                    if let ExportError::NoThreads { pid: q2 } = x2 {
                        let a1 = choose|a: int|
                            0 <= a < e1.len() && (#[trigger] e1[a]).0 == q1 && e1[a].1@.len() > 0
                                && !(exists|u: u64| observes(e1[a].1@, u, false))
                                && !has_threadless_process(e1.subrange(0, a));
                        let a2 = choose|a: int|
                            0 <= a < e2.len() && (#[trigger] e2[a]).0 == q2 && e2[a].1@.len() > 0
                                && !(exists|u: u64| observes(e2[a].1@, u, false))
                                && !has_threadless_process(e2.subrange(0, a));
                        if a1 < a2 {
                            assert(e2[a1].1@ == e1[a1].1@);
                            assert(e2.subrange(0, a2)[a1] == e2[a1]);
                            assert(has_threadless_process(e2.subrange(0, a2)));
                        } else if a2 < a1 {
                            assert(e1[a2].1@ == e2[a2].1@);
                            assert(e1.subrange(0, a1)[a2] == e1[a2]);
                            assert(has_threadless_process(e1.subrange(0, a1)));
                        }
                        assert(a1 == a2);
                        assert(e1[a1].0 == e2[a1].0);
                    }
                }
            }
        }
    }
    if let Ok(p1) = r1 {
        if let Ok(p2) = r2 {
            lemma_earliest_unique(times, p1.start_time_millis, p2.start_time_millis);
            let d1 = choose|d: u128| is_median(time_deltas(times), d) && p1.interval_millis == d as u64;
            let d2 = choose|d: u128| is_median(time_deltas(times), d) && p2.interval_millis == d as u64;
            lemma_median_unique(time_deltas(times), d1, d2);
            let rec1 = recorded_processes(e1);
            let rec2 = recorded_processes(e2);
            let v1 = p1.processes@.map_values(|q: ProcessTimeline| process_view(q));
            let v2 = p2.processes@.map_values(|q: ProcessTimeline| process_view(q));
            assert forall|k: int| 0 <= k < rec1.len() implies #[trigger] v1[k] == v2[k] by {
                assert(rec1[k].0 == rec2[k].0 && rec1[k].1@ == rec2[k].1@);
                lemma_process_determined(
                    p1.processes@[k],
                    p2.processes@[k],
                    rec1[k].0,
                    rec1[k].1@,
                    p1.start_time_millis,
                    p1.interval_millis,
                );
            }
            assert(v1 =~= v2);
        }
    }
}

/// Building a profile is deterministic: whatever two results the same loaded session
/// may give, they are the same outcome, and two profiles hold exactly the same values,
/// down to the numbering of frames and threads.
pub proof fn lemma_profile_deterministic(
    report: Report,
    r1: Result<TimelineProfile, ExportError>,
    r2: Result<TimelineProfile, ExportError>,
)
    requires
        is_outcome_for(r1, report),
        is_outcome_for(r2, report),
    ensures
        r1 is Ok <==> r2 is Ok,
        r1 is Err ==> r1 == r2,
        r1 matches Ok(p1) ==> r2 matches Ok(p2) && profile_view(p1) == profile_view(p2),
{
    lemma_same_logs_same_profile(report, report, r1, r2);
}

/// An error as plain values.
pub open spec fn error_view(e: ExportError) -> (int, Seq<char>, u32) {
    match e {
        ExportError::UnrecognizedFileName { name } => (0, name@, 0),
        ExportError::NoSamples => (1, Seq::empty(), 0),
        ExportError::NoThreads { pid } => (2, Seq::empty(), pid),
    }
}

/// Exporting is deterministic: the same logs give the same outcome, the same error or
/// profiles that hold exactly the same values, down to the numbering of frames and
/// threads.
pub proof fn lemma_export_deterministic(
    files: Seq<(String, Vec<JsonLine>)>,
    r1: Result<TimelineProfile, ExportError>,
    r2: Result<TimelineProfile, ExportError>,
)
    requires
        is_export_outcome(files, r1),
        is_export_outcome(files, r2),
    ensures
        r1 is Ok <==> r2 is Ok,
        r1 matches Err(e1) ==> r2 matches Err(e2) && error_view(e1) == error_view(e2),
        r1 matches Ok(p1) ==> r2 matches Ok(p2) && profile_view(p1) == profile_view(p2),
{
    if !all_named(files) {
        if let Err(ExportError::UnrecognizedFileName { name: n1 }) = r1 {
            if let Err(ExportError::UnrecognizedFileName { name: n2 }) = r2 {
                let a1 = choose|a: int| is_first_unnamed(files, a) && (#[trigger] files[a]).0@ == n1@;
                let a2 = choose|a: int| is_first_unnamed(files, a) && (#[trigger] files[a]).0@ == n2@;
                if a1 < a2 {
                    assert(files.subrange(0, a2)[a1] == files[a1]);
                } else if a2 < a1 {
                    assert(files.subrange(0, a1)[a2] == files[a2]);
                }
                assert(a1 == a2);
            }
        }
    } else {
        let rep1 = choose|report: Report|
            report.well_formed() && (forall|id: ReportIdentifier| #[trigger] report.lines_of(id) == lines_for(files, id))
                && is_outcome_for(r1, report);
        let rep2 = choose|report: Report|
            report.well_formed() && (forall|id: ReportIdentifier| #[trigger] report.lines_of(id) == lines_for(files, id))
                && is_outcome_for(r2, report);
        assert forall|id: ReportIdentifier| #[trigger] rep1.lines_of(id) == rep2.lines_of(id) by {
            assert(rep1.lines_of(id) == lines_for(files, id));
            assert(rep2.lines_of(id) == lines_for(files, id));
        }
        lemma_same_lines_same_session(rep1, rep2);
        lemma_same_logs_same_profile(rep1, rep2, r1, r2);
    }
}

proof fn lemma_recorded_from_entries(entries: Seq<(u32, Vec<JsonLine>)>, k: int)
    requires
        0 <= k < recorded_processes(entries).len(),
    ensures
        exists|a: int| 0 <= a < entries.len() && #[trigger] entries[a] == recorded_processes(entries)[k],
    decreases entries.len(),
{
    let front = entries.drop_last();
    let rec = recorded_processes(front);
    if entries.last().1@.len() > 0 && k == rec.len() {
        assert(entries[entries.len() - 1] == recorded_processes(entries)[k]);
    } else {
        lemma_recorded_from_entries(front, k);
        let a = choose|a: int| 0 <= a < front.len() && #[trigger] front[a] == rec[k];
        assert(entries[a] == front[a]);
    }
}

/// Each process of an exported profile is the timeline of its own log: the records
/// that the logs give its process id, anchored at the profile's reference time and
/// interval. With the counter law this fixes, for instance, the memory deltas of every
/// exported process from its log alone.
pub proof fn lemma_exported_process_from_its_log(
    files: Seq<(String, Vec<JsonLine>)>,
    profile: TimelineProfile,
    k: int,
)
    requires
        is_export_outcome(files, Ok(profile)),
        0 <= k < profile.processes@.len(),
    ensures
        ({
            let p = profile.processes@[k];
            lines_for(files, ReportIdentifier::Pid(p.pid)) matches Some(lines) && is_timeline_of(
                p,
                p.pid,
                lines,
                profile.start_time_millis,
                profile.interval_millis,
            )
        }),
{
    let report = choose|report: Report|
        report.well_formed() && (forall|id: ReportIdentifier| #[trigger] report.lines_of(id) == lines_for(files, id))
            && is_outcome_for(Ok(profile), report);
    let entries = report.processes@;
    let rec = recorded_processes(entries);
    let p = profile.processes@[k];
    assert(is_timeline_of(p, rec[k].0, rec[k].1@, profile.start_time_millis, profile.interval_millis));
    lemma_recorded_from_entries(entries, k);
    let a = choose|a: int| 0 <= a < entries.len() && #[trigger] entries[a] == rec[k];
    let pid = entries[a].0;
    assert(report.lines_of(ReportIdentifier::Pid(pid)) == lines_for(files, ReportIdentifier::Pid(pid)));
    let c = choose|c: int| 0 <= c < entries.len() && (#[trigger] entries[c]).0 == pid;
    assert(c == a);
}

} // verus!
