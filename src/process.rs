//! The timeline of one process: frame interning, thread registration, CPU
//! attribution and delta-encoded counters, record after record.
use crate::intern::{
    describes_one_of, extends, frame_key, frame_views, intern_all, intern_stack, interned_key,
    keeps_threads, keys_distinct, lemma_intern_all_append, lemma_register_all_append, name_view,
    outermost_first, register_all, register_thread, stack_of, thread_views, tids_distinct,
    ThreadView,
};
use crate::main_thread::{is_main_thread, is_trace_at, main_thread_id, observes, MAIN_THREAD_NAME};
use crate::report::ExportError;
use crate::timeline::{ProcessTimeline, TimelineFrame, TimelineSample, TimelineThread, TimelineTick};
use crate::types::{Frame, JsonLine, ProcessResources, StackTrace, ThreadResources};
use vstd::prelude::*;

verus! {

/// The CPU usage recorded for OS thread `os_tid`: the first entry with that id.
pub open spec fn thread_cpu(entries: Seq<(u64, ThreadResources)>, os_tid: u64) -> Option<u64>
    decreases entries.len(),
{
    if entries.len() == 0 {
        None
    } else if entries[0].0 == os_tid {
        Some(entries[0].1.cpu)
    } else {
        thread_cpu(entries.drop_first(), os_tid)
    }
}

/// CPU time, in microseconds, of a usage in hundredths of a percent held for one
/// interval of `interval` milliseconds.
pub open spec fn cpu_micros(usage: u64, interval: u64) -> u128 {
    (usage as int * interval as int / 10) as u128
}

/// CPU time attributed to one stack trace: the process's usage for the main thread,
/// the OS thread's own usage where the record has it, and none otherwise.
pub open spec fn sample_cpu(res: ProcessResources, trace: StackTrace, main_tid: u64, interval: u64) -> u128 {
    if trace.thread_id == main_tid {
        cpu_micros(res.cpu, interval)
    } else {
        match trace.os_thread_id {
            Some(os_tid) => match thread_cpu(res.thread_resources@, os_tid) {
                Some(usage) => cpu_micros(usage, interval),
                None => 0,
            },
            None => 0,
        }
    }
}

/// Read plus written bytes of a record.
pub open spec fn io_bytes(res: ProcessResources) -> int {
    res.disk_read_bytes + res.disk_write_bytes
}

/// The memory counter's sample for record `i`: zero for the first record, the change
/// since the previous record after that.
pub open spec fn memory_delta(lines: Seq<JsonLine>, i: int) -> int {
    if i == 0 {
        0
    } else {
        lines[i].resources.memory - lines[i - 1].resources.memory
    }
}

/// The I/O counter's sample for record `i`, delta-encoded as the memory counter is.
pub open spec fn io_delta(lines: Seq<JsonLine>, i: int) -> int {
    if i == 0 {
        0
    } else {
        io_bytes(lines[i].resources) - io_bytes(lines[i - 1].resources)
    }
}

/// `smp` is the sample of `trace`, taken in a record with resources `res`.
pub open spec fn sample_of(
    smp: TimelineSample,
    trace: StackTrace,
    res: ProcessResources,
    threads: Seq<TimelineThread>,
    frames: Seq<TimelineFrame>,
    main_tid: u64,
    interval: u64,
) -> bool {
    &&& smp.thread < threads.len()
    &&& threads[smp.thread as int].tid == trace.thread_id
    &&& stack_of(smp.stack@, frames, trace.frames@)
    &&& smp.cpu_micros == sample_cpu(res, trace, main_tid, interval)
}

/// `tick` is what record `i` of `lines` contributes.
pub open spec fn tick_of(
    tick: TimelineTick,
    lines: Seq<JsonLine>,
    i: int,
    start: u128,
    threads: Seq<TimelineThread>,
    frames: Seq<TimelineFrame>,
    main_tid: u64,
    interval: u64,
) -> bool {
    &&& tick.time == lines[i].time - start
    &&& tick.samples@.len() == lines[i].stacktraces@.len()
    &&& forall|j: int|
        0 <= j < tick.samples@.len() ==> sample_of(
            #[trigger] tick.samples@[j],
            lines[i].stacktraces@[j],
            lines[i].resources,
            threads,
            frames,
            main_tid,
            interval,
        )
    &&& tick.memory_delta == memory_delta(lines, i)
    &&& tick.io_delta == io_delta(lines, i)
}

/// `tf` is the interned form of a frame of some stack trace of `lines`.
pub open spec fn frame_from(tf: TimelineFrame, lines: Seq<JsonLine>) -> bool {
    exists|i: int, j: int|
        is_trace_at(lines, i, j) && describes_one_of(tf, #[trigger] lines[i].stacktraces@[j].frames@)
}

/// The frames of a record's stack traces in the order they are interned.
pub open spec fn record_visits(traces: Seq<StackTrace>) -> Seq<Frame>
    decreases traces.len(),
{
    if traces.len() == 0 {
        Seq::empty()
    } else {
        record_visits(traces.drop_last()) + outermost_first(traces.last().frames@)
    }
}

/// The frames of a process's records in the order they are interned.
pub open spec fn process_visits(lines: Seq<JsonLine>) -> Seq<Frame>
    decreases lines.len(),
{
    if lines.len() == 0 {
        Seq::empty()
    } else {
        process_visits(lines.drop_last()) + record_visits(lines.last().stacktraces@)
    }
}

/// The threads a record shows, with their names and the record's relative time.
pub open spec fn record_events(traces: Seq<StackTrace>, time: u128) -> Seq<(u64, Option<Seq<char>>, u128)>
    decreases traces.len(),
{
    if traces.len() == 0 {
        Seq::empty()
    } else {
        record_events(traces.drop_last(), time).push(
            (traces.last().thread_id, name_view(traces.last().thread_name), time),
        )
    }
}

/// The threads a process's records show, in order.
pub open spec fn process_events(lines: Seq<JsonLine>, start: u128) -> Seq<(u64, Option<Seq<char>>, u128)>
    decreases lines.len(),
{
    if lines.len() == 0 {
        Seq::empty()
    } else {
        process_events(lines.drop_last(), start) + record_events(
            lines.last().stacktraces@,
            (lines.last().time - start) as u128,
        )
    }
}

/// The threads before any record is ingested: the main thread alone, under the main
/// thread's name.
pub open spec fn initial_threads(main_tid: u64, start: u128) -> Seq<ThreadView> {
    seq![(main_tid, Some(MAIN_THREAD_NAME@), true, start)]
}

/// The threads' shape: the main thread first and only there, no id twice.
pub open spec fn threads_shaped(threads: Seq<TimelineThread>, main_tid: u64, start: u128) -> bool {
    &&& threads.len() > 0
    &&& threads[0].tid == main_tid
    &&& threads[0].is_main
    &&& threads[0].start_time == start
    &&& forall|a: int| 0 < a < threads.len() ==> !(#[trigger] threads[a]).is_main
    &&& tids_distinct(threads)
}

/// `p` is the timeline of process `pid` built from its records `lines`, with reference
/// time `start` and sampling interval `interval`.
pub open spec fn is_timeline_of(
    p: ProcessTimeline,
    pid: u32,
    lines: Seq<JsonLine>,
    start: u128,
    interval: u64,
) -> bool {
    &&& lines.len() > 0
    &&& p.pid == pid
    &&& p.start_time == lines[0].time - start
    &&& threads_shaped(p.threads@, p.threads@[0].tid, p.start_time)
    &&& is_main_thread(lines, p.threads@[0].tid)
    &&& keys_distinct(p.frames@)
    &&& forall|a: int| 0 <= a < p.frames@.len() ==> frame_from(#[trigger] p.frames@[a], lines)
    &&& frame_views(p.frames@) == intern_all(Seq::empty(), process_visits(lines))
    &&& thread_views(p.threads@) == register_all(
        initial_threads(p.threads@[0].tid, p.start_time),
        process_events(lines, start),
    )
    &&& p.ticks@.len() == lines.len()
    &&& forall|i: int|
        0 <= i < lines.len() ==> tick_of(
            #[trigger] p.ticks@[i],
            lines,
            i,
            start,
            p.threads@,
            p.frames@,
            p.threads@[0].tid,
            interval,
        )
}

proof fn lemma_tick_kept(
    tick: TimelineTick,
    lines: Seq<JsonLine>,
    i: int,
    start: u128,
    t0: Seq<TimelineThread>,
    t1: Seq<TimelineThread>,
    f0: Seq<TimelineFrame>,
    f1: Seq<TimelineFrame>,
    main_tid: u64,
    interval: u64,
)
    requires
        tick_of(tick, lines, i, start, t0, f0, main_tid, interval),
        keeps_threads(t0, t1),
        extends(f0, f1),
    ensures
        tick_of(tick, lines, i, start, t1, f1, main_tid, interval),
{
    assert forall|j: int| 0 <= j < tick.samples@.len() implies sample_of(
        #[trigger] tick.samples@[j],
        lines[i].stacktraces@[j],
        lines[i].resources,
        t1,
        f1,
        main_tid,
        interval,
    ) by {
        let smp = tick.samples@[j];
        assert(sample_of(smp, lines[i].stacktraces@[j], lines[i].resources, t0, f0, main_tid, interval));
        assert(t1[smp.thread as int].tid == t0[smp.thread as int].tid);
        assert forall|k: int| 0 <= k < smp.stack@.len() implies #[trigger] smp.stack@[k] < f1.len()
            && interned_key(f1[smp.stack@[k] as int]) == frame_key(
            lines[i].stacktraces@[j].frames@[lines[i].stacktraces@[j].frames@.len() - 1 - k],
        ) by {
            assert(f1[smp.stack@[k] as int] == f0[smp.stack@[k] as int]);
        }
    }
}

fn lookup_thread_cpu(entries: &Vec<(u64, ThreadResources)>, os_tid: u64) -> (r: Option<u64>)
    ensures
        r == thread_cpu(entries@, os_tid),
{
    let mut k: usize = 0;
    assert(entries@.subrange(0, entries@.len() as int) =~= entries@);
    while k < entries.len()
        invariant
            k <= entries@.len(),
            thread_cpu(entries@, os_tid) == thread_cpu(entries@.subrange(k as int, entries@.len() as int), os_tid),
        decreases entries@.len() - k,
    {
        let ghost rest = entries@.subrange(k as int, entries@.len() as int);
        if entries[k].0 == os_tid {
            return Some(entries[k].1.cpu);
        }
        assert(rest.drop_first() =~= entries@.subrange(k + 1, entries@.len() as int));
        k = k + 1;
    }
    None
}

fn usage_micros(usage: u64, interval: u64) -> (r: u128)
    ensures
        r == cpu_micros(usage, interval),
{
    assert(usage as int * interval as int <= u64::MAX as int * u64::MAX as int) by (nonlinear_arith)
        requires usage <= u64::MAX, interval <= u64::MAX;
    assert(u64::MAX as int * u64::MAX as int <= u128::MAX);
    let product = usage as u128 * interval as u128;
    product / 10
}

fn trace_cpu(res: &ProcessResources, trace: &StackTrace, main_tid: u64, interval: u64) -> (r: u128)
    ensures
        r == sample_cpu(*res, *trace, main_tid, interval),
{
    if trace.thread_id == main_tid {
        usage_micros(res.cpu, interval)
    } else {
        match trace.os_thread_id {
            Some(os_tid) => match lookup_thread_cpu(&res.thread_resources, os_tid) {
                Some(usage) => usage_micros(usage, interval),
                None => 0,
            },
            None => 0,
        }
    }
}

/// Builds the timeline of process `pid` from its records: the main thread is
/// registered first, then each record is ingested in order.
pub fn build_process(pid: u32, lines: &Vec<JsonLine>, start: u128, interval: u64) -> (r: Result<
    ProcessTimeline,
    ExportError,
>)
    requires
        lines@.len() > 0,
        forall|i: int| 0 <= i < lines@.len() ==> start <= (#[trigger] lines@[i]).time,
    ensures
        r is Err <==> !exists|u: u64| observes(lines@, u, false),
        r matches Err(e) ==> e == (ExportError::NoThreads { pid }),
        r matches Ok(p) ==> is_timeline_of(p, pid, lines@, start, interval),
{
    let main_tid = match main_thread_id(lines) {
        Some(t) => t,
        None => {
            return Err(ExportError::NoThreads { pid });
        },
    };
    let start_rel = lines[0].time - start;
    let mut threads: Vec<TimelineThread> = Vec::new();
    threads.push(
        TimelineThread {
            tid: main_tid,
            name: Some(MAIN_THREAD_NAME.to_owned()),
            is_main: true,
            start_time: start_rel,
        },
    );
    let mut frames: Vec<TimelineFrame> = Vec::new();
    let mut ticks: Vec<TimelineTick> = Vec::new();
    proof {
        assert(frame_views(frames@) =~= Seq::empty());
        assert(thread_views(threads@) =~= initial_threads(main_tid, start_rel));
        assert(lines@.subrange(0, 0) =~= Seq::<JsonLine>::empty());
    }
    let n = lines.len();
    let mut i: usize = 0;
    while i < n
        invariant
            n == lines@.len(),
            i <= n,
            forall|q: int| 0 <= q < lines@.len() ==> start <= (#[trigger] lines@[q]).time,
            threads_shaped(threads@, main_tid, start_rel),
            keys_distinct(frames@),
            frame_views(frames@) == intern_all(Seq::empty(), process_visits(lines@.subrange(0, i as int))),
            thread_views(threads@) == register_all(
                initial_threads(main_tid, start_rel),
                process_events(lines@.subrange(0, i as int), start),
            ),
            forall|a: int| 0 <= a < frames@.len() ==> frame_from(#[trigger] frames@[a], lines@),
            ticks@.len() == i,
            forall|q: int|
                0 <= q < i ==> tick_of(
                    #[trigger] ticks@[q],
                    lines@,
                    q,
                    start,
                    threads@,
                    frames@,
                    main_tid,
                    interval,
                ),
        decreases n - i,
    {
        let line = &lines[i];
        let time = line.time - start;
        let traces = &line.stacktraces;
        let mut samples: Vec<TimelineSample> = Vec::new();
        let mut j: usize = 0;
        while j < traces.len()
            invariant
                n == lines@.len(),
                i < n,
                *line == lines@[i as int],
                *traces == line.stacktraces,
                time == line.time - start,
                j <= traces@.len(),
                threads_shaped(threads@, main_tid, start_rel),
                keys_distinct(frames@),
                frame_views(frames@) == intern_all(
                    intern_all(Seq::empty(), process_visits(lines@.subrange(0, i as int))),
                    record_visits(traces@.subrange(0, j as int)),
                ),
                thread_views(threads@) == register_all(
                    register_all(
                        initial_threads(main_tid, start_rel),
                        process_events(lines@.subrange(0, i as int), start),
                    ),
                    record_events(traces@.subrange(0, j as int), time),
                ),
                forall|a: int| 0 <= a < frames@.len() ==> frame_from(#[trigger] frames@[a], lines@),
                ticks@.len() == i,
                forall|q: int|
                    0 <= q < i ==> tick_of(
                        #[trigger] ticks@[q],
                        lines@,
                        q,
                        start,
                        threads@,
                        frames@,
                        main_tid,
                        interval,
                    ),
                samples@.len() == j,
                forall|q: int|
                    0 <= q < j ==> sample_of(
                        #[trigger] samples@[q],
                        traces@[q],
                        line.resources,
                        threads@,
                        frames@,
                        main_tid,
                        interval,
                    ),
            decreases traces@.len() - j,
        {
            let trace = &traces[j];
            let ghost t0 = threads@;
            let ghost f0 = frames@;
            let thread = register_thread(&mut threads, trace.thread_id, &trace.thread_name, time);
            let stack = intern_stack(&mut frames, &trace.frames);
            let cpu_micros = trace_cpu(&line.resources, trace, main_tid, interval);
            let ghost t1 = threads@;
            let ghost f1 = frames@;
            proof {
                assert forall|a: int| 0 < a < t1.len() implies !(#[trigger] t1[a]).is_main by {
                    if a < t0.len() {
                        assert(t1[a].is_main == t0[a].is_main);
                    }
                }
                assert forall|a: int| 0 <= a < f1.len() implies frame_from(#[trigger] f1[a], lines@) by {
                    if a < f0.len() {
                        assert(f1[a] == f0[a]);
                    } else {
                        assert(is_trace_at(lines@, i as int, j as int));
                        assert(describes_one_of(f1[a], lines@[i as int].stacktraces@[j as int].frames@));
                    }
                }
                assert forall|q: int| 0 <= q < i implies tick_of(
                    #[trigger] ticks@[q],
                    lines@,
                    q,
                    start,
                    t1,
                    f1,
                    main_tid,
                    interval,
                ) by {
                    lemma_tick_kept(ticks@[q], lines@, q, start, t0, t1, f0, f1, main_tid, interval);
                }
                assert forall|q: int| 0 <= q < j implies sample_of(
                    #[trigger] samples@[q],
                    traces@[q],
                    line.resources,
                    t1,
                    f1,
                    main_tid,
                    interval,
                ) by {
                    let smp = samples@[q];
                    assert(t1[smp.thread as int].tid == t0[smp.thread as int].tid);
                    assert forall|k: int| 0 <= k < smp.stack@.len() implies #[trigger] smp.stack@[k]
                        < f1.len() && interned_key(f1[smp.stack@[k] as int])
                        == frame_key(
                        traces@[q].frames@[traces@[q].frames@.len() - 1 - k],
                    ) by {
                        assert(f1[smp.stack@[k] as int] == f0[smp.stack@[k] as int]);
                    }
                }
            }
            proof {
                let tr = traces@.subrange(0, j + 1);
                assert(tr.drop_last() =~= traces@.subrange(0, j as int));
                assert(tr.last() == *trace);
                let evs = record_events(tr, time);
                assert(evs.drop_last() =~= record_events(traces@.subrange(0, j as int), time));
                assert(evs.last() == (trace.thread_id, name_view(trace.thread_name), time));
                lemma_intern_all_append(
                    intern_all(Seq::empty(), process_visits(lines@.subrange(0, i as int))),
                    record_visits(traces@.subrange(0, j as int)),
                    outermost_first(trace.frames@),
                );
            }
            samples.push(TimelineSample { thread, stack, cpu_micros });
            j = j + 1;
        }
        proof {
            let pre = lines@.subrange(0, i + 1);
            assert(pre.drop_last() =~= lines@.subrange(0, i as int));
            assert(pre.last() == *line);
            assert(traces@.subrange(0, j as int) =~= traces@);
            lemma_intern_all_append(Seq::empty(), process_visits(lines@.subrange(0, i as int)), record_visits(traces@));
            lemma_register_all_append(
                initial_threads(main_tid, start_rel),
                process_events(lines@.subrange(0, i as int), start),
                record_events(traces@, time),
            );
        }
        let memory_delta: i128 = if i == 0 {
            0
        } else {
            line.resources.memory as i128 - lines[i - 1].resources.memory as i128
        };
        let io_delta: i128 = if i == 0 {
            0
        } else {
            let prev = &lines[i - 1].resources;
            (line.resources.disk_read_bytes as i128 + line.resources.disk_write_bytes as i128) - (
            prev.disk_read_bytes as i128 + prev.disk_write_bytes as i128)
        };
        ticks.push(TimelineTick { time, samples, memory_delta, io_delta });
        i = i + 1;
    }
    assert(lines@.subrange(0, n as int) =~= lines@);
    let p = ProcessTimeline { pid, start_time: start_rel, threads, frames, ticks };
    proof {
        assert(p.threads@[0].tid == main_tid);
    }
    Ok(p)
}

/// Call sites are interned per process: two stack entries of a process's timeline,
/// from any samples and threads, name the same frame exactly when their file and line
/// are equal.
pub proof fn lemma_frames_interned_by_call_site(
    p: ProcessTimeline,
    pid: u32,
    lines: Seq<JsonLine>,
    start: u128,
    interval: u64,
    i1: int,
    j1: int,
    f1: int,
    i2: int,
    j2: int,
    f2: int,
)
    requires
        is_timeline_of(p, pid, lines, start, interval),
        is_trace_at(lines, i1, j1),
        is_trace_at(lines, i2, j2),
        0 <= f1 < lines[i1].stacktraces@[j1].frames@.len(),
        0 <= f2 < lines[i2].stacktraces@[j2].frames@.len(),
    ensures
        ({
            let n1 = lines[i1].stacktraces@[j1].frames@.len();
            let n2 = lines[i2].stacktraces@[j2].frames@.len();
            (p.ticks@[i1].samples@[j1].stack@[n1 - 1 - f1] == p.ticks@[i2].samples@[j2].stack@[n2 - 1
                - f2]) <==> frame_key(lines[i1].stacktraces@[j1].frames@[f1]) == frame_key(
                lines[i2].stacktraces@[j2].frames@[f2],
            )
        }),
{
    let n1 = lines[i1].stacktraces@[j1].frames@.len();
    let n2 = lines[i2].stacktraces@[j2].frames@.len();
    let t1 = p.ticks@[i1];
    let t2 = p.ticks@[i2];
    assert(tick_of(t1, lines, i1, start, p.threads@, p.frames@, p.threads@[0].tid, interval));
    assert(tick_of(t2, lines, i2, start, p.threads@, p.frames@, p.threads@[0].tid, interval));
    let s1 = t1.samples@[j1];
    let s2 = t2.samples@[j2];
    assert(sample_of(s1, lines[i1].stacktraces@[j1], lines[i1].resources, p.threads@, p.frames@, p.threads@[0].tid, interval));
    assert(sample_of(s2, lines[i2].stacktraces@[j2], lines[i2].resources, p.threads@, p.frames@, p.threads@[0].tid, interval));
    let x1 = s1.stack@[n1 - 1 - f1];
    let x2 = s2.stack@[n2 - 1 - f2];
    assert(interned_key(p.frames@[x1 as int]) == frame_key(lines[i1].stacktraces@[j1].frames@[f1]));
    assert(interned_key(p.frames@[x2 as int]) == frame_key(lines[i2].stacktraces@[j2].frames@[f2]));
}

/// Counters are delta-encoded from a zero baseline: the first memory and I/O samples of
/// a process are zero, and every later sample is the change of the raw reading since
/// the previous record, never the reading itself.
pub proof fn lemma_counters_from_zero_baseline(
    p: ProcessTimeline,
    pid: u32,
    lines: Seq<JsonLine>,
    start: u128,
    interval: u64,
)
    requires
        is_timeline_of(p, pid, lines, start, interval),
    ensures
        p.ticks@[0].memory_delta == 0,
        p.ticks@[0].io_delta == 0,
        forall|i: int|
            1 <= i < lines.len() ==> (#[trigger] p.ticks@[i]).memory_delta == lines[i].resources.memory
                - lines[i - 1].resources.memory && p.ticks@[i].io_delta == io_bytes(lines[i].resources)
                - io_bytes(lines[i - 1].resources),
{
    assert(tick_of(p.ticks@[0], lines, 0, start, p.threads@, p.frames@, p.threads@[0].tid, interval));
    assert forall|i: int| 1 <= i < lines.len() implies (#[trigger] p.ticks@[i]).memory_delta
        == lines[i].resources.memory - lines[i - 1].resources.memory && p.ticks@[i].io_delta == io_bytes(
        lines[i].resources,
    ) - io_bytes(lines[i - 1].resources) by {
        assert(tick_of(p.ticks@[i], lines, i, start, p.threads@, p.frames@, p.threads@[0].tid, interval));
    }
}

} // verus!
