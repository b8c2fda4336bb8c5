//! Choice of a process's main thread: the thread that calls itself the main thread,
//! or failing that the lowest thread id.
use crate::text::same_text;
use crate::types::{JsonLine, StackTrace};
use vstd::prelude::*;

verus! {

/// The name by which the interpreter's main thread calls itself.
pub const MAIN_THREAD_NAME: &'static str = "MainThread";

pub open spec fn names_main_thread(name: Option<String>) -> bool {
    name matches Some(n) && n@ == MAIN_THREAD_NAME@
}

/// Whether `(a, b)` is the position of a stack trace in `lines`.
pub open spec fn is_trace_at(lines: Seq<JsonLine>, a: int, b: int) -> bool {
    0 <= a < lines.len() && 0 <= b < lines[a].stacktraces@.len()
}

/// Whether the trace at `(a, b)` shows thread `tid` (under the main thread's name,
/// if `main_only`).
pub open spec fn shows_thread(lines: Seq<JsonLine>, a: int, b: int, tid: u64, main_only: bool) -> bool {
    &&& is_trace_at(lines, a, b)
    &&& lines[a].stacktraces@[b].thread_id == tid
    &&& (main_only ==> names_main_thread(lines[a].stacktraces@[b].thread_name))
}

/// Whether a trace before position `(i, j)` shows thread `tid`.
pub open spec fn seen_before(lines: Seq<JsonLine>, i: int, j: int, tid: u64, main_only: bool) -> bool {
    exists|a: int, b: int|
        #![trigger shows_thread(lines, a, b, tid, main_only)]
        (a < i || (a == i && b < j)) && shows_thread(lines, a, b, tid, main_only)
}

/// Whether any record of `lines` shows thread `tid`.
pub open spec fn observes(lines: Seq<JsonLine>, tid: u64, main_only: bool) -> bool {
    seen_before(lines, lines.len() as int, 0, tid, main_only)
}

/// `tid` is the lowest thread id among those seen (with the main thread's name, if
/// `main_only`).
pub open spec fn lowest_seen(lines: Seq<JsonLine>, tid: u64, main_only: bool) -> bool {
    observes(lines, tid, main_only) && forall|u: u64|
        #[trigger] observes(lines, u, main_only) ==> tid <= u
}

/// The main thread of a process: the lowest thread id that carries the main thread's
/// name; failing that, the lowest thread id observed at all.
pub open spec fn is_main_thread(lines: Seq<JsonLine>, tid: u64) -> bool {
    if exists|u: u64| observes(lines, u, true) {
        lowest_seen(lines, tid, true)
    } else {
        lowest_seen(lines, tid, false)
    }
}

proof fn lemma_seen_step(lines: Seq<JsonLine>, i: int, j: int, tid: u64, main_only: bool)
    requires
        is_trace_at(lines, i, j),
    ensures
        seen_before(lines, i, j + 1, tid, main_only) == (seen_before(lines, i, j, tid, main_only)
            || shows_thread(lines, i, j, tid, main_only)),
{
    if seen_before(lines, i, j + 1, tid, main_only) {
        let (a, b) = choose|a: int, b: int|
            (a < i || (a == i && b < j + 1)) && shows_thread(lines, a, b, tid, main_only);
        if !(a == i && b == j) {
            assert((a < i || (a == i && b < j)) && shows_thread(lines, a, b, tid, main_only));
        }
    }
}

proof fn lemma_seen_next_record(lines: Seq<JsonLine>, i: int, tid: u64, main_only: bool)
    requires
        0 <= i < lines.len(),
    ensures
        seen_before(lines, i, lines[i].stacktraces@.len() as int, tid, main_only) == seen_before(
            lines,
            i + 1,
            0,
            tid,
            main_only,
        ),
{
    if seen_before(lines, i + 1, 0, tid, main_only) {
        let (a, b) = choose|a: int, b: int|
            (a < i + 1 || (a == i + 1 && b < 0)) && shows_thread(lines, a, b, tid, main_only);
        assert((a < i || (a == i && b < lines[i].stacktraces@.len())) && shows_thread(
            lines,
            a,
            b,
            tid,
            main_only,
        ));
    }
}

/// `best` is the lowest thread id seen before position `(i, j)`, or none if no thread
/// was seen there.
pub open spec fn lowest_before(lines: Seq<JsonLine>, i: int, j: int, best: Option<u64>, main_only: bool) -> bool {
    &&& (best is None ==> forall|u: u64| !#[trigger] seen_before(lines, i, j, u, main_only))
    &&& (best matches Some(t) ==> seen_before(lines, i, j, t, main_only) && forall|u: u64|
        #[trigger] seen_before(lines, i, j, u, main_only) ==> t <= u)
}

/// Folds one observed thread into the lowest id seen so far.
fn lower_of(best: Option<u64>, tid: u64) -> (r: Option<u64>)
    ensures
        r matches Some(t) && (t == tid || best == Some(t)) && t <= tid && (best matches Some(b)
            ==> t <= b),
{
    match best {
        Some(b) => if b <= tid { Some(b) } else { Some(tid) },
        None => Some(tid),
    }
}

/// Chooses the main thread of a process from its records, or none if no record holds
/// a stack trace.
pub fn main_thread_id(lines: &Vec<JsonLine>) -> (r: Option<u64>)
    ensures
        r is None <==> !exists|u: u64| observes(lines@, u, false),
        r matches Some(t) ==> is_main_thread(lines@, t),
{
    let mut best_named: Option<u64> = None;
    let mut best_any: Option<u64> = None;
    let mut i: usize = 0;
    while i < lines.len()
        invariant
            i <= lines@.len(),
            lowest_before(lines@, i as int, 0, best_named, true),
            lowest_before(lines@, i as int, 0, best_any, false),
        decreases lines@.len() - i,
    {
        let traces = &lines[i].stacktraces;
        let mut j: usize = 0;
        while j < traces.len()
            invariant
                i < lines@.len(),
                *traces == lines@[i as int].stacktraces,
                j <= traces@.len(),
                lowest_before(lines@, i as int, j as int, best_named, true),
                lowest_before(lines@, i as int, j as int, best_any, false),
            decreases traces@.len() - j,
        {
            let trace: &StackTrace = &traces[j];
            let tid = trace.thread_id;
            let named = match &trace.thread_name {
                Some(n) => same_text(n.as_str(), MAIN_THREAD_NAME),
                None => false,
            };
            let ghost old_named = best_named;
            let ghost old_any = best_any;
            best_any = lower_of(best_any, tid);
            if named {
                best_named = lower_of(best_named, tid);
            }
            proof {
                assert forall|mo: bool, u: u64| #[trigger]
                    seen_before(lines@, i as int, j + 1, u, mo) == (seen_before(lines@, i as int, j as int, u, mo)
                        || shows_thread(lines@, i as int, j as int, u, mo)) by {
                    lemma_seen_step(lines@, i as int, j as int, u, mo);
                }
                assert(shows_thread(lines@, i as int, j as int, tid, false));
                assert(named ==> shows_thread(lines@, i as int, j as int, tid, true));
                assert(!named ==> forall|u: u64| !shows_thread(lines@, i as int, j as int, u, true));
            }
            j = j + 1;
        }
        proof {
            assert forall|mo: bool, u: u64| #[trigger]
                seen_before(lines@, i + 1, 0, u, mo) == seen_before(lines@, i as int, j as int, u, mo) by {
                lemma_seen_next_record(lines@, i as int, u, mo);
            }
        }
        i = i + 1;
    }
    proof {
        if best_named is None {
            assert forall|u: u64| !observes(lines@, u, true) by {
                assert(!seen_before(lines@, i as int, 0, u, true));
            }
        }
        if let Some(t) = best_named {
            assert(observes(lines@, t, true));
            let (a, b) = choose|a: int, b: int|
                (a < i || (a == i && b < 0)) && shows_thread(lines@, a, b, t, true);
            assert(shows_thread(lines@, a, b, t, false));
            assert(observes(lines@, t, false));
        }
        if let Some(t) = best_any {
            assert(observes(lines@, t, false));
        }
        if best_any is None {
            assert forall|u: u64| !observes(lines@, u, false) by {
                assert(!seen_before(lines@, i as int, 0, u, false));
            }
        }
    }
    if best_named.is_some() {
        best_named
    } else {
        best_any
    }
}

} // verus!
