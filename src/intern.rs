//! Interning of call sites and registration of threads within one process.
use crate::text::same_text;
use crate::timeline::{FrameCategory, TimelineFrame, TimelineThread};
use crate::types::Frame;
use vstd::prelude::*;

verus! {

/// The identity of a call site: its file and line.
pub open spec fn frame_key(f: Frame) -> (Seq<char>, i32) {
    (f.filename@, f.line)
}

pub open spec fn interned_key(f: TimelineFrame) -> (Seq<char>, i32) {
    (f.filename@, f.line)
}

/// The file a frame's label shows: its short filename where it has one.
pub open spec fn location_of(f: Frame) -> Seq<char> {
    match f.short_filename {
        Some(s) => s@,
        None => f.filename@,
    }
}

pub open spec fn category_of(f: Frame) -> FrameCategory {
    if f.is_entry {
        FrameCategory::Native
    } else {
        FrameCategory::Interpreted
    }
}

/// `tf` is the interned form of `f`: its name, file:line and category.
pub open spec fn describes(tf: TimelineFrame, f: Frame) -> bool {
    &&& tf.name@ == f.name@
    &&& tf.filename@ == f.filename@
    &&& tf.line == f.line
    &&& tf.location@ == location_of(f)
    &&& tf.category == category_of(f)
}

/// An interned frame as plain values: name, filename, label location, line, category.
pub type FrameView = (Seq<char>, Seq<char>, Seq<char>, i32, FrameCategory);

pub open spec fn frame_view(tf: TimelineFrame) -> FrameView {
    (tf.name@, tf.filename@, tf.location@, tf.line, tf.category)
}

/// The interned form of a captured frame.
pub open spec fn interned_view(f: Frame) -> FrameView {
    (f.name@, f.filename@, location_of(f), f.line, category_of(f))
}

pub open spec fn frame_views(frames: Seq<TimelineFrame>) -> Seq<FrameView> {
    frames.map_values(|tf: TimelineFrame| frame_view(tf))
}

/// Interning one frame: a call site already in the table leaves it as it is, a new one
/// is appended.
pub open spec fn intern_step(table: Seq<FrameView>, f: Frame) -> Seq<FrameView> {
    if exists|a: int| 0 <= a < table.len() && ((#[trigger] table[a]).1, table[a].3) == frame_key(f) {
        table
    } else {
        table.push(interned_view(f))
    }
}

/// Interning the frames of `visits` one after another.
pub open spec fn intern_all(table: Seq<FrameView>, visits: Seq<Frame>) -> Seq<FrameView>
    decreases visits.len(),
{
    if visits.len() == 0 {
        table
    } else {
        intern_step(intern_all(table, visits.drop_last()), visits.last())
    }
}

pub proof fn lemma_intern_all_append(table: Seq<FrameView>, a: Seq<Frame>, b: Seq<Frame>)
    ensures
        intern_all(table, a + b) == intern_all(intern_all(table, a), b),
    decreases b.len(),
{
    if b.len() == 0 {
        assert(a + b =~= a);
    } else {
        assert((a + b).drop_last() =~= a + b.drop_last());
        lemma_intern_all_append(table, a, b.drop_last());
    }
}

/// A stack's frames in the order they are interned: outermost first.
pub open spec fn outermost_first(frames: Seq<Frame>) -> Seq<Frame> {
    Seq::new(frames.len(), |k: int| frames[frames.len() - 1 - k])
}

/// `tf` is the interned form of one of the frames of `input`.
pub open spec fn describes_one_of(tf: TimelineFrame, input: Seq<Frame>) -> bool {
    exists|q: int| 0 <= q < input.len() && describes(tf, #[trigger] input[q])
}

/// No two interned frames share a call site.
pub open spec fn keys_distinct(frames: Seq<TimelineFrame>) -> bool {
    forall|a: int, b: int|
        0 <= a < frames.len() && 0 <= b < frames.len() && a != b ==> interned_key(
            #[trigger] frames[a],
        ) != interned_key(#[trigger] frames[b])
}

/// `new` keeps the entries of `old` and may add more.
pub open spec fn extends<T>(old: Seq<T>, new: Seq<T>) -> bool {
    old.len() <= new.len() && forall|a: int| 0 <= a < old.len() ==> #[trigger] new[a] == old[a]
}

/// `stack` lists, outermost first, the interned frames of `input`, which is innermost first.
pub open spec fn stack_of(stack: Seq<usize>, frames: Seq<TimelineFrame>, input: Seq<Frame>) -> bool {
    &&& stack.len() == input.len()
    &&& forall|k: int|
        0 <= k < stack.len() ==> #[trigger] stack[k] < frames.len() && interned_key(
            frames[stack[k] as int],
        ) == frame_key(input[input.len() - 1 - k])
}

fn location_text(f: &Frame) -> (r: String)
    ensures
        r@ == location_of(*f),
{
    match &f.short_filename {
        Some(s) => s.clone(),
        None => f.filename.clone(),
    }
}

/// The position of `f`'s call site among `frames`, added at the end if it is new.
pub fn intern_frame(frames: &mut Vec<TimelineFrame>, f: &Frame) -> (idx: usize)
    requires
        keys_distinct(old(frames)@),
    ensures
        keys_distinct(final(frames)@),
        extends(old(frames)@, final(frames)@),
        final(frames)@.len() <= old(frames)@.len() + 1,
        idx < final(frames)@.len(),
        interned_key(final(frames)@[idx as int]) == frame_key(*f),
        forall|a: int|
            old(frames)@.len() <= a < final(frames)@.len() ==> describes(
                #[trigger] final(frames)@[a],
                *f,
            ),
        frame_views(final(frames)@) == intern_step(frame_views(old(frames)@), *f),
{
    let mut i: usize = 0;
    while i < frames.len()
        invariant
            i <= frames@.len(),
            frames@ == old(frames)@,
            keys_distinct(frames@),
            forall|a: int| 0 <= a < i ==> interned_key(#[trigger] frames@[a]) != frame_key(*f),
        decreases frames@.len() - i,
    {
        if frames[i].line == f.line && same_text(frames[i].filename.as_str(), f.filename.as_str()) {
            assert(frame_views(frames@)[i as int] == frame_view(frames@[i as int]));
            return i;
        }
        i = i + 1;
    }
    assert forall|a: int| 0 <= a < frames@.len() implies ((#[trigger] frame_views(frames@)[a]).1,
        frame_views(frames@)[a].3) != frame_key(*f) by {
        assert(frame_views(frames@)[a] == frame_view(frames@[a]));
    }
    let category = if f.is_entry {
        FrameCategory::Native
    } else {
        FrameCategory::Interpreted
    };
    let tf = TimelineFrame {
        name: f.name.clone(),
        filename: f.filename.clone(),
        location: location_text(f),
        line: f.line,
        category,
    };
    let ghost before = frames@;
    frames.push(tf);
    assert(frame_views(frames@) =~= frame_views(before).push(interned_view(*f)));
    frames.len() - 1
}

/// The interned stack of a captured frame list, outermost first.
pub fn intern_stack(frames: &mut Vec<TimelineFrame>, input: &Vec<Frame>) -> (stack: Vec<usize>)
    requires
        keys_distinct(old(frames)@),
    ensures
        keys_distinct(final(frames)@),
        extends(old(frames)@, final(frames)@),
        stack_of(stack@, final(frames)@, input@),
        forall|a: int|
            old(frames)@.len() <= a < final(frames)@.len() ==> describes_one_of(
                #[trigger] final(frames)@[a],
                input@,
            ),
        frame_views(final(frames)@) == intern_all(frame_views(old(frames)@), outermost_first(input@)),
{
    let ghost start = frames@;
    let mut stack: Vec<usize> = Vec::new();
    let n = input.len();
    let mut k: usize = 0;
    while k < n
        invariant
            n == input@.len(),
            k <= n,
            keys_distinct(frames@),
            extends(start, frames@),
            stack@.len() == k,
            forall|m: int|
                0 <= m < k ==> #[trigger] stack@[m] < frames@.len() && interned_key(
                    frames@[stack@[m] as int],
                ) == frame_key(input@[n - 1 - m]),
            forall|a: int|
                start.len() <= a < frames@.len() ==> describes_one_of(#[trigger] frames@[a], input@),
            frame_views(frames@) == intern_all(
                frame_views(start),
                outermost_first(input@).subrange(0, k as int),
            ),
        decreases n - k,
    {
        let ghost before = frames@;
        let idx = intern_frame(frames, &input[n - 1 - k]);
        proof {
            assert forall|a: int| start.len() <= a < frames@.len() implies describes_one_of(
                #[trigger] frames@[a],
                input@,
            ) by {
                if a < before.len() {
                    assert(frames@[a] == before[a]);
                } else {
                    assert(describes(frames@[a], input@[n - 1 - k]));
                }
            }
            assert forall|m: int| 0 <= m < k implies #[trigger] stack@[m] < frames@.len() && interned_key(
                frames@[stack@[m] as int],
            ) == frame_key(input@[n - 1 - m]) by {
                assert(frames@[stack@[m] as int] == before[stack@[m] as int]);
            }
        }
        proof {
            let visits = outermost_first(input@);
            assert(visits.subrange(0, k + 1).drop_last() =~= visits.subrange(0, k as int));
            assert(visits.subrange(0, k + 1).last() == input@[n - 1 - k]);
        }
        stack.push(idx);
        k = k + 1;
    }
    assert(outermost_first(input@).subrange(0, n as int) =~= outermost_first(input@));
    stack
}

pub open spec fn name_view(name: Option<String>) -> Option<Seq<char>> {
    match name {
        Some(n) => Some(n@),
        None => None,
    }
}

/// A thread as plain values: id, name, main flag, start time.
pub type ThreadView = (u64, Option<Seq<char>>, bool, u128);

pub open spec fn thread_view(t: TimelineThread) -> ThreadView {
    (t.tid, name_view(t.name), t.is_main, t.start_time)
}

pub open spec fn thread_views(threads: Seq<TimelineThread>) -> Seq<ThreadView> {
    threads.map_values(|t: TimelineThread| thread_view(t))
}

/// Whether a thread was seen with a name worth keeping: one that is not empty.
pub open spec fn is_named(name: Option<Seq<char>>) -> bool {
    name matches Some(n) && n.len() > 0
}

/// Seeing thread `tid` at `time`, with `name` if it had one: an unknown thread is
/// appended, unnamed and not main; a non-empty name seen becomes the thread's name.
pub open spec fn register_step(
    threads: Seq<ThreadView>,
    tid: u64,
    name: Option<Seq<char>>,
    time: u128,
) -> Seq<ThreadView> {
    let known = if exists|a: int| 0 <= a < threads.len() && (#[trigger] threads[a]).0 == tid {
        threads
    } else {
        threads.push((tid, None, false, time))
    };
    if is_named(name) {
        let a = choose|a: int| 0 <= a < known.len() && (#[trigger] known[a]).0 == tid;
        known.update(a, (tid, name, known[a].2, known[a].3))
    } else {
        known
    }
}

/// Seeing the threads of `events` one after another.
pub open spec fn register_all(threads: Seq<ThreadView>, events: Seq<(u64, Option<Seq<char>>, u128)>) -> Seq<
    ThreadView,
>
    decreases events.len(),
{
    if events.len() == 0 {
        threads
    } else {
        let e = events.last();
        register_step(register_all(threads, events.drop_last()), e.0, e.1, e.2)
    }
}

pub proof fn lemma_register_all_append(
    threads: Seq<ThreadView>,
    a: Seq<(u64, Option<Seq<char>>, u128)>,
    b: Seq<(u64, Option<Seq<char>>, u128)>,
)
    ensures
        register_all(threads, a + b) == register_all(register_all(threads, a), b),
    decreases b.len(),
{
    if b.len() == 0 {
        assert(a + b =~= a);
    } else {
        assert((a + b).drop_last() =~= a + b.drop_last());
        lemma_register_all_append(threads, a, b.drop_last());
    }
}

/// No two threads share a thread id.
pub open spec fn tids_distinct(threads: Seq<TimelineThread>) -> bool {
    forall|a: int, b: int|
        0 <= a < threads.len() && 0 <= b < threads.len() && a != b ==> (#[trigger] threads[a]).tid
            != (#[trigger] threads[b]).tid
}

/// `new` keeps the threads of `old` (ids, main flag, start time) at their positions,
/// and may add more.
pub open spec fn keeps_threads(old: Seq<TimelineThread>, new: Seq<TimelineThread>) -> bool {
    &&& old.len() <= new.len()
    &&& forall|a: int|
        0 <= a < old.len() ==> (#[trigger] new[a]).tid == old[a].tid && new[a].is_main
            == old[a].is_main && new[a].start_time == old[a].start_time
}

fn copy_name(name: &Option<String>) -> (r: Option<String>)
    ensures
        name_view(r) == name_view(*name),
{
    match name {
        Some(n) => Some(n.clone()),
        None => None,
    }
}

/// The position of thread `tid`, registered at `time` if it is new; a non-empty name
/// seen with it becomes the thread's name.
pub fn register_thread(
    threads: &mut Vec<TimelineThread>,
    tid: u64,
    name: &Option<String>,
    time: u128,
) -> (idx: usize)
    requires
        tids_distinct(old(threads)@),
    ensures
        tids_distinct(final(threads)@),
        keeps_threads(old(threads)@, final(threads)@),
        final(threads)@.len() <= old(threads)@.len() + 1,
        idx < final(threads)@.len(),
        final(threads)@[idx as int].tid == tid,
        forall|a: int|
            old(threads)@.len() <= a < final(threads)@.len() ==> !(#[trigger] final(threads)@[a]).is_main
                && final(threads)@[a].start_time == time,
        forall|a: int|
            0 <= a < final(threads)@.len() && a != idx ==> name_view(
                (#[trigger] final(threads)@[a]).name,
            ) == name_view(old(threads)@[a].name),
        is_named(name_view(*name)) ==> name_view(final(threads)@[idx as int].name) == name_view(*name),
        !is_named(name_view(*name)) && idx < old(threads)@.len() ==> name_view(
            final(threads)@[idx as int].name,
        ) == name_view(old(threads)@[idx as int].name),
        !is_named(name_view(*name)) && idx >= old(threads)@.len() ==> final(threads)@[idx as int].name is None,
        thread_views(final(threads)@) == register_step(thread_views(old(threads)@), tid, name_view(*name), time),
{
    let mut i: usize = 0;
    while i < threads.len() && threads[i].tid != tid
        invariant
            i <= threads@.len(),
            threads@ == old(threads)@,
            tids_distinct(threads@),
            forall|a: int| 0 <= a < i ==> (#[trigger] threads@[a]).tid != tid,
        decreases threads@.len() - i,
    {
        i = i + 1;
    }
    let ghost old_views = thread_views(threads@);
    proof {
        if i < threads@.len() {
            assert(old_views[i as int].0 == tid);
        } else {
            assert forall|a: int| 0 <= a < old_views.len() implies (#[trigger] old_views[a]).0 != tid by {
                assert(old_views[a] == thread_view(threads@[a]));
            }
        }
    }
    if i == threads.len() {
        threads.push(TimelineThread { tid, name: None, is_main: false, start_time: time });
        assert(thread_views(threads@) =~= old_views.push((tid, None, false, time)));
    }
    let ghost known = thread_views(threads@);
    proof {
        let c = choose|a: int| 0 <= a < known.len() && (#[trigger] known[a]).0 == tid;
        assert(known[i as int].0 == tid);
        assert(known[c] == thread_view(threads@[c]));
        assert(c == i);
    }
    let named = match name {
        Some(n) => !n.as_str().is_empty(),
        None => false,
    };
    if named {
        let current = &threads[i];
        let renamed = TimelineThread {
            tid: current.tid,
            name: copy_name(name),
            is_main: current.is_main,
            start_time: current.start_time,
        };
        threads.set(i, renamed);
        assert(thread_views(threads@) =~= known.update(
            i as int,
            (tid, name_view(*name), known[i as int].2, known[i as int].3),
        ));
    }
    i
}

} // verus!
