//! The sample writer's bookkeeping: the position of each record in its identity's
//! log, owned by the writer alone.
use crate::report::ReportIdentifier;
use crate::types::{JsonLine, ProcessResources, StackTrace};
use vstd::prelude::*;

verus! {

/// One record to append to the log of `identity`.
#[derive(Debug)]
pub struct WriteRequest {
    pub identity: ReportIdentifier,
    pub resources: ProcessResources,
    pub stacktraces: Vec<StackTrace>,
    /// Milliseconds since the unix epoch.
    pub time: u128,
}

/// How many times `id` occurs in `ids`.
pub open spec fn occurrences(ids: Seq<ReportIdentifier>, id: ReportIdentifier) -> nat
    decreases ids.len(),
{
    if ids.len() == 0 {
        0
    } else {
        occurrences(ids.drop_last(), id) + if ids.last() == id {
            1nat
        } else {
            0nat
        }
    }
}

/// The indices that a writer, fed the identities `ids` in order from its start, hands
/// out to identity `id`, in order.
pub open spec fn index_sequence(ids: Seq<ReportIdentifier>, id: ReportIdentifier) -> Seq<nat>
    decreases ids.len(),
{
    if ids.len() == 0 {
        Seq::empty()
    } else if ids.last() == id {
        index_sequence(ids.drop_last(), id).push(occurrences(ids.drop_last(), id))
    } else {
        index_sequence(ids.drop_last(), id)
    }
}

/// The indices one identity's log receives are exactly 0, 1, 2, ... in order, however
/// the records of other identities are interleaved with them.
pub proof fn lemma_indices_consecutive(ids: Seq<ReportIdentifier>, id: ReportIdentifier)
    ensures
        index_sequence(ids, id) == Seq::new(occurrences(ids, id), |i: int| i as nat),
    decreases ids.len(),
{
    if ids.len() > 0 {
        lemma_indices_consecutive(ids.drop_last(), id);
        assert(index_sequence(ids, id) =~= Seq::new(occurrences(ids, id), |i: int| i as nat));
    } else {
        assert(index_sequence(ids, id) =~= Seq::new(occurrences(ids, id), |i: int| i as nat));
    }
}

/// Counts the records written per identity, so that each gets the next index of its
/// identity's log.
pub struct SampleWriter {
    /// The number of records written so far per identity, each identity at most once.
    /// A vector with distinct identities rather than a hash map: Verus specifies no
    /// hash map keyed by a type of this library, while the vector's lookup is verified.
    /// A session has few identities, so a linear lookup costs little.
    counts: Vec<(ReportIdentifier, usize)>,
    /// The identities of the records written so far, in order.
    written_ids: Ghost<Seq<ReportIdentifier>>,
}

pub open spec fn ids_distinct(counts: Seq<(ReportIdentifier, usize)>) -> bool {
    forall|a: int, b: int|
        0 <= a < counts.len() && 0 <= b < counts.len() && a != b ==> (#[trigger] counts[a]).0
            != (#[trigger] counts[b]).0
}

pub open spec fn count_in(counts: Seq<(ReportIdentifier, usize)>, id: ReportIdentifier) -> nat {
    if exists|a: int| 0 <= a < counts.len() && (#[trigger] counts[a]).0 == id {
        counts[choose|a: int| 0 <= a < counts.len() && (#[trigger] counts[a]).0 == id].1 as nat
    } else {
        0
    }
}

impl SampleWriter {
    pub closed spec fn well_formed(&self) -> bool {
        &&& ids_distinct(self.counts@)
        &&& forall|id: ReportIdentifier| #[trigger] count_in(self.counts@, id) == occurrences(self.written_ids@, id)
    }

    /// The identities of the records written so far, in order.
    pub closed spec fn history(&self) -> Seq<ReportIdentifier> {
        self.written_ids@
    }

    /// How many records of `id` this writer has written.
    pub open spec fn written_count(&self, id: ReportIdentifier) -> nat {
        occurrences(self.history(), id)
    }

    /// A writer that has written nothing yet.
    pub fn new() -> (r: SampleWriter)
        ensures
            r.well_formed(),
            r.history() == Seq::<ReportIdentifier>::empty(),
    {
        SampleWriter { counts: Vec::new(), written_ids: Ghost(Seq::empty()) }
    }

    /// How many records of `id` this writer has written.
    pub fn written(&self, id: ReportIdentifier) -> (r: usize)
        requires
            self.well_formed(),
        ensures
            r == self.written_count(id),
    {
        let mut a: usize = 0;
        while a < self.counts.len() && self.counts[a].0 != id
            invariant
                a <= self.counts@.len(),
                forall|b: int| 0 <= b < a ==> (#[trigger] self.counts@[b]).0 != id,
            decreases self.counts@.len() - a,
        {
            a = a + 1;
        }
        if a < self.counts.len() {
            proof {
                let c = choose|b: int| 0 <= b < self.counts@.len() && (#[trigger] self.counts@[b]).0 == id;
                assert(c == a);
                assert(count_in(self.counts@, id) == occurrences(self.written_ids@, id));
            }
            self.counts[a].1
        } else {
            assert(count_in(self.counts@, id) == occurrences(self.written_ids@, id));
            0
        }
    }

    /// Turns a request into the record to append: its index is the number of records of
    /// its identity written before.
    pub fn record(&mut self, req: WriteRequest) -> (line: JsonLine)
        requires
            old(self).well_formed(),
            old(self).written_count(req.identity) < usize::MAX,
        ensures
            final(self).well_formed(),
            line.index == old(self).written_count(req.identity),
            line.time == req.time,
            line.resources == req.resources,
            line.stacktraces == req.stacktraces,
            final(self).history() == old(self).history().push(req.identity),
    {
        let id = req.identity;
        let ghost before = self.counts@;
        assert(count_in(before, id) == occurrences(self.written_ids@, id));
        let mut a: usize = 0;
        while a < self.counts.len() && self.counts[a].0 != id
            invariant
                a <= self.counts@.len(),
                self.counts@ == before,
                forall|b: int| 0 <= b < a ==> (#[trigger] before[b]).0 != id,
            decreases self.counts@.len() - a,
        {
            a = a + 1;
        }
        let index: usize;
        if a < self.counts.len() {
            proof {
                let c = choose|b: int| 0 <= b < before.len() && (#[trigger] before[b]).0 == id;
                assert(c == a);
            }
            index = self.counts[a].1;
            self.counts.set(a, (id, index + 1));
            proof {
                let after = self.counts@;
                assert forall|x: ReportIdentifier| #[trigger]
                    count_in(after, x) == count_in(before, x) + if x == id { 1nat } else { 0nat } by {
                    assert forall|b: int| 0 <= b < after.len() implies ((#[trigger] after[b]).0 == x
                        <==> before[b].0 == x) by {
                        if b != a {
                            assert(after[b] == before[b]);
                        }
                    }
                    if exists|b: int| 0 <= b < after.len() && (#[trigger] after[b]).0 == x {
                        let b1 = choose|b: int| 0 <= b < after.len() && (#[trigger] after[b]).0 == x;
                        assert(before[b1].0 == x);
                        let b2 = choose|b: int| 0 <= b < before.len() && (#[trigger] before[b]).0 == x;
                        assert(b1 == b2);
                        if b1 != a {
                            assert(after[b1] == before[b1]);
                        }
                    }
                    if exists|b: int| 0 <= b < before.len() && (#[trigger] before[b]).0 == x {
                        let b2 = choose|b: int| 0 <= b < before.len() && (#[trigger] before[b]).0 == x;
                        assert(after[b2].0 == x);
                    }
                }
            }
        } else {
            index = 0;
            self.counts.push((id, 1));
            proof {
                let after = self.counts@;
                assert forall|x: ReportIdentifier| #[trigger]
                    count_in(after, x) == count_in(before, x) + if x == id { 1nat } else { 0nat } by {
                    if x == id {
                        let b1 = choose|b: int| 0 <= b < after.len() && (#[trigger] after[b]).0 == x;
                        assert(after[before.len() as int].0 == x);
                        assert(b1 == before.len());
                    } else {
                        if exists|b: int| 0 <= b < after.len() && (#[trigger] after[b]).0 == x {
                            let b1 = choose|b: int| 0 <= b < after.len() && (#[trigger] after[b]).0 == x;
                            assert(before[b1].0 == x);
                            let b2 = choose|b: int| 0 <= b < before.len() && (#[trigger] before[b]).0 == x;
                            assert(b1 == b2);
                        }
                        if exists|b: int| 0 <= b < before.len() && (#[trigger] before[b]).0 == x {
                            let b2 = choose|b: int| 0 <= b < before.len() && (#[trigger] before[b]).0 == x;
                            assert(after[b2].0 == x);
                        }
                    }
                }
            }
        }
        proof {
            let h = self.written_ids@.push(id);
            assert(h.drop_last() =~= self.written_ids@);
            self.written_ids = Ghost(h);
        }
        JsonLine { stacktraces: req.stacktraces, resources: req.resources, index, time: req.time }
    }
}

} // verus!
