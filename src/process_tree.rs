//! The set of monitored processes: which to drop when they exit and which newly
//! spawned children to attach to.
use vstd::prelude::*;

verus! {

/// The processes being monitored, each once.
pub struct ProcessSet {
    pids: Vec<u32>,
}

/// What one refresh of the process set asks for.
#[derive(Debug)]
pub struct RefreshPlan {
    /// Tracked processes that exited, in tracking order.
    pub to_remove: Vec<u32>,
    /// Children not tracked yet, each once, in the order they were discovered.
    pub to_attach: Vec<u32>,
}

pub open spec fn distinct(s: Seq<u32>) -> bool {
    forall|a: int, b: int| 0 <= a < s.len() && 0 <= b < s.len() && a != b ==> #[trigger] s[a] != #[trigger] s[b]
}

/// Whether `pid` is listed as a child of some tracked process.
pub open spec fn is_child(children: Seq<Vec<u32>>, pid: u32) -> bool {
    exists|a: int| 0 <= a < children.len() && (#[trigger] children[a])@.contains(pid)
}

proof fn lemma_push_contains(s: Seq<u32>, x: u32)
    ensures
        forall|p: u32| #[trigger] s.push(x).contains(p) <==> s.contains(p) || p == x,
{
    assert forall|p: u32| #[trigger] s.push(x).contains(p) <==> s.contains(p) || p == x by {
        if s.contains(p) {
            let i = choose|i: int| 0 <= i < s.len() && s[i] == p;
            assert(s.push(x)[i] == p);
        }
        if p == x {
            assert(s.push(x)[s.len() as int] == p);
        }
        if s.push(x).contains(p) {
            let i = choose|i: int| 0 <= i < s.len() + 1 && s.push(x)[i] == p;
            if i < s.len() {
                assert(s[i] == p);
            }
        }
    }
}

fn contains_pid(v: &Vec<u32>, pid: u32) -> (r: bool)
    ensures
        r == v@.contains(pid),
{
    let mut a: usize = 0;
    while a < v.len()
        invariant
            a <= v@.len(),
            forall|b: int| 0 <= b < a ==> v@[b] != pid,
        decreases v@.len() - a,
    {
        if v[a] == pid {
            return true;
        }
        a = a + 1;
    }
    false
}

impl ProcessSet {
    pub closed spec fn view(&self) -> Seq<u32> {
        self.pids@
    }

    pub closed spec fn well_formed(&self) -> bool {
        distinct(self.pids@)
    }

    /// A set that tracks only the root process.
    pub fn new(root: u32) -> (r: ProcessSet)
        ensures
            r.well_formed(),
            r.view() == seq![root],
    {
        let mut pids: Vec<u32> = Vec::new();
        pids.push(root);
        ProcessSet { pids }
    }

    /// The tracked processes, in tracking order.
    pub fn pids(&self) -> (r: &Vec<u32>)
        ensures
            r@ == self.view(),
    {
        &self.pids
    }

    /// Whether any process is still tracked.
    pub fn any_live(&self) -> (r: bool)
        ensures
            r == (self.view().len() > 0),
    {
        self.pids.len() > 0
    }

    /// Plans a refresh from what was observed of each tracked process (in tracking
    /// order): its children, and whether it is still alive.
    pub fn plan_refresh(&self, children: &Vec<Vec<u32>>, alive: &Vec<bool>) -> (r: RefreshPlan)
        requires
            self.well_formed(),
            children@.len() == self.view().len(),
            alive@.len() == self.view().len(),
        ensures
            forall|pid: u32|
                r.to_remove@.contains(pid) <==> exists|a: int|
                    0 <= a < self.view().len() && self.view()[a] == pid && !(#[trigger] alive@[a]),
            distinct(r.to_remove@),
            forall|pid: u32|
                r.to_attach@.contains(pid) <==> is_child(children@, pid) && !self.view().contains(pid),
            distinct(r.to_attach@),
    {
        let n = self.pids.len();
        let mut to_remove: Vec<u32> = Vec::new();
        let mut to_attach: Vec<u32> = Vec::new();
        let mut a: usize = 0;
        while a < n
            invariant
                n == self.pids@.len(),
                n == children@.len(),
                n == alive@.len(),
                a <= n,
                distinct(self.pids@),
                forall|pid: u32|
                    to_remove@.contains(pid) <==> exists|b: int|
                        0 <= b < a && self.pids@[b] == pid && !(#[trigger] alive@[b]),
                distinct(to_remove@),
                forall|pid: u32|
                    to_attach@.contains(pid) <==> is_child(children@.subrange(0, a as int), pid)
                        && !self.pids@.contains(pid),
                distinct(to_attach@),
            decreases n - a,
        {
            let ghost removed_before = to_remove@;
            if !alive[a] {
                proof {
                    assert forall|b: int| 0 <= b < a && !alive@[b] implies self.pids@[b] != self.pids@[a as int] by {}
                    assert(!to_remove@.contains(self.pids@[a as int]));
                }
                to_remove.push(self.pids[a]);
                proof {
                    lemma_push_contains(removed_before, self.pids@[a as int]);
                }
            }
            proof {
                assert forall|pid: u32|
                    to_remove@.contains(pid) <==> exists|b: int|
                        0 <= b < a + 1 && self.pids@[b] == pid && !(#[trigger] alive@[b]) by {
                    if exists|b: int| 0 <= b < a + 1 && self.pids@[b] == pid && !(#[trigger] alive@[b]) {
                        let b = choose|b: int| 0 <= b < a + 1 && self.pids@[b] == pid && !(#[trigger] alive@[b]);
                        if b < a {
                            assert(removed_before.contains(pid));
                        }
                    }
                }
            }
            let kids = &children[a];
            let mut c: usize = 0;
            while c < kids.len()
                invariant
                    n == self.pids@.len(),
                    n == children@.len(),
                    a < n,
                    *kids == children@[a as int],
                    c <= kids@.len(),
                    distinct(self.pids@),
                    forall|pid: u32|
                        to_attach@.contains(pid) <==> (is_child(children@.subrange(0, a as int), pid)
                            || kids@.subrange(0, c as int).contains(pid)) && !self.pids@.contains(pid),
                    distinct(to_attach@),
                decreases kids@.len() - c,
            {
                let kid = kids[c];
                let ghost attach_before = to_attach@;
                if !contains_pid(&self.pids, kid) && !contains_pid(&to_attach, kid) {
                    to_attach.push(kid);
                }
                proof {
                    assert(kids@.subrange(0, c + 1) =~= kids@.subrange(0, c as int).push(kid));
                    lemma_push_contains(kids@.subrange(0, c as int), kid);
                    lemma_push_contains(attach_before, kid);
                }
                c = c + 1;
            }
            proof {
                assert(kids@.subrange(0, c as int) =~= kids@);
                assert forall|pid: u32| is_child(children@.subrange(0, a + 1), pid) <==> (is_child(
                    children@.subrange(0, a as int),
                    pid,
                ) || kids@.contains(pid)) by {
                    if is_child(children@.subrange(0, a + 1), pid) {
                        let b = choose|b: int| 0 <= b < a + 1 && (#[trigger] children@.subrange(0, a + 1)[b])@.contains(pid);
                        if b < a {
                            assert(children@.subrange(0, a as int)[b] == children@[b]);
                        }
                    }
                    if is_child(children@.subrange(0, a as int), pid) {
                        let b = choose|b: int| 0 <= b < a && (#[trigger] children@.subrange(0, a as int)[b])@.contains(pid);
                        assert(children@.subrange(0, a + 1)[b] == children@[b]);
                    }
                    if kids@.contains(pid) {
                        assert(children@.subrange(0, a + 1)[a as int] == children@[a as int]);
                    }
                }
            }
            a = a + 1;
        }
        assert(children@.subrange(0, n as int) =~= children@);
        RefreshPlan { to_remove, to_attach }
    }

    /// Drops the processes in `removed` and tracks those in `attached`, the children
    /// that could be attached to.
    pub fn apply(&mut self, removed: &Vec<u32>, attached: &Vec<u32>)
        requires
            old(self).well_formed(),
        ensures
            final(self).well_formed(),
            forall|pid: u32|
                final(self).view().contains(pid) <==> (old(self).view().contains(pid)
                    && !removed@.contains(pid)) || attached@.contains(pid),
    {
        let mut kept: Vec<u32> = Vec::new();
        let n = self.pids.len();
        let mut a: usize = 0;
        while a < n
            invariant
                n == self.pids@.len(),
                a <= n,
                self.pids@ == old(self).pids@,
                distinct(self.pids@),
                distinct(kept@),
                forall|pid: u32|
                    kept@.contains(pid) <==> self.pids@.subrange(0, a as int).contains(pid)
                        && !removed@.contains(pid),
            decreases n - a,
        {
            let pid = self.pids[a];
            proof {
                assert(self.pids@.subrange(0, a + 1) =~= self.pids@.subrange(0, a as int).push(pid));
                assert(!self.pids@.subrange(0, a as int).contains(pid));
            }
            let ghost kept_before = kept@;
            if !contains_pid(removed, pid) {
                kept.push(pid);
            }
            proof {
                lemma_push_contains(self.pids@.subrange(0, a as int), pid);
                lemma_push_contains(kept_before, pid);
            }
            a = a + 1;
        }
        assert(self.pids@.subrange(0, n as int) =~= self.pids@);
        let m = attached.len();
        let mut c: usize = 0;
        while c < m
            invariant
                m == attached@.len(),
                c <= m,
                distinct(kept@),
                forall|pid: u32|
                    kept@.contains(pid) <==> (old(self).pids@.contains(pid) && !removed@.contains(pid))
                        || attached@.subrange(0, c as int).contains(pid),
            decreases m - c,
        {
            let pid = attached[c];
            let ghost kept_before = kept@;
            if !contains_pid(&kept, pid) {
                kept.push(pid);
            }
            proof {
                assert(attached@.subrange(0, c + 1) =~= attached@.subrange(0, c as int).push(pid));
                lemma_push_contains(attached@.subrange(0, c as int), pid);
                lemma_push_contains(kept_before, pid);
            }
            c = c + 1;
        }
        assert(attached@.subrange(0, m as int) =~= attached@);
        self.pids = kept;
    }
}

} // verus!
