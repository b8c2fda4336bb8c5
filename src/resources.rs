//! The system-wide resource record, assembled from the OS's aggregate readings.
use crate::types::{ProcessResources, ThreadResources};
use vstd::prelude::*;

verus! {

/// `total`, held at `u64::MAX`.
pub open spec fn capped(total: int) -> u64 {
    if total > u64::MAX {
        u64::MAX
    } else {
        total as u64
    }
}

/// The sum of the first (`reads`) or second components of `disks`.
pub open spec fn disk_total(disks: Seq<(u64, u64)>, reads: bool) -> int
    decreases disks.len(),
{
    if disks.len() == 0 {
        0
    } else {
        disk_total(disks.drop_last(), reads) + if reads {
            disks.last().0 as int
        } else {
            disks.last().1 as int
        }
    }
}

/// The system-wide record: used memory plus used swap, the normalised CPU usage, and
/// the bytes read and written summed over all disks, with no per-thread entries.
/// Totals are held at `u64::MAX`.
pub fn global_resources(used_memory: u64, used_swap: u64, cpu: u64, disks: &Vec<(u64, u64)>) -> (r:
    ProcessResources)
    ensures
        r.memory == capped(used_memory + used_swap),
        r.cpu == cpu,
        r.disk_read_bytes == capped(disk_total(disks@, true)),
        r.disk_write_bytes == capped(disk_total(disks@, false)),
        r.thread_resources@.len() == 0,
{
    let mut read: u64 = 0;
    let mut written: u64 = 0;
    let mut a: usize = 0;
    assert(disks@.subrange(0, 0).len() == 0);
    while a < disks.len()
        invariant
            a <= disks@.len(),
            disk_total(disks@.subrange(0, a as int), true) >= 0,
            disk_total(disks@.subrange(0, a as int), false) >= 0,
            read == capped(disk_total(disks@.subrange(0, a as int), true)),
            written == capped(disk_total(disks@.subrange(0, a as int), false)),
        decreases disks@.len() - a,
    {
        let (r, w) = disks[a];
        assert(disks@.subrange(0, a + 1).drop_last() =~= disks@.subrange(0, a as int));
        assert(disks@.subrange(0, a + 1).last() == (r, w));
        assert(disk_total(disks@.subrange(0, a + 1), true) == disk_total(disks@.subrange(0, a as int), true) + r);
        assert(disk_total(disks@.subrange(0, a + 1), false) == disk_total(disks@.subrange(0, a as int), false) + w);
        read = read.saturating_add(r);
        written = written.saturating_add(w);
        a = a + 1;
    }
    assert(disks@.subrange(0, a as int) =~= disks@);
    let thread_resources: Vec<(u64, ThreadResources)> = Vec::new();
    ProcessResources {
        memory: used_memory.saturating_add(used_swap),
        cpu,
        disk_read_bytes: read,
        disk_write_bytes: written,
        thread_resources,
    }
}

} // verus!
