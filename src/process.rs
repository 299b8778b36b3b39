use vstd::prelude::*;
use crate::task::TaskStatus;

verus! {

/// Size in bytes of a page.
pub const PAGE_SIZE: usize = 4096;

/// A point in time as seconds and microseconds.
#[derive(Clone, Copy, Debug, PartialEq, Eq, Structural)]
pub struct TimeVal {
    pub sec: usize,
    pub usec: usize,
}

impl TimeVal {
    /// The time `us` microseconds after the epoch.
    pub fn from_us(us: usize) -> (r: TimeVal)
        ensures
            r.sec == us / 1_000_000,
            r.usec == us % 1_000_000,
    {
        TimeVal { sec: us / 1_000_000, usec: us % 1_000_000 }
    }
}

/// What a task reports of itself: status, per-call counts, and milliseconds
/// since it was first scheduled.
#[derive(Clone, Copy)]
pub struct TaskInfo {
    pub status: TaskStatus,
    pub syscall_times: [u32; 500],
    pub time: usize,
}

impl TaskInfo {
    /// The report of a task with `status` and `syscall_times`, first
    /// scheduled at `start_us` and observed at `now_us`.
    pub fn new(status: TaskStatus, syscall_times: [u32; 500], start_us: usize, now_us: usize) -> (r: TaskInfo)
        requires
            start_us <= now_us,
        ensures
            r.status == status,
            r.syscall_times == syscall_times,
            r.time == (now_us - start_us) / 1000,
    {
        TaskInfo { status, syscall_times, time: (now_us - start_us) / 1000 }
    }
}

/// Page permission bits of a user mapping.
#[derive(Clone, Copy, Debug, PartialEq, Eq, Structural)]
pub struct MapPermission {
    pub bits: u8,
}

/// Readable.
pub const PERM_R: u8 = 2;
/// Writable.
pub const PERM_W: u8 = 4;
/// Executable.
pub const PERM_X: u8 = 8;
/// Reachable from user mode.
pub const PERM_U: u8 = 16;

/// The permission that protection bits `port` ask for: user mode always,
/// and read, write, execute for bits 0, 1, 2.
pub open spec fn perm_of(port: usize) -> u8 {
    (PERM_U + (if port % 2 == 1 { PERM_R } else { 0u8 }) + (if (port / 2) % 2 == 1 { PERM_W } else { 0u8 })
        + (if (port / 4) % 2 == 1 { PERM_X } else { 0u8 })) as u8
}

/// Checks a request to map `len` bytes from `start` with protection bits
/// `port`, and returns the permission to map them with. `None` when
/// `start` is not page aligned, `len` is zero, `port` is zero or has a bit
/// above the low three, or the range passes the end of the address space.
pub fn sys_mmap(start: usize, len: usize, port: usize) -> (r: Option<MapPermission>)
    ensures
        r.is_some() <==> (start % PAGE_SIZE == 0 && len != 0 && 1 <= port <= 7 && start + len <= usize::MAX),
        r.is_some() ==> r.unwrap().bits == perm_of(port),
{
    if start % PAGE_SIZE != 0 {
        return None;
    }
    if len == 0 {
        return None;
    }
    if port > 7 || port == 0 {
        return None;
    }
    if start.checked_add(len).is_none() {
        return None;
    }
    let mut bits: u8 = PERM_U;
    if port % 2 == 1 {
        bits = bits + PERM_R;
    }
    if (port / 2) % 2 == 1 {
        bits = bits + PERM_W;
    }
    if (port / 4) % 2 == 1 {
        bits = bits + PERM_X;
    }
    Some(MapPermission { bits })
}

/// Checks a request to unmap `len` bytes from `start`: true when `start`
/// is page aligned and the range stays in the address space.
pub fn sys_munmap(start: usize, len: usize) -> (r: bool)
    ensures
        r <==> (start % PAGE_SIZE == 0 && start + len <= usize::MAX),
{
    if start % PAGE_SIZE != 0 {
        return false;
    }
    start.checked_add(len).is_some()
}

/// The result of a memory request whose handler reported `ok`: 0 or -1.
pub fn handler_result(ok: bool) -> (r: isize)
    ensures
        r == (if ok { 0isize } else { -1isize }),
{
    if ok { 0 } else { -1 }
}

/// The result of moving the program break, given the old break that the
/// move reported, or `None` when it failed.
pub fn sys_sbrk(old_brk: Option<usize>) -> (r: isize)
    ensures
        r == (match old_brk {
            Some(b) => b as isize,
            None => -1isize,
        }),
{
    match old_brk {
        Some(b) => b as isize,
        None => -1,
    }
}

} // verus!
