//! Process-management syscall results. These functions compute what each
//! syscall hands back to user space; the surrounding kernel performs the
//! task switching and the user-memory transfers, which are outside this
//! library.

use vstd::prelude::*;

verus! {

/// How many distinct syscalls the per-task counters cover.
pub const MAX_SYSCALL_NUM: usize = 500;

/// Where a task stands in its life cycle.
#[derive(Clone, Copy, PartialEq, Eq, Structural, Debug)]
pub enum TaskStatus {
    UnInit,
    Ready,
    Running,
    Exited,
}

/// A wall-clock instant in seconds and microseconds.
#[derive(Clone, Copy, PartialEq, Eq, Structural, Debug)]
pub struct TimeVal {
    pub sec: usize,
    pub usec: usize,
}

/// A snapshot of one task: its status, per-syscall call counters, and
/// total running time.
#[derive(Clone, Copy)]
pub struct TaskInfo {
    pub status: TaskStatus,
    pub syscall_times: [u32; MAX_SYSCALL_NUM],
    pub time: usize,
}

impl TaskInfo {
    /// A fresh task snapshot: uninitialised status, all counters zero, no
    /// time accumulated.
    pub fn new() -> (r: TaskInfo)
        ensures
            r.status == TaskStatus::UnInit,
            r.time == 0,
            forall|i: int| 0 <= i < MAX_SYSCALL_NUM ==> r.syscall_times@[i] == 0,
    {
        TaskInfo { status: TaskStatus::UnInit, syscall_times: [0u32; MAX_SYSCALL_NUM], time: 0 }
    }
}

/// The yield syscall's result: the current task gives up the processor
/// (the caller performs the switch) and user space receives zero.
pub fn sys_yield() -> (r: isize)
    ensures
        r == 0,
{
    0
}

/// The get-time syscall: split the kernel clock's microsecond reading into
/// the second/microsecond pair written to the caller's buffer, and return
/// zero.
pub fn sys_get_time(ts: &mut TimeVal, us: usize) -> (r: isize)
    ensures
        final(ts).sec == us / 1_000_000,
        final(ts).usec == us % 1_000_000,
        r == 0,
{
    *ts = TimeVal { sec: us / 1_000_000, usec: us % 1_000_000 };
    0
}

/// The task-info syscall: write the running task's snapshot, as the task
/// subsystem reports it, to the caller's buffer, and return zero.
pub fn sys_task_info(ti: &mut TaskInfo, current: &TaskInfo) -> (r: isize)
    ensures
        *final(ti) == *current,
        r == 0,
{
    *ti = *current;
    0
}

/// The sbrk syscall's result: the previous program break when the task
/// subsystem could move it, minus one when it could not.
pub fn sys_sbrk(old_brk: Option<usize>) -> (r: isize)
    ensures
        old_brk matches Some(b) ==> r == b as isize,
        old_brk is None ==> r == -1,
{
    match old_brk {
        Some(b) => b as isize,
        None => -1,
    }
}

} // verus!
