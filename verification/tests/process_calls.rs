use osfs::process::{sys_get_time, sys_sbrk, sys_task_info, sys_yield};
use osfs::process::{TaskInfo, TaskStatus, TimeVal, MAX_SYSCALL_NUM};

#[test]
fn yield_returns_zero() {
    assert_eq!(sys_yield(), 0);
}

#[test]
fn get_time_splits_microseconds() {
    let mut tv = TimeVal { sec: 99, usec: 99 };
    assert_eq!(sys_get_time(&mut tv, 3_500_042), 0);
    assert_eq!(tv.sec, 3);
    assert_eq!(tv.usec, 500_042);

    assert_eq!(sys_get_time(&mut tv, 999_999), 0);
    assert_eq!(tv.sec, 0);
    assert_eq!(tv.usec, 999_999);
}

#[test]
fn fresh_task_info_is_zeroed() {
    let info = TaskInfo::new();
    assert_eq!(info.status, TaskStatus::UnInit);
    assert_eq!(info.time, 0);
    assert!(info.syscall_times.iter().all(|&c| c == 0));
    assert_eq!(info.syscall_times.len(), MAX_SYSCALL_NUM);
}

#[test]
fn task_info_is_copied_out() {
    let mut current = TaskInfo::new();
    current.status = TaskStatus::Running;
    current.time = 42;
    current.syscall_times[3] = 7;
    let mut out = TaskInfo::new();
    assert_eq!(sys_task_info(&mut out, &current), 0);
    assert_eq!(out.status, TaskStatus::Running);
    assert_eq!(out.time, 42);
    assert_eq!(out.syscall_times[3], 7);
}

#[test]
fn sbrk_reports_old_break_or_failure() {
    assert_eq!(sys_sbrk(Some(0x1_0000)), 0x1_0000);
    assert_eq!(sys_sbrk(None), -1);
}
