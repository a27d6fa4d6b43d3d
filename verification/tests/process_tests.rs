use oskernel::mm::{
    floor_vpn, is_readable, is_user_accessable, is_writable, page_offset, translate_ptr, PageTableEntry, PTE_R,
    PTE_U, PTE_V, PTE_W, PTE_X,
};
use oskernel::syscall::process::{
    mmap_args_ok, sys_get_time, sys_mmap, sys_munmap, sys_sbrk, sys_sleep, sys_trace, TimeVal, TraceAction,
};
use oskernel::task::task::{TaskContext, TaskControlBlock, TaskStatus};

fn entry(ppn: u64, flags: u64) -> PageTableEntry {
    PageTableEntry { bits: (ppn << 10) | flags }
}

#[test]
fn entry_fields() {
    let e = entry(0x8_0123, PTE_V | PTE_R | PTE_U);
    assert_eq!(e.ppn(), 0x8_0123);
    assert!(e.contains(PTE_R));
    assert!(e.contains(PTE_R | PTE_U));
    assert!(!e.contains(PTE_W));
    // Bits above the 44-bit page number are not part of it.
    let high = PageTableEntry { bits: (1u64 << 60) | (5 << 10) };
    assert_eq!(high.ppn(), 5);
}

#[test]
fn address_parts() {
    assert_eq!(floor_vpn(0x1234_5678), 0x12345);
    assert_eq!(page_offset(0x1234_5678), 0x678);
    // Only the 39 bits of an SV39 address count for the page number.
    assert_eq!(floor_vpn((1u64 << 40) | 0x3000), 3);
}

#[test]
fn translate_keeps_offset() {
    let e = entry(0x80400, PTE_V | PTE_R);
    assert_eq!(translate_ptr(0x1000_0abc, Some(e)), 0x8040_0abc);
    assert_eq!(translate_ptr(0, Some(e)), 0x8040_0000);
}

#[test]
fn permission_checks() {
    let e = entry(1, PTE_V | PTE_R | PTE_X | PTE_U);
    assert!(is_readable(Some(e)));
    assert!(!is_writable(Some(e)));
    assert!(is_user_accessable(Some(e)));
    let k = entry(1, PTE_V | PTE_R | PTE_W);
    assert!(is_writable(Some(k)));
    assert!(!is_user_accessable(Some(k)));
    assert!(!is_readable(None));
    assert!(!is_writable(None));
    assert!(!is_user_accessable(None));
}

#[test]
fn get_time_splits_microseconds() {
    assert_eq!(sys_get_time(3_250_001), TimeVal { sec: 3, usec: 250_001 });
    assert_eq!(sys_get_time(999_999), TimeVal { sec: 0, usec: 999_999 });
    assert_eq!(sys_get_time(0), TimeVal { sec: 0, usec: 0 });
}

#[test]
fn trace_requests() {
    let user_rw = entry(0x80001, PTE_V | PTE_R | PTE_W | PTE_U);
    let kernel = entry(0x80001, PTE_V | PTE_R | PTE_W);
    let read_only = entry(0x80001, PTE_V | PTE_R | PTE_U);
    assert_eq!(sys_trace(0, 0x2010, 0, Some(user_rw)), TraceAction::ReadByte { pa: 0x8000_1010 });
    assert_eq!(sys_trace(0, 0x2010, 0, Some(kernel)), TraceAction::Fail);
    assert_eq!(sys_trace(0, 0x2010, 0, None), TraceAction::Fail);
    assert_eq!(
        sys_trace(1, 0x2010, 0x1ff, Some(user_rw)),
        TraceAction::WriteByte { pa: 0x8000_1010, value: 0xff }
    );
    assert_eq!(sys_trace(1, 0x2010, 7, Some(read_only)), TraceAction::Fail);
    assert_eq!(sys_trace(2, 64, 0, None), TraceAction::CallCount { id: 64 });
    assert_eq!(sys_trace(3, 0, 0, Some(user_rw)), TraceAction::Fail);
}

#[test]
fn mmap_checks() {
    assert!(mmap_args_ok(0x1000_0000, 4096, 3));
    assert!(!mmap_args_ok(0x1000_0001, 4096, 3));
    assert!(!mmap_args_ok(0x1000_0000, 4096, 8));
    assert!(!mmap_args_ok(0x1000_0000, 4096, 0));
    assert!(!mmap_args_ok(0x1000_0000, 0, 1));
    assert!(mmap_args_ok(0x1000_0000, 10, 7));
}

#[test]
fn mmap_results() {
    assert_eq!(sys_mmap(0x1000_0000, 4096, 3, true), 0);
    assert_eq!(sys_mmap(0x1000_0000, 4096, 3, false), -1);
    assert_eq!(sys_mmap(0x1000_0001, 4096, 3, true), -1);
    assert_eq!(sys_mmap(0x1000_0000, 4096, 9, true), -1);
    assert_eq!(sys_mmap(0x1000_0000, 0, 1, true), -1);
}

#[test]
fn munmap_checks() {
    assert_eq!(sys_munmap(0x1000_0000, 8192), 0);
    assert_eq!(sys_munmap(0x1000_0010, 4096), -1);
    assert_eq!(sys_munmap(0x1000_0000, 100), -1);
    assert_eq!(sys_munmap(0x1000_0000, 0), -1);
}

#[test]
fn sbrk_results() {
    assert_eq!(sys_sbrk(Some(0x8000)), 0x8000);
    assert_eq!(sys_sbrk(None), -1);
}

#[test]
fn sleep_deadline() {
    assert_eq!(sys_sleep(1000, 250), 1250);
    assert_eq!(sys_sleep(0, 0), 0);
}

#[test]
fn task_types() {
    let tcb = TaskControlBlock {
        task_status: TaskStatus::Ready,
        task_cx: TaskContext { ra: 0, sp: 0, s: [0; 12] },
        call_times: [0; 411],
    };
    let copy = tcb;
    assert!(copy.task_status == TaskStatus::Ready);
    assert!(copy.task_status != TaskStatus::Exited);
    assert_eq!(copy.call_times.len(), 411);
}
