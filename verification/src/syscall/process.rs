//! Process management system calls: the checks and arithmetic they make on
//! plain values. Exiting, yielding, mapping memory and reading the clock are
//! done by the caller around them.
use vstd::prelude::*;
use crate::mm::{is_readable, is_user_accessable, is_writable, ppn_of, translate_ptr, PageTableEntry, PTE_R, PTE_U, PTE_W};

verus! {

/// Seconds and microseconds of a point in time.
#[derive(Clone, Copy, PartialEq, Eq, Debug)]
pub struct TimeVal {
    pub sec: usize,
    pub usec: usize,
}

/// The time `us` microseconds after boot, split into whole seconds and the
/// remaining microseconds.
pub fn sys_get_time(us: usize) -> (tv: TimeVal)
    ensures
        tv.sec == us / 1_000_000,
        tv.usec == us % 1_000_000,
        tv.sec * 1_000_000 + tv.usec == us,
        tv.usec < 1_000_000,
{
    TimeVal { sec: us / 1_000_000, usec: us % 1_000_000 }
}

/// What `sys_trace` asks of its caller.
#[derive(Clone, Copy, PartialEq, Eq, Debug)]
pub enum TraceAction {
    /// The request is refused: the result is -1.
    Fail,
    /// Read the byte at this physical address; the result is its value.
    ReadByte { pa: u64 },
    /// Write `value` at this physical address; the result is 0.
    WriteByte { pa: u64, value: u8 },
    /// The result is the number of calls of system call `id` by the current task.
    CallCount { id: usize },
}

/// The entry exists and has every bit of `flag`.
pub open spec fn allows(pte: Option<PageTableEntry>, flag: u64) -> bool {
    pte matches Some(e) && e.bits & flag == flag
}

/// The physical address of user address `va` in the page that `pte` maps.
pub open spec fn physical_address(pte: Option<PageTableEntry>, va: usize) -> u64 {
    (ppn_of(pte->0.bits) * 4096 + va % 4096) as u64
}

/// Decides a trace request. `pte` is what the page-table walk of the current
/// address space found for the page of address `id`. Request 0 reads the
/// user byte at `id` and request 1 writes the low byte of `data` there, each
/// only when the page allows it (readable or writable, and user-accessible);
/// request 2 reports the call count of system call `id`; any other request
/// is refused.
pub fn sys_trace(trace_request: usize, id: usize, data: usize, pte: Option<PageTableEntry>) -> (a: TraceAction)
    ensures
        trace_request == 0 ==> a == (if allows(pte, PTE_R) && allows(pte, PTE_U) {
            TraceAction::ReadByte { pa: physical_address(pte, id) }
        } else {
            TraceAction::Fail
        }),
        trace_request == 1 ==> a == (if allows(pte, PTE_W) && allows(pte, PTE_U) {
            TraceAction::WriteByte { pa: physical_address(pte, id), value: (data % 256) as u8 }
        } else {
            TraceAction::Fail
        }),
        trace_request == 2 ==> a == (TraceAction::CallCount { id }),
        trace_request > 2 ==> a == TraceAction::Fail,
        trace_request == 0 && pte is Some && pte->0.bits & 2 == 2 && pte->0.bits & 16 == 16 ==> {
            &&& a is ReadByte
            &&& a->ReadByte_pa % 4096 == id % 4096
            &&& a->ReadByte_pa / 4096 == (pte->0.bits / 1024) % 0x1000_0000_0000
        },
        trace_request == 1 && pte is Some && pte->0.bits & 4 == 4 && pte->0.bits & 16 == 16 ==> {
            &&& a is WriteByte
            &&& a->WriteByte_pa % 4096 == id % 4096
            &&& a->WriteByte_pa / 4096 == (pte->0.bits / 1024) % 0x1000_0000_0000
            &&& a->value == data % 256
        },
        (trace_request == 0 || trace_request == 1) && pte is None ==> a is Fail,
{
    match trace_request {
        0 => {
            if !is_readable(pte) || !is_user_accessable(pte) {
                return TraceAction::Fail;
            }
            TraceAction::ReadByte { pa: translate_ptr(id as u64, pte) }
        },
        1 => {
            if !is_writable(pte) || !is_user_accessable(pte) {
                return TraceAction::Fail;
            }
            let value = (data % 256) as u8;
            TraceAction::WriteByte { pa: translate_ptr(id as u64, pte), value }
        },
        2 => TraceAction::CallCount { id },
        _ => TraceAction::Fail,
    }
}

/// A request to map `len` bytes at `start` with permissions `port` (bit 0
/// read, bit 1 write, bit 2 execute) is well formed: `start` is page
/// aligned, `port` has some bits and none other, and `len` is positive.
pub open spec fn mmap_request_ok(start: usize, len: usize, port: usize) -> bool {
    !(start % 4096 != 0 || port & !0x7usize != 0 || port == 0 || len == 0)
}

/// A permission word has no bits beyond the three low ones exactly when it is at most 7.
proof fn lemma_port_bits(port: usize)
    ensures
        (port & !0x7usize == 0) == (port <= 7),
{
    assert((port & !0x7usize == 0) == (port <= 7)) by (bit_vector);
}

/// Whether a request to map `len` bytes at `start` with permissions `port`
/// is well formed; only then does the caller try to map the area.
pub fn mmap_args_ok(start: usize, len: usize, port: usize) -> (ok: bool)
    ensures
        ok == mmap_request_ok(start, len, port),
        ok == (start % 4096 == 0 && 1 <= port <= 7 && len > 0),
{
    proof {
        lemma_port_bits(port);
    }
    !(start % 4096 != 0 || port & !0x7 != 0 || port == 0 || len == 0)
}

/// The result of mapping `len` bytes at `start` with permissions `port`:
/// -1 for a request that is not well formed (see `mmap_args_ok`), else 0
/// when mapping the area succeeded (`mapped`) and -1 when it failed.
/// `mapped` is the outcome of the attempt, which the caller makes only for a
/// well-formed request; it is not read otherwise.
pub fn sys_mmap(start: usize, len: usize, port: usize, mapped: bool) -> (r: isize)
    ensures
        r == if mmap_request_ok(start, len, port) && mapped { 0isize } else { -1isize },
        start % 4096 != 0 || port == 0 || port > 7 || len == 0 ==> r == -1,
        start % 4096 == 0 && 1 <= port <= 7 && len > 0 ==> r == if mapped { 0isize } else { -1isize },
{
    proof {
        lemma_port_bits(port);
    }
    if start % 4096 != 0 || port & !0x7 != 0 || port == 0 || len == 0 {
        return -1;
    }
    if mapped {
        0
    } else {
        -1
    }
}

/// Checks a request to unmap `len` bytes at `start`: -1 when `start` is not
/// page aligned or `len` is not a positive multiple of the page size;
/// otherwise 0, and the caller unmaps the area.
pub fn sys_munmap(start: usize, len: usize) -> (r: isize)
    ensures
        r == if start % 4096 != 0 || len % 4096 != 0 || len == 0 { -1isize } else { 0isize },
{
    let offset = crate::mm::page_offset(start as u64);
    if offset != 0 || len % 4096 != 0 || len == 0 {
        return -1;
    }
    0
}

/// The result of `sys_sbrk`, given what changing the program break gave
/// back: the old break, or -1 when the change was refused.
pub fn sys_sbrk(old_brk: Option<usize>) -> (r: isize)
    ensures
        r == match old_brk {
            Some(b) => b as isize,
            None => -1isize,
        },
{
    if let Some(b) = old_brk {
        b as isize
    } else {
        -1
    }
}

/// The moment, in milliseconds, at which a thread that sleeps `ms`
/// milliseconds from `now_ms` wakes up; the caller sets a timer for it,
/// blocks, and returns 0.
pub fn sys_sleep(now_ms: usize, ms: usize) -> (expire_ms: usize)
    requires
        now_ms + ms <= usize::MAX,
    ensures
        expire_ms == now_ms + ms,
{
    now_ms + ms
}

} // verus!
