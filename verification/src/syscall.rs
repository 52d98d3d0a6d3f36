//! The system calls that touch memory or scheduling, as functions on the
//! state of the kernel. Each returns what goes back to the task in its
//! result register.

use crate::mm::address::VA_LIMIT;
use crate::mm::area::{frames_bound, AreaView, MapType};
use crate::mm::frame_allocator::{backed, StackFrameAllocator};
use crate::mm::memory::{byte_of, page_byte, MemoryMap, PhysMemory};
use crate::mm::memory_set::page_range;
use crate::mm::user::{
    read_user_bytes, user_byte, user_page, user_range_ok, write_user_bytes,
};
use crate::task::manager::{
    action_of, after_switch, end_page, first_page, mmap_args_ok, one_runs, port_permission,
    SwitchAction, TaskManager,
};
use crate::task::stride::{StrideScheduler, StrideTask};
use vstd::prelude::*;

verus! {

/// The number of the system call to write.
pub const SYSCALL_WRITE: u64 = 64;

/// The number of the system call to exit.
pub const SYSCALL_EXIT: u64 = 93;

/// The number of the system call to yield.
pub const SYSCALL_YIELD: u64 = 124;

/// The number of the system call to set the priority.
pub const SYSCALL_SET_PRIORITY: u64 = 140;

/// The number of the system call to get the time.
pub const SYSCALL_GET_TIME: u64 = 169;

/// The number of the system call to unmap memory.
pub const SYSCALL_MUNMAP: u64 = 215;

/// The number of the system call to map memory.
pub const SYSCALL_MMAP: u64 = 222;

/// The file descriptor of the standard output.
pub const FD_STDOUT: u64 = 1;

/// A time as seconds and microseconds.
#[derive(Clone, Copy, Debug, PartialEq, Eq, Structural)]
pub struct TimeVal {
    pub sec: u64,
    pub usec: u64,
}

impl TimeVal {
    /// The time of `us` microseconds.
    pub open spec fn spec_from_us(us: u64) -> TimeVal {
        TimeVal { sec: us / 1_000_000, usec: us % 1_000_000 }
    }

    /// The time of `us` microseconds.
    #[verifier::when_used_as_spec(spec_from_us)]
    pub fn from_us(us: u64) -> (r: TimeVal)
        ensures
            r == Self::spec_from_us(us),
    {
        TimeVal { sec: us / 1_000_000, usec: us % 1_000_000 }
    }

    /// Byte `i` of the 16 bytes of the record in memory: the seconds, then
    /// the microseconds, each with its low byte first.
    pub open spec fn byte(self, i: int) -> u8 {
        if i < 8 {
            byte_of(self.sec, i as u64)
        } else {
            byte_of(self.usec, (i - 8) as u64)
        }
    }

    /// The 16 bytes of the record in memory.
    pub fn to_bytes(&self) -> (v: Vec<u8>)
        ensures
            v@.len() == 16,
            forall|i: int| 0 <= i < 16 ==> #[trigger] v@[i] == self.byte(i),
    {
        let mut v: Vec<u8> = Vec::new();
        let mut i: u64 = 0;
        while i < 16
            invariant
                i <= 16,
                v@.len() == i,
                forall|k: int| 0 <= k < i ==> #[trigger] v@[k] == self.byte(k),
            decreases 16 - i,
        {
            let (w, k): (u64, u64) = if i < 8 {
                (self.sec, i)
            } else {
                (self.usec, i - 8)
            };
            assert(((w >> (8 * k)) & 0xff) < 256) by (bit_vector);
            v.push(((w >> (8 * k)) & 0xff) as u8);
            i += 1;
        }
        v
    }
}

/// Writes to a file: the `len` bytes at address `buf` of the current task.
/// The result is the number of bytes and the bytes themselves, for the
/// caller to print. It is -1 and no bytes where `fd` is not the standard
/// output, where the bytes cannot be reached in the address space of the
/// task, or where their number does not fit the result.
pub fn sys_write(manager: &TaskManager, mem: &PhysMemory, fd: u64, buf: u64, len: u64) -> (r: (
    isize,
    Vec<u8>,
))
    requires
        manager.tasks().len() > 0,
        mem.wf(),
        manager.tasks().last().space().table().well_formed(mem@),
    ensures
        ({
            let root = manager.tasks().last().space().table().root();
            let ok = fd == FD_STDOUT && len <= isize::MAX && user_range_ok(mem@, root, buf, len);
            &&& ok ==> r.0 == len && r.1@.len() == len && forall|i: int|
                0 <= i < len ==> #[trigger] r.1@[i] == user_byte(mem@, root, buf + i)
            &&& !ok ==> r.0 == -1 && r.1@.len() == 0
        }),
{
    if fd != FD_STDOUT || len > isize::MAX as u64 {
        return (-1, Vec::new());
    }
    proof {
        manager.tasks().last().space().table().lemma_wf_readable(mem@);
    }
    let token = manager.get_current_token();
    match read_user_bytes(mem, token, buf, len) {
        Some(bytes) => (len as isize, bytes),
        None => (-1, Vec::new()),
    }
}

/// The current task exits with `exit_code`: it leaves the queue for good
/// and the next task is chosen. The result says what has to be done to the
/// machine; it is to halt where no task is left.
pub fn sys_exit(manager: &mut TaskManager, allocator: &mut StackFrameAllocator, exit_code: i32) -> (r:
    SwitchAction)
    requires
        old(allocator).wf(),
        exists|m: MemoryMap| old(manager).wf(m, old(allocator)@),
    ensures
        final(allocator).wf(),
        final(manager).tasks() == after_switch(old(manager).tasks(), true),
        r == action_of(old(manager).tasks(), true),
        r != SwitchAction::Halt ==> one_runs(final(manager).tasks()),
        r == SwitchAction::Halt ==> final(manager).tasks().len() == 0,
        forall|m: MemoryMap|
            old(manager).wf(m, old(allocator)@) ==> #[trigger] final(manager).wf(
                m,
                final(allocator)@,
            ),
{
    manager.exit_current(allocator)
}

/// The current task yields: the next task is chosen. The result is 0, for
/// the task that yielded, and what has to be done to the machine.
pub fn sys_yield(manager: &mut TaskManager, allocator: &mut StackFrameAllocator) -> (r: (
    isize,
    SwitchAction,
))
    requires
        old(allocator).wf(),
        exists|m: MemoryMap| old(manager).wf(m, old(allocator)@),
    ensures
        r.0 == 0,
        final(allocator)@ == old(allocator)@,
        final(manager).tasks() == after_switch(old(manager).tasks(), false),
        r.1 == action_of(old(manager).tasks(), false),
        old(manager).tasks().len() > 0 ==> one_runs(final(manager).tasks()),
        forall|m: MemoryMap|
            old(manager).wf(m, old(allocator)@) ==> #[trigger] final(manager).wf(
                m,
                final(allocator)@,
            ),
{
    let action = manager.yield_current(allocator);
    (0, action)
}

/// Gets the time: the time of `time_us` microseconds is written as a record
/// of seconds and microseconds to address `ts` of the current task. The
/// result is 0; it is -1, and nothing is written, where the record cannot be
/// reached in the address space of the task.
pub fn sys_get_time(manager: &TaskManager, mem: &mut PhysMemory, ts: u64, tz: u64, time_us: u64) -> (r:
    isize)
    requires
        manager.tasks().len() > 0,
        old(mem).wf(),
        manager.tasks().last().space().table().well_formed(old(mem)@),
    ensures
        final(mem).wf(),
        final(mem).spec_base() == old(mem).spec_base(),
        final(mem).spec_end() == old(mem).spec_end(),
        final(mem)@.dom() == old(mem)@.dom(),
        ({
            let root = manager.tasks().last().space().table().root();
            let ok = user_range_ok(old(mem)@, root, ts, 16);
            &&& r == if ok {
                0isize
            } else {
                -1isize
            }
            &&& !ok ==> final(mem)@ == old(mem)@
            &&& ok ==> forall|i: int|
                0 <= i < 16 ==> #[trigger] page_byte(
                    final(mem)@[user_page(old(mem)@, root, ts + i)],
                    (ts + i) % 4096,
                ) == TimeVal::spec_from_us(time_us).byte(i)
            &&& forall|p: int|
                old(mem)@.dom().contains(p) && (forall|i: int|
                    0 <= i < 16 ==> p != #[trigger] user_page(old(mem)@, root, ts + i))
                    ==> #[trigger] final(mem)@[p] == old(mem)@[p]
        }),
{
    proof {
        manager.tasks().last().space().table().lemma_wf_readable(mem@);
    }
    let token = manager.get_current_token();
    let record = TimeVal::from_us(time_us).to_bytes();
    if write_user_bytes(mem, token, ts, record.as_slice()) {
        0
    } else {
        -1
    }
}

/// Maps `len` bytes of fresh memory from address `start` on for the current
/// task, with the permissions that the port bits ask for: bit 0 to read,
/// bit 1 to write, bit 2 to execute. The result is -1, and nothing has
/// changed, where the arguments are not acceptable or a page of the range
/// is mapped already; else it is 0.
pub fn sys_mmap(
    manager: &mut TaskManager,
    allocator: &mut StackFrameAllocator,
    mem: &mut PhysMemory,
    start: u64,
    len: u64,
    port: u64,
) -> (r: isize)
    requires
        old(allocator).wf(),
        old(mem).wf(),
        backed(old(allocator)@, old(mem)@),
        old(manager).wf(old(mem)@, old(allocator)@),
        old(manager).tasks().len() > 0,
        mmap_args_ok(start, len, port) ==> old(allocator)@.free_count() >= frames_bound(
            first_page(start),
            end_page(start, len),
            true,
        ),
    ensures
        final(allocator).wf(),
        final(mem).wf(),
        backed(final(allocator)@, final(mem)@),
        final(manager).wf(final(mem)@, final(allocator)@),
        final(manager).tasks().len() == old(manager).tasks().len(),
        r == 0 || r == -1,
        r == -1 <==> !mmap_args_ok(start, len, port) || exists|v: int|
            first_page(start) <= v < end_page(start, len) && #[trigger] old(
                manager,
            ).tasks().last().space().mappings(old(mem)@).dom().contains(v),
        r == -1 ==> {
            &&& final(manager).tasks() == old(manager).tasks()
            &&& final(mem)@ == old(mem)@
            &&& final(allocator)@ == old(allocator)@
        },
        r == 0 ==> {
            let before = old(manager).tasks().last().space();
            let after = final(manager).tasks().last().space();
            &&& after.regions().drop_last() == before.regions()
            &&& after.regions().last() == (AreaView {
                start: first_page(start),
                end: end_page(start, len),
                map_type: MapType::Framed,
                perm: port_permission(port),
                frames: after.regions().last().frames,
            })
            &&& after.mappings(final(mem)@) == before.mappings(old(mem)@).union_prefer_right(
                after.regions().last().as_map(),
            )
        },
{
    manager.mmap(allocator, mem, start, len, port)
}

/// Ends the mapping of the `len` bytes from address `start` on for the
/// current task. The result is -1, and nothing has changed, where the range
/// does not lie in the address space or a page of it is not mapped; else it
/// is 0.
pub fn sys_munmap(
    manager: &mut TaskManager,
    allocator: &mut StackFrameAllocator,
    mem: &mut PhysMemory,
    start: u64,
    len: u64,
) -> (r: isize)
    requires
        old(allocator).wf(),
        old(mem).wf(),
        backed(old(allocator)@, old(mem)@),
        old(manager).wf(old(mem)@, old(allocator)@),
        old(manager).tasks().len() > 0,
    ensures
        final(allocator).wf(),
        final(mem).wf(),
        backed(final(allocator)@, final(mem)@),
        final(manager).wf(final(mem)@, final(allocator)@),
        final(manager).tasks().len() == old(manager).tasks().len(),
        r == 0 || r == -1,
        r == -1 <==> start + len > VA_LIMIT || exists|v: int|
            first_page(start) <= v < end_page(start, len) && !(#[trigger] old(
                manager,
            ).tasks().last().space().mappings(old(mem)@).dom().contains(v)),
        r == -1 ==> {
            &&& final(manager).tasks() == old(manager).tasks()
            &&& final(mem)@ == old(mem)@
            &&& final(allocator)@ == old(allocator)@
        },
        r == 0 ==> final(manager).tasks().last().space().mappings(final(mem)@) == old(
            manager,
        ).tasks().last().space().mappings(old(mem)@).remove_keys(
            page_range(first_page(start), end_page(start, len)),
        ),
{
    if manager.munmap(allocator, mem, start, len) >= 0 {
        0
    } else {
        -1
    }
}

/// Sets the priority of the task that runs. The result is `value`; it is
/// -1, and nothing has changed, where `value` is below 2 or no task runs.
pub fn sys_set_priority<const N: usize>(scheduler: &mut StrideScheduler<N>, value: isize) -> (r:
    isize)
    requires
        old(scheduler).wf(),
    ensures
        final(scheduler).wf(),
        final(scheduler).ready() == old(scheduler).ready(),
        value >= 2 && old(scheduler).current() is Some ==> r == value && final(scheduler).current() == Some(
            StrideTask { priority: value as u64, ..old(scheduler).current().unwrap() },
        ),
        value < 2 || old(scheduler).current() is None ==> r == -1 && final(scheduler).current()
            == old(scheduler).current(),
{
    scheduler.set_priority(value)
}

} // verus!
