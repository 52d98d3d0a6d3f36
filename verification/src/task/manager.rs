//! The task manager: the queue of the tasks that can run, the task that
//! runs at its back, and the round-robin choice of the next task.

use super::context::TaskContext;
use super::task::TaskControlBlock;
use crate::mm::address::{VirtAddr, PPN_LIMIT, VA_LIMIT};
use crate::mm::area::{frames_bound, AreaView, MapPermission, MapType, MAP_R, MAP_U, MAP_W, MAP_X};
use crate::mm::frame_allocator::{backed, FrameAllocState, StackFrameAllocator};
use crate::mm::memory::{MemoryMap, PhysMemory};
use crate::mm::memory_set::page_range;
use crate::trap::context::TrapContext;
use std::collections::VecDeque;
use vstd::prelude::*;

verus! {

/// What has to be done to the machine after the next task was chosen. The
/// numbers are places in the queue as it is after the choice.
#[derive(Clone, Copy, Debug, PartialEq, Eq, Structural)]
pub enum SwitchAction {
    /// There is no context to save: restore the context of the task at
    /// `next`.
    Init { next: usize },
    /// Save the context of the machine into the task at `current`, then
    /// restore the context of the task at `next`.
    Switch { current: usize, next: usize },
    /// No task is left to run.
    Halt,
}

/// The queue after the task at its back has stopped, where it was running:
/// taken out where it has exited, marked as not running otherwise.
pub open spec fn after_stop(q: Seq<TaskControlBlock>, exited: bool) -> Seq<TaskControlBlock> {
    if q.len() == 0 {
        q
    } else if q.last().is_running() {
        if exited {
            q.drop_last()
        } else {
            q.update(q.len() - 1, q.last().marked(false))
        }
    } else {
        q
    }
}

/// The queue after the task at the front of `q` has been taken to the back
/// to run.
pub open spec fn after_pick(q: Seq<TaskControlBlock>) -> Seq<TaskControlBlock> {
    if q.len() == 0 {
        q
    } else {
        q.drop_first().push(q.first().marked(true))
    }
}

/// The queue after the next task was chosen: the task at the back stops,
/// then the task at the front goes to the back and runs.
pub open spec fn after_switch(q: Seq<TaskControlBlock>, exited: bool) -> Seq<TaskControlBlock> {
    after_pick(after_stop(q, exited))
}

/// What has to be done to the machine when the next task is chosen from
/// `q`.
pub open spec fn action_of(q: Seq<TaskControlBlock>, exited: bool) -> SwitchAction {
    let rest = after_stop(q, exited);
    if rest.len() == 0 {
        SwitchAction::Halt
    } else if q.last().is_running() && !exited {
        SwitchAction::Switch {
            current: if rest.len() >= 2 {
                (rest.len() - 2) as usize
            } else {
                0
            },
            next: (rest.len() - 1) as usize,
        }
    } else {
        SwitchAction::Init { next: (rest.len() - 1) as usize }
    }
}

/// No task but the one at the back is marked as running.
pub open spec fn only_back_runs(q: Seq<TaskControlBlock>) -> bool {
    forall|i: int| 0 <= i < q.len() - 1 ==> !(#[trigger] q[i]).is_running()
}

/// Exactly one task is marked as running: the one at the back.
pub open spec fn one_runs(q: Seq<TaskControlBlock>) -> bool {
    &&& q.len() > 0
    &&& q.last().is_running()
    &&& only_back_runs(q)
}

/// After the choice of the next task exactly one task runs, unless no task
/// is left: whether the task at the back yielded, exited or had not run
/// yet.
pub proof fn lemma_one_runs_after_switch(q: Seq<TaskControlBlock>, exited: bool)
    requires
        only_back_runs(q),
    ensures
        action_of(q, exited) != SwitchAction::Halt ==> one_runs(after_switch(q, exited)),
        action_of(q, exited) == SwitchAction::Halt ==> after_switch(q, exited).len() == 0,
{
    broadcast use TaskControlBlock::lemma_marked;

    let rest = after_stop(q, exited);
    assert forall|i: int| 0 <= i < rest.len() implies !(#[trigger] rest[i]).is_running() by {
        if i < q.len() - 1 {
            assert(!q[i].is_running());
        }
    }
    if rest.len() > 0 {
        let r = after_pick(rest);
        assert forall|i: int| 0 <= i < r.len() - 1 implies !(#[trigger] r[i]).is_running() by {
            assert(r[i] == rest[i + 1]);
        }
    }
}

/// The numbers of the applications of the tasks of `q`, in the order of the
/// queue.
pub open spec fn ids(q: Seq<TaskControlBlock>) -> Seq<int> {
    q.map_values(|t: TaskControlBlock| t.id())
}

/// The queue after `k` choices of the next task, none of them after an
/// exit.
pub open spec fn after_yields(q: Seq<TaskControlBlock>, k: nat) -> Seq<TaskControlBlock>
    decreases k,
{
    if k == 0 {
        q
    } else {
        after_switch(after_yields(q, (k - 1) as nat), false)
    }
}

/// Round robin: from a queue in which no task runs yet, the `k`-th choice
/// of the next task makes the task run that stood at place `(k - 1) mod n`
/// of the queue of `n` tasks, so that the tasks run in the order of the
/// queue, again and again.
#[verifier::rlimit(50)]
pub proof fn lemma_round_robin(q: Seq<TaskControlBlock>, k: nat)
    requires
        q.len() > 0,
        k >= 1,
        forall|i: int| 0 <= i < q.len() ==> !(#[trigger] q[i]).is_running(),
    ensures
        one_runs(after_yields(q, k)),
        after_yields(q, k).len() == q.len(),
        after_yields(q, k).last().id() == q[(k - 1) % (q.len() as int)].id(),
        forall|i: int|
            0 <= i < q.len() ==> (#[trigger] ids(after_yields(q, k))[i]) == ids(q)[(i + k) % (
            q.len() as int)],
    decreases k,
{
    broadcast use TaskControlBlock::lemma_marked;

    let n = q.len() as int;
    if k == 1 {
        let r = after_yields(q, 1);
        assert(after_yields(q, 0) == q);
        assert(after_stop(q, false) == q);
        assert(r == after_pick(q));
        assert forall|i: int| 0 <= i < n implies (#[trigger] ids(r)[i]) == ids(q)[(i + 1) % n] by {
            lemma_mod_small(i + 1, n);
            if i < n - 1 {
                assert(r[i] == q[i + 1]);
            }
        }
        assert forall|i: int| 0 <= i < r.len() - 1 implies !(#[trigger] r[i]).is_running() by {
            assert(r[i] == q[i + 1]);
        }
        lemma_mod_small(0, n);
    } else {
        let p = after_yields(q, (k - 1) as nat);
        lemma_round_robin(q, (k - 1) as nat);
        let rest = after_stop(p, false);
        let r = after_yields(q, k);
        assert(r == after_pick(rest));
        assert(rest == p.update(n - 1, p.last().marked(false)));
        assert forall|i: int| 0 <= i < n implies (#[trigger] ids(r)[i]) == ids(q)[(i + k) % n] by {
            if i < n - 1 {
                assert(r[i] == rest[i + 1]);
                assert(ids(p)[i + 1] == ids(q)[(i + 1 + (k - 1)) % n]);
            } else {
                assert(r[i] == rest[0].marked(true));
                assert(ids(p)[0] == ids(q)[(0 + (k - 1)) % n]);
                lemma_mod_wrap(k - 1, n);
            }
        }
        assert forall|i: int| 0 <= i < r.len() - 1 implies !(#[trigger] r[i]).is_running() by {
            assert(r[i] == rest[i + 1]);
            if i + 1 < n - 1 {
                assert(!p[i + 1].is_running());
            }
        }
        assert(ids(r)[n - 1] == ids(q)[(n - 1 + k) % n]);
        lemma_mod_wrap(k - 1, n);
    }
}

/// A number below the modulus is its own remainder, and the modulus has
/// remainder zero.
proof fn lemma_mod_small(x: int, n: int)
    requires
        0 <= x <= n,
        n > 0,
    ensures
        x < n ==> x % n == x,
        x == n ==> x % n == 0,
{
    if x < n {
        vstd::arithmetic::div_mod::lemma_small_mod(x as nat, n as nat);
    } else {
        vstd::arithmetic::div_mod::lemma_mod_self_0(n);
    }
}

/// Adding the modulus changes no remainder.
proof fn lemma_mod_wrap(x: int, n: int)
    requires
        x >= 0,
        n > 0,
    ensures
        (x + n) % n == x % n,
{
    assert((x + n) % n == x % n) by (nonlinear_arith)
        requires
            x >= 0,
            n > 0,
    ;
}

/// The permission that the system call to map memory gives for the port
/// bits `port`: access in user mode, to read where bit 0 is set, to write
/// where bit 1 is set and to execute where bit 2 is set.
pub open spec fn port_permission(port: u64) -> MapPermission {
    MapPermission { bits: (MAP_U + 2 * port) as u8 }
}

/// The task manager.
pub struct TaskManager {
    tasks: VecDeque<TaskControlBlock>,
}

/// The place of item `i` of the queue, to change the item in.
///
/// Calls `VecDeque::get_mut` of std, which gives the item at the index
/// where the index is below the length; until the reference is given up
/// the queue is the old one with that item replaced by what the reference
/// holds.
#[verifier::external_body]
fn deque_item_mut<T>(q: &mut VecDeque<T>, i: usize) -> (r: &mut T)
    requires
        i < old(q)@.len(),
    ensures
        *r == old(q)@[i as int],
        final(q)@ == old(q)@.update(i as int, *final(r)),
{
    q.get_mut(i).unwrap()
}

impl TaskManager {
    /// The tasks in the order of the queue; the task that runs, if any, is
    /// the last.
    pub closed spec fn tasks(&self) -> Seq<TaskControlBlock> {
        self.tasks@
    }

    /// Every task is well formed, no two tasks own a physical page in
    /// common, and no task but the one at the back is marked as running.
    pub open spec fn wf(&self, m: MemoryMap, a: FrameAllocState) -> bool {
        &&& forall|i: int| 0 <= i < self.tasks().len() ==> (#[trigger] self.tasks()[i]).wf(m, a)
        &&& tasks_apart(self.tasks())
        &&& only_back_runs(self.tasks())
    }

    /// A manager without tasks.
    pub fn new() -> (r: Self)
        ensures
            r.tasks() == Seq::<TaskControlBlock>::empty(),
    {
        TaskManager { tasks: VecDeque::new() }
    }

    /// The number of tasks.
    pub fn len(&self) -> (n: usize)
        ensures
            n == self.tasks().len(),
    {
        self.tasks.len()
    }

    /// Adds a task at the back of the queue, before any task has run: the
    /// tasks run first in the order in which they were added.
    pub fn add(&mut self, task: TaskControlBlock)
        requires
            !task.is_running(),
            forall|i: int|
                0 <= i < old(self).tasks().len() ==> !(#[trigger] old(self).tasks()[i]).is_running(),
        ensures
            final(self).tasks() == old(self).tasks().push(task),
            forall|i: int|
                0 <= i < final(self).tasks().len() ==> !(#[trigger] final(self).tasks()[i]).is_running(),
    {
        self.tasks.push_back(task);
        proof {
            assert forall|i: int| 0 <= i < self.tasks().len() implies !(
            #[trigger] self.tasks()[i]).is_running() by {
                if i < old(self).tasks().len() {
                    assert(self.tasks()[i] == old(self).tasks()[i]);
                }
            }
        }
    }

    /// The task at place `i` of the queue.
    pub fn task(&self, i: usize) -> (r: &TaskControlBlock)
        requires
            i < self.tasks().len(),
        ensures
            *r == self.tasks()[i as int],
    {
        &self.tasks[i]
    }

    /// The place of the saved context of the task at place `i`, for a
    /// switch to save into.
    pub fn context_ptr_mut(&mut self, i: usize) -> (r: &mut TaskContext)
        requires
            i < old(self).tasks().len(),
        ensures
            *r == old(self).tasks()[i as int].spec_context(),
            final(self).tasks().len() == old(self).tasks().len(),
            forall|j: int|
                0 <= j < old(self).tasks().len() && j != i ==> final(self).tasks()[j] == old(
                    self,
                ).tasks()[j],
            final(self).tasks()[i as int].spec_context() == *final(r),
            final(self).tasks()[i as int].is_running() == old(self).tasks()[i as int].is_running(),
            final(self).tasks()[i as int].space() == old(self).tasks()[i as int].space(),
            final(self).tasks()[i as int].trap_page() == old(self).tasks()[i as int].trap_page(),
            final(self).tasks()[i as int].id() == old(self).tasks()[i as int].id(),
    {
        deque_item_mut(&mut self.tasks, i).context_ptr_mut()
    }
}

/// The arguments of the system call to map memory are acceptable: the
/// start is the first address of a page, at least one and no other than
/// the three port bits are set, and the range lies in the address space.
pub open spec fn mmap_args_ok(start: u64, len: u64, port: u64) -> bool {
    &&& start % 4096 == 0
    &&& 1 <= port <= 7
    &&& start + len <= VA_LIMIT
}

/// The first page that the range from `start` touches.
pub open spec fn first_page(start: u64) -> int {
    start as int / 4096
}

/// One more than the last page that the `len` bytes from `start` touch.
pub open spec fn end_page(start: u64, len: u64) -> int {
    (start + len + 4095) / 4096
}

impl TaskManager {
    /// The token of the address space of the current task, the task at the
    /// back of the queue.
    pub fn get_current_token(&self) -> (t: u64)
        requires
            self.tasks().len() > 0,
            0 <= self.tasks().last().space().table().root() < PPN_LIMIT,
        ensures
            t == crate::mm::pte::SATP_MODE + self.tasks().last().space().table().root(),
    {
        self.tasks[self.tasks.len() - 1].user_token()
    }

    /// The trap context of the current task.
    pub fn get_current_trap_cx(&self, mem: &PhysMemory) -> (cx: TrapContext)
        requires
            self.tasks().len() > 0,
            mem.wf(),
            mem@.dom().contains(self.tasks().last().trap_page()),
        ensures
            cx.words() == self.tasks().last().trap_words(mem@),
    {
        self.tasks[self.tasks.len() - 1].trap_context(mem)
    }

    /// Writes `cx` to the page of the trap context of the current task.
    pub fn set_current_trap_cx(&self, mem: &mut PhysMemory, cx: &TrapContext)
        requires
            self.tasks().len() > 0,
            old(mem).wf(),
            old(mem)@.dom().contains(self.tasks().last().trap_page()),
        ensures
            final(mem).wf(),
            final(mem).spec_base() == old(mem).spec_base(),
            final(mem).spec_end() == old(mem).spec_end(),
            final(mem)@.dom() == old(mem)@.dom(),
            forall|p: int|
                p != self.tasks().last().trap_page() && old(mem)@.dom().contains(p)
                    ==> #[trigger] final(mem)@[p] == old(mem)@[p],
            self.tasks().last().trap_words(final(mem)@) == cx.words(),
    {
        self.tasks[self.tasks.len() - 1].set_trap_context(mem, cx);
    }

    /// Maps `len` bytes of fresh memory from address `start` on for the
    /// current task, with the permissions that the port bits ask for. The
    /// result is -1, and nothing has changed, where the arguments are not
    /// acceptable or a page of the range is mapped already; else it is 0.
    #[verifier::rlimit(50)]
    pub fn mmap(
        &mut self,
        allocator: &mut StackFrameAllocator,
        mem: &mut PhysMemory,
        start: u64,
        len: u64,
        port: u64,
    ) -> (r: isize)
        requires
            old(allocator).wf(),
            old(mem).wf(),
            backed(old(allocator)@, old(mem)@),
            old(self).wf(old(mem)@, old(allocator)@),
            old(self).tasks().len() > 0,
            mmap_args_ok(start, len, port) ==> old(allocator)@.free_count() >= frames_bound(
                first_page(start),
                end_page(start, len),
                true,
            ),
        ensures
            final(allocator).wf(),
            final(mem).wf(),
            backed(final(allocator)@, final(mem)@),
            final(self).wf(final(mem)@, final(allocator)@),
            final(self).tasks().len() == old(self).tasks().len(),
            forall|j: int|
                0 <= j < old(self).tasks().len() - 1 ==> final(self).tasks()[j] == old(
                    self,
                ).tasks()[j],
            final(self).tasks().last().is_running() == old(self).tasks().last().is_running(),
            final(self).tasks().last().id() == old(self).tasks().last().id(),
            final(self).tasks().last().spec_context() == old(self).tasks().last().spec_context(),
            final(self).tasks().last().trap_page() == old(self).tasks().last().trap_page(),
            r == 0 || r == -1,
            r == -1 <==> !mmap_args_ok(start, len, port) || exists|v: int|
                first_page(start) <= v < end_page(start, len) && #[trigger] old(
                    self,
                ).tasks().last().space().mappings(old(mem)@).dom().contains(v),
            r == -1 ==> {
                &&& final(self).tasks() == old(self).tasks()
                &&& final(mem)@ == old(mem)@
                &&& final(allocator)@ == old(allocator)@
            },
            r == 0 ==> {
                let before = old(self).tasks().last().space();
                let after = final(self).tasks().last().space();
                &&& after.regions().len() == before.regions().len() + 1
                &&& after.regions().drop_last() == before.regions()
                &&& after.regions().last() == (AreaView {
                    start: first_page(start),
                    end: end_page(start, len),
                    map_type: MapType::Framed,
                    perm: port_permission(port),
                    frames: after.regions().last().frames,
                })
                &&& after.mappings(final(mem)@) == before.mappings(old(mem)@).union_prefer_right(
                    after.regions().last().as_map(),
                )
            },
            old(self).tasks().last().has_trap_page(old(mem)@)
                ==> final(self).tasks().last().has_trap_page(final(mem)@),
            forall|p: int|
                old(allocator)@.is_allocated(p) ==> #[trigger] final(allocator)@.is_allocated(p),
            forall|p: int|
                old(mem)@.dom().contains(p) && (old(allocator)@.is_allocated(p) || p < old(
                    allocator,
                )@.start || p >= old(allocator)@.end) && !old(
                    self,
                ).tasks().last().space().table().owned().contains(p) ==> #[trigger] final(mem)@[p]
                    == old(mem)@[p],
    {
        if start % 4096 != 0 || port > 7 || port == 0 {
            return -1;
        }
        if len > VA_LIMIT || start > VA_LIMIT - len {
            return -1;
        }
        let mut bits: u8 = MAP_U;
        if port % 2 == 1 {
            bits = bits + MAP_R;
        }
        if (port / 2) % 2 == 1 {
            bits = bits + MAP_W;
        }
        if (port / 4) % 2 == 1 {
            bits = bits + MAP_X;
        }
        let permission = MapPermission::from_bits(bits);
        assert(permission == port_permission(port));
        let ghost q0 = self.tasks();
        let ghost a0 = allocator@;
        let ghost m0 = mem@;
        let ghost n = q0.len() as int;
        let mut current = self.tasks.pop_back().unwrap();
        let ghost cur0 = current;
        proof {
            assert(cur0 == q0[n - 1]);
            assert(cur0.wf(m0, a0));
        }
        let r = current.mmap(allocator, mem, VirtAddr(start), VirtAddr(start + len), permission);
        self.tasks.push_back(current);
        proof {
            let q1 = self.tasks();
            assert(q1 =~= q0.drop_last().push(current));
            if r == -1 {
                assert(current.space().regions() == cur0.space().regions());
            }
            assert forall|p: int| #[trigger]
                a0.is_allocated(p) && !q0.last().owned().contains(p) implies allocator@.is_allocated(
                p,
            ) && mem@[p] == m0[p] by {
                allocator.lemma_wf();
                assert(m0.dom().contains(p));
                assert(!cur0.space().table().owned().contains(p));
            }
            lemma_others_kept(q0, q1, m0, a0, mem@, allocator@);
        }
        if r == -1 {
            proof {
                assert(self.tasks() =~= q0) by {
                    TaskControlBlock::lemma_same(cur0, current);
                }
            }
        }
        r
    }
}

impl TaskManager {
    /// Ends the mapping of the `len` bytes from address `start` on for the
    /// current task and gives the physical pages back. The result is -1,
    /// and nothing has changed, where the range does not lie in the address
    /// space or a page of it is not mapped; else it is 0.
    #[verifier::rlimit(50)]
    pub fn munmap(
        &mut self,
        allocator: &mut StackFrameAllocator,
        mem: &mut PhysMemory,
        start: u64,
        len: u64,
    ) -> (r: isize)
        requires
            old(allocator).wf(),
            old(mem).wf(),
            backed(old(allocator)@, old(mem)@),
            old(self).wf(old(mem)@, old(allocator)@),
            old(self).tasks().len() > 0,
        ensures
            final(allocator).wf(),
            final(mem).wf(),
            backed(final(allocator)@, final(mem)@),
            final(self).wf(final(mem)@, final(allocator)@),
            final(self).tasks().len() == old(self).tasks().len(),
            forall|j: int|
                0 <= j < old(self).tasks().len() - 1 ==> final(self).tasks()[j] == old(
                    self,
                ).tasks()[j],
            final(self).tasks().last().is_running() == old(self).tasks().last().is_running(),
            final(self).tasks().last().id() == old(self).tasks().last().id(),
            final(self).tasks().last().spec_context() == old(self).tasks().last().spec_context(),
            final(self).tasks().last().trap_page() == old(self).tasks().last().trap_page(),
            r == 0 || r == -1,
            r == -1 <==> start + len > VA_LIMIT || exists|v: int|
                first_page(start) <= v < end_page(start, len) && !(#[trigger] old(
                    self,
                ).tasks().last().space().mappings(old(mem)@).dom().contains(v)),
            r == -1 ==> {
                &&& final(self).tasks() == old(self).tasks()
                &&& final(mem)@ == old(mem)@
                &&& final(allocator)@ == old(allocator)@
            },
            r == 0 ==> final(self).tasks().last().space().mappings(final(mem)@) == old(
                self,
            ).tasks().last().space().mappings(old(mem)@).remove_keys(
                page_range(first_page(start), end_page(start, len)),
            ),
            forall|p: int|
                #[trigger] final(allocator)@.is_allocated(p) ==> old(allocator)@.is_allocated(p),
            forall|p: int|
                old(mem)@.dom().contains(p) && (old(allocator)@.is_allocated(p) || p < old(
                    allocator,
                )@.start || p >= old(allocator)@.end) && !old(self).tasks().last().owned().contains(
                    p,
                ) ==> #[trigger] final(mem)@[p] == old(mem)@[p],
    {
        if len > VA_LIMIT || start > VA_LIMIT - len {
            return -1;
        }
        let ghost q0 = self.tasks();
        let ghost a0 = allocator@;
        let ghost m0 = mem@;
        let ghost n = q0.len() as int;
        let mut current = self.tasks.pop_back().unwrap();
        let ghost cur0 = current;
        proof {
            assert(cur0 == q0[n - 1]);
            assert(cur0.wf(m0, a0));
            allocator.lemma_wf();
        }
        let r = current.munmap(allocator, mem, VirtAddr(start), VirtAddr(start + len));
        self.tasks.push_back(current);
        proof {
            let q1 = self.tasks();
            assert(q1 =~= q0.drop_last().push(current));
            assert forall|p: int| #[trigger]
                a0.is_allocated(p) && !q0.last().owned().contains(p) implies allocator@.is_allocated(
                p,
            ) && mem@[p] == m0[p] by {
                assert(m0.dom().contains(p));
            }
            lemma_others_kept(q0, q1, m0, a0, mem@, allocator@);
            assert(backed(allocator@, mem@));
        }
        if r == -1 {
            proof {
                assert(self.tasks() =~= q0) by {
                    TaskControlBlock::lemma_same(cur0, current);
                }
            }
        }
        r
    }

    /// Chooses the next task to run. The task at the back, where it was
    /// running, stops: it is marked as not running, or, where
    /// `current_exited` says that it has exited, it leaves the queue for
    /// good and its physical pages go back to the allocator. Then the task
    /// at the front goes to the back and is marked as running. The result
    /// says what has to be done to the machine.
    #[verifier::rlimit(50)]
    pub fn run_next_task(&mut self, allocator: &mut StackFrameAllocator, current_exited: bool) -> (r:
        SwitchAction)
        requires
            old(allocator).wf(),
            exists|m: MemoryMap| old(self).wf(m, old(allocator)@),
        ensures
            final(allocator).wf(),
            final(self).tasks() == after_switch(old(self).tasks(), current_exited),
            r == action_of(old(self).tasks(), current_exited),
            r != SwitchAction::Halt ==> one_runs(final(self).tasks()),
            r == SwitchAction::Halt ==> final(self).tasks().len() == 0,
            forall|m: MemoryMap|
                old(self).wf(m, old(allocator)@) ==> #[trigger] final(self).wf(
                    m,
                    final(allocator)@,
                ),
            final(allocator)@.start == old(allocator)@.start,
            final(allocator)@.end == old(allocator)@.end,
            old(self).tasks().len() > 0 && old(self).tasks().last().is_running()
                && current_exited ==> forall|p: int|
                #[trigger] final(allocator)@.is_allocated(p) == (old(allocator)@.is_allocated(p)
                    && !old(self).tasks().last().owned().contains(p)),
            !(old(self).tasks().len() > 0 && old(self).tasks().last().is_running()
                && current_exited) ==> final(allocator)@ == old(allocator)@,
    {
        broadcast use TaskControlBlock::lemma_marked;

        let ghost q0 = self.tasks();
        let ghost a0 = allocator@;
        let mut save = false;
        proof {
            let m = choose|m: MemoryMap| self.wf(m, a0);
            lemma_one_runs_after_switch(q0, current_exited);
            if q0.len() > 0 {
                assert(q0.last().wf(m, a0));
            }
        }
        match self.tasks.pop_back() {
            None => {
                return SwitchAction::Halt;
            },
            Some(current) => {
                let mut current = current;
                if current.running() {
                    if current_exited {
                        current.release(allocator);
                    } else {
                        current.set_running(false);
                        self.tasks.push_back(current);
                        save = true;
                    }
                } else {
                    self.tasks.push_back(current);
                }
            },
        }
        let ghost rest = self.tasks();
        proof {
            assert(rest =~= after_stop(q0, current_exited));
        }
        let r = match self.tasks.pop_front() {
            None => SwitchAction::Halt,
            Some(next) => {
                let mut next = next;
                next.set_running(true);
                self.tasks.push_back(next);
                let n: usize = self.tasks.len();
                if save {
                    SwitchAction::Switch {
                        current: if n >= 2 {
                            n - 2
                        } else {
                            0
                        },
                        next: n - 1,
                    }
                } else {
                    SwitchAction::Init { next: n - 1 }
                }
            },
        };
        proof {
            let q1 = self.tasks();
            assert(q1 =~= after_pick(rest));
            assert forall|m: MemoryMap| old(self).wf(m, a0) implies #[trigger] self.wf(
                m,
                allocator@,
            ) by {
                lemma_switch_keeps(q0, current_exited, m, a0, allocator@);
            }
        }
        r
    }

    /// Starts the first task: the task at the front of a queue in which no
    /// task runs yet.
    pub fn run_first(&mut self, allocator: &mut StackFrameAllocator) -> (r: SwitchAction)
        requires
            old(allocator).wf(),
            exists|m: MemoryMap| old(self).wf(m, old(allocator)@),
            forall|i: int|
                0 <= i < old(self).tasks().len() ==> !(#[trigger] old(self).tasks()[i]).is_running(),
        ensures
            final(allocator)@ == old(allocator)@,
            final(self).tasks() == after_pick(old(self).tasks()),
            old(self).tasks().len() > 0 ==> r == (SwitchAction::Init {
                next: (old(self).tasks().len() - 1) as usize,
            }) && one_runs(final(self).tasks()) && final(self).tasks().last().id() == old(
                self,
            ).tasks()[0].id(),
            old(self).tasks().len() == 0 ==> r == SwitchAction::Halt,
            forall|m: MemoryMap|
                old(self).wf(m, old(allocator)@) ==> #[trigger] final(self).wf(
                    m,
                    final(allocator)@,
                ),
    {
        broadcast use TaskControlBlock::lemma_marked;

        self.run_next_task(allocator, false)
    }

    /// The current task yields: it stays in the queue, and the task at the
    /// front runs next.
    pub fn yield_current(&mut self, allocator: &mut StackFrameAllocator) -> (r: SwitchAction)
        requires
            old(allocator).wf(),
            exists|m: MemoryMap| old(self).wf(m, old(allocator)@),
        ensures
            final(allocator)@ == old(allocator)@,
            final(self).tasks() == after_switch(old(self).tasks(), false),
            r == action_of(old(self).tasks(), false),
            final(self).tasks().len() == old(self).tasks().len(),
            old(self).tasks().len() > 0 ==> one_runs(final(self).tasks()),
            forall|m: MemoryMap|
                old(self).wf(m, old(allocator)@) ==> #[trigger] final(self).wf(
                    m,
                    final(allocator)@,
                ),
    {
        self.run_next_task(allocator, false)
    }

    /// The current task exits: it leaves the queue for good, its physical
    /// pages go back to the allocator, and the task at the front runs next.
    /// Where no task is left the result is to halt.
    pub fn exit_current(&mut self, allocator: &mut StackFrameAllocator) -> (r: SwitchAction)
        requires
            old(allocator).wf(),
            exists|m: MemoryMap| old(self).wf(m, old(allocator)@),
        ensures
            final(allocator).wf(),
            final(self).tasks() == after_switch(old(self).tasks(), true),
            r == action_of(old(self).tasks(), true),
            r != SwitchAction::Halt ==> one_runs(final(self).tasks()),
            r == SwitchAction::Halt ==> final(self).tasks().len() == 0,
            old(self).tasks().len() > 0 && old(self).tasks().last().is_running() ==> final(self).tasks().len() == old(self).tasks().len() - 1,
            forall|m: MemoryMap|
                old(self).wf(m, old(allocator)@) ==> #[trigger] final(self).wf(
                    m,
                    final(allocator)@,
                ),
    {
        self.run_next_task(allocator, true)
    }
}

/// The choice of the next task keeps the tasks well formed and apart: the
/// tasks that stay keep their pages, and only the pages of a task that has
/// exited go back to the allocator.
#[verifier::rlimit(50)]
proof fn lemma_switch_keeps(
    q: Seq<TaskControlBlock>,
    exited: bool,
    m: MemoryMap,
    a0: FrameAllocState,
    a1: FrameAllocState,
)
    requires
        forall|i: int| 0 <= i < q.len() ==> (#[trigger] q[i]).wf(m, a0),
        tasks_apart(q),
        only_back_runs(q),
        q.len() > 0 && q.last().is_running() && exited ==> forall|p: int|
            #[trigger] a1.is_allocated(p) == (a0.is_allocated(p) && !q.last().owned().contains(p)),
        !(q.len() > 0 && q.last().is_running() && exited) ==> a1 == a0,
    ensures
        forall|i: int|
            0 <= i < after_switch(q, exited).len() ==> (#[trigger] after_switch(q, exited)[i]).wf(
                m,
                a1,
            ),
        tasks_apart(after_switch(q, exited)),
        only_back_runs(after_switch(q, exited)),
{
    broadcast use TaskControlBlock::lemma_marked;

    let rest = after_stop(q, exited);
    let r = after_switch(q, exited);
    let gone = q.len() > 0 && q.last().is_running() && exited;
    assert forall|i: int| 0 <= i < rest.len() implies (#[trigger] rest[i]).wf(m, a1)
        && rest[i].owned() == q[i].owned() && !rest[i].is_running() by {
        let t = q[i];
        assert(t.wf(m, a0));
        if i < q.len() - 1 {
            assert(!q[i].is_running());
        }
        if gone {
            t.space().lemma_owned_allocated(m, a0);
            assert forall|p: int| #[trigger] t.space().owned().contains(p) implies a1.is_allocated(
                p,
            ) && m.dom().contains(p) by {
                assert(q[i].owned().contains(p));
                assert(!q[q.len() - 1].owned().contains(p));
            }
            t.space().lemma_wf_frame(m, a0, m, a1);
        }
    }
    if rest.len() > 0 {
        assert forall|i: int| 0 <= i < r.len() implies (#[trigger] r[i]).wf(m, a1) && r[i].owned()
            == rest[(i + 1) % (rest.len() as int)].owned() by {
            lemma_mod_small(i + 1, rest.len() as int);
            if i < r.len() - 1 {
                assert(r[i] == rest[i + 1]);
            } else {
                assert(r[i] == rest[0].marked(true));
            }
        }
        assert forall|i: int, j: int, p: int|
            0 <= i < r.len() && 0 <= j < r.len() && i != j && #[trigger] r[i].owned().contains(
                p,
            ) implies !(#[trigger] r[j].owned().contains(p)) by {
            let n = rest.len() as int;
            lemma_mod_small(i + 1, n);
            lemma_mod_small(j + 1, n);
            let oi = (i + 1) % n;
            let oj = (j + 1) % n;
            assert(q[oi].owned().contains(p));
            if r[j].owned().contains(p) {
                assert(q[oj].owned().contains(p));
            }
        }
        assert forall|i: int| 0 <= i < r.len() - 1 implies !(#[trigger] r[i]).is_running() by {
            assert(r[i] == rest[i + 1]);
        }
    }
}

/// When the task at the back has changed memory and the allocator within
/// what is its own, taking no page that was owned, the other tasks are
/// well formed as before, and no two tasks share a page.
#[verifier::rlimit(50)]
proof fn lemma_others_kept(
    q0: Seq<TaskControlBlock>,
    q1: Seq<TaskControlBlock>,
    m0: MemoryMap,
    a0: FrameAllocState,
    m1: MemoryMap,
    a1: FrameAllocState,
)
    requires
        q0.len() > 0,
        q1.len() == q0.len(),
        forall|j: int| 0 <= j < q0.len() - 1 ==> q1[j] == q0[j],
        forall|i: int| 0 <= i < q0.len() ==> (#[trigger] q0[i]).wf(m0, a0),
        tasks_apart(q0),
        only_back_runs(q0),
        q1.last().wf(m1, a1),
        q1.last().is_running() == q0.last().is_running(),
        m1.dom() == m0.dom(),
        forall|p: int|
            q1.last().owned().contains(p) ==> q0.last().owned().contains(p) || !a0.is_allocated(p),
        forall|p: int|
            #[trigger] a0.is_allocated(p) && !q0.last().owned().contains(p) ==> a1.is_allocated(p)
                && m1[p] == m0[p],
    ensures
        forall|i: int| 0 <= i < q1.len() ==> (#[trigger] q1[i]).wf(m1, a1),
        tasks_apart(q1),
        only_back_runs(q1),
{
    let n = q0.len() as int;
    assert(q1.last().wf(m1, a1));
    assert forall|i: int| 0 <= i < q1.len() implies (#[trigger] q1[i]).wf(m1, a1) by {
        if i < n - 1 {
            let t = q0[i];
            assert(t.wf(m0, a0));
            t.space().lemma_owned_allocated(m0, a0);
            assert forall|p: int| #[trigger] t.space().owned().contains(p) implies a1.is_allocated(
                p,
            ) && m1.dom().contains(p) && m1[p] == m0[p] by {
                assert(q0[i].owned().contains(p));
                assert(!q0[n - 1].owned().contains(p));
            }
            assert forall|p: int| #[trigger] t.space().table().owned().contains(p) implies m1[p]
                == m0[p] by {
                assert(t.space().owned().contains(p));
            }
            t.space().lemma_wf_frame(m0, a0, m1, a1);
        }
    }
    assert forall|i: int, j: int, p: int|
        0 <= i < q1.len() && 0 <= j < q1.len() && i != j && #[trigger] q1[i].owned().contains(
            p,
        ) implies !(#[trigger] q1[j].owned().contains(p)) by {
        if i < n - 1 && j < n - 1 {
            assert(q0[i].owned().contains(p));
            assert(!q0[j].owned().contains(p));
        } else if i < n - 1 {
            assert(q0[i].owned().contains(p));
            q0[i].space().lemma_owned_allocated(m0, a0);
            assert(a0.is_allocated(p));
            if q1[j].owned().contains(p) {
                assert(q0[n - 1].owned().contains(p));
            }
        } else {
            if q1[j].owned().contains(p) {
                assert(q0[j].owned().contains(p));
                q0[j].space().lemma_owned_allocated(m0, a0);
                assert(a0.is_allocated(p));
                assert(q0[n - 1].owned().contains(p));
            }
        }
    }
    assert forall|i: int| 0 <= i < q1.len() - 1 implies !(#[trigger] q1[i]).is_running() by {
        assert(!q0[i].is_running());
    }
}

/// No two tasks of `q` own a physical page in common.
pub open spec fn tasks_apart(q: Seq<TaskControlBlock>) -> bool {
    forall|i: int, j: int, p: int|
        0 <= i < q.len() && 0 <= j < q.len() && i != j && #[trigger] q[i].owned().contains(p)
            ==> !(#[trigger] q[j].owned().contains(p))
}

} // verus!
