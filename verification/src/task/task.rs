//! The task control block: everything that the kernel keeps of one
//! application.

use super::context::TaskContext;
use crate::config::{kernel_stack_position, Machine, MAX_APP_NUM, TRAMPOLINE, TRAP_CONTEXT};
use crate::mm::address::{PhysPageNum, VirtAddr, PPN_LIMIT, VA_LIMIT};
use crate::mm::area::{frames_bound, frames_held, AreaView, MapPermission, MapType, MAP_R, MAP_W};
use crate::mm::elf::{entry_point, load_segments, loadable};
use crate::mm::frame_allocator::{backed, FrameAllocState, StackFrameAllocator};
use crate::mm::memory::{MemoryMap, PhysMemory};
use crate::mm::memory_set::{
    image_end_page, image_frames, segments_loaded, trap_context_view, MemorySet,
};
use crate::mm::pte::{lemma_entry_fields, PTEFlags, PTE_V};
use crate::mm::regions::region_frames;
use crate::mm::walk::confined;
use crate::trap::context::{TrapContext, SSTATUS_USER_BITS, TRAP_CONTEXT_WORDS};
use vstd::prelude::*;

verus! {

/// The region of the kernel stack of application `app_id` in the kernel's
/// address space.
pub open spec fn kernel_stack_view(app_id: int, frames: Seq<int>) -> AreaView {
    AreaView {
        start: (TRAMPOLINE - app_id * 12288 - 8192) / 4096,
        end: (TRAMPOLINE - app_id * 12288) / 4096,
        map_type: MapType::Framed,
        perm: MapPermission { bits: MAP_R | MAP_W },
        frames,
    }
}

/// The words of the trap context of an application that is about to run
/// for the first time: every register zero but the stack pointer, then the
/// status word with the previous privilege set to user mode, the program
/// counter, the token of the kernel's address space, the top of the kernel
/// stack and the address of the trap handler.
pub open spec fn first_trap_words(
    entry: u64,
    sp: u64,
    kernel_satp: u64,
    kernel_sp: u64,
    trap_handler: u64,
    sstatus: u64,
) -> Seq<u64> {
    Seq::new(32, |i: int| if i == 2 {
        sp
    } else {
        0u64
    }) + seq![sstatus & SSTATUS_USER_BITS, entry, kernel_satp, kernel_sp, trap_handler]
}

/// The task control block of one application.
pub struct TaskControlBlock {
    running: bool,
    app_id: usize,
    context: TaskContext,
    memory_set: MemorySet,
    trap_cx_ppn: PhysPageNum,
}

impl TaskControlBlock {
    /// The address space of the task.
    pub closed spec fn space(&self) -> MemorySet {
        self.memory_set
    }

    /// The saved context of the task.
    pub closed spec fn spec_context(&self) -> TaskContext {
        self.context
    }

    /// The number of the physical page that holds the task's trap context.
    pub closed spec fn trap_page(&self) -> int {
        self.trap_cx_ppn.0 as int
    }

    /// The number of the application.
    pub closed spec fn id(&self) -> int {
        self.app_id as int
    }

    /// The task is the one that runs.
    pub closed spec fn is_running(&self) -> bool {
        self.running
    }

    /// The task with its running mark set to `running`.
    pub closed spec fn marked(self, running: bool) -> Self {
        TaskControlBlock { running, ..self }
    }

    /// Marking a task changes its mark and nothing else.
    pub broadcast proof fn lemma_marked(self, running: bool)
        ensures
            (#[trigger] self.marked(running)).is_running() == running,
            self.marked(running).id() == self.id(),
            self.marked(running).space() == self.space(),
            self.marked(running).spec_context() == self.spec_context(),
            self.marked(running).trap_page() == self.trap_page(),
            self.is_running() == running ==> self.marked(running) == self,
    {
    }

    /// Two tasks whose parts are the same are the same task.
    pub proof fn lemma_same(a: Self, b: Self)
        requires
            a.is_running() == b.is_running(),
            a.id() == b.id(),
            a.spec_context() == b.spec_context(),
            a.trap_page() == b.trap_page(),
            a.space() == b.space(),
        ensures
            a == b,
    {
    }

    /// The physical pages that the task owns.
    pub open spec fn owned(&self) -> Set<int> {
        self.space().owned()
    }

    /// The address space of the task is well formed.
    pub open spec fn wf(&self, m: MemoryMap, a: FrameAllocState) -> bool {
        self.space().wf(m, a)
    }

    /// The page of the trap context is mapped where it belongs, on a
    /// physical page that the task owns.
    pub open spec fn has_trap_page(&self, m: MemoryMap) -> bool {
        let maps = self.space().mappings(m);
        &&& maps.dom().contains(TRAP_CONTEXT as int / 4096)
        &&& maps[TRAP_CONTEXT as int / 4096].spec_ppn() == self.trap_page()
        &&& m.dom().contains(self.trap_page())
        &&& region_frames(self.space().regions()).contains(self.trap_page())
    }

    /// The trap context of the task in memory `m`, as words.
    pub open spec fn trap_words(&self, m: MemoryMap) -> Seq<u64> {
        m[self.trap_page()].subrange(0, TRAP_CONTEXT_WORDS as int)
    }

    /// Whether the task is the one that runs.
    #[verifier::when_used_as_spec(is_running)]
    pub fn running(&self) -> (r: bool)
        ensures
            r == self.is_running(),
    {
        self.running
    }

    /// Marks the task as the one that runs, or as one that does not.
    pub fn set_running(&mut self, running: bool)
        ensures
            *final(self) == old(self).marked(running),
            final(self).is_running() == running,
            final(self).spec_context() == old(self).spec_context(),
            final(self).space() == old(self).space(),
            final(self).trap_page() == old(self).trap_page(),
            final(self).id() == old(self).id(),
    {
        self.running = running;
    }

    /// The number of the application.
    pub fn app_id(&self) -> (r: usize)
        ensures
            r == self.id(),
    {
        self.app_id
    }

    /// The saved context of the task, for a switch to restore.
    pub fn context_ptr(&self) -> (r: &TaskContext)
        ensures
            *r == self.spec_context(),
    {
        &self.context
    }

    /// The place of the saved context of the task, for a switch to save
    /// into.
    pub fn context_ptr_mut(&mut self) -> (r: &mut TaskContext)
        ensures
            *r == old(self).spec_context(),
            final(self).spec_context() == *final(r),
            final(self).is_running() == old(self).is_running(),
            final(self).space() == old(self).space(),
            final(self).trap_page() == old(self).trap_page(),
            final(self).id() == old(self).id(),
    {
        &mut self.context
    }

    /// The number of the physical page that holds the task's trap context.
    pub fn trap_cx_ppn(&self) -> (r: PhysPageNum)
        ensures
            r.0 == self.trap_page(),
    {
        self.trap_cx_ppn
    }

    /// The trap context of the task, read from its page.
    pub fn trap_context(&self, mem: &PhysMemory) -> (cx: TrapContext)
        requires
            mem.wf(),
            mem@.dom().contains(self.trap_page()),
        ensures
            cx.words() == self.trap_words(mem@),
    {
        TrapContext::load(mem, self.trap_cx_ppn)
    }

    /// Writes `cx` to the page of the task's trap context.
    pub fn set_trap_context(&self, mem: &mut PhysMemory, cx: &TrapContext)
        requires
            old(mem).wf(),
            old(mem)@.dom().contains(self.trap_page()),
        ensures
            final(mem).wf(),
            final(mem).spec_base() == old(mem).spec_base(),
            final(mem).spec_end() == old(mem).spec_end(),
            final(mem)@.dom() == old(mem)@.dom(),
            forall|p: int|
                p != self.trap_page() && old(mem)@.dom().contains(p) ==> #[trigger] final(mem)@[p]
                    == old(mem)@[p],
            self.trap_words(final(mem)@) == cx.words(),
    {
        cx.store(mem, self.trap_cx_ppn);
    }

    /// The token of the task's address space.
    pub fn user_token(&self) -> (t: u64)
        requires
            0 <= self.space().table().root() < PPN_LIMIT,
        ensures
            t == crate::mm::pte::SATP_MODE + self.space().table().root(),
    {
        self.memory_set.token()
    }

    /// Maps fresh memory into the task's address space for the pages that
    /// the addresses from `start` up to `end` touch. Where one of those
    /// pages is mapped already, nothing changes and the result is -1; else
    /// it is 0.
    #[verifier::rlimit(50)]
    pub fn mmap(
        &mut self,
        allocator: &mut StackFrameAllocator,
        mem: &mut PhysMemory,
        start: VirtAddr,
        end: VirtAddr,
        permission: MapPermission,
    ) -> (r: isize)
        requires
            old(allocator).wf(),
            old(mem).wf(),
            backed(old(allocator)@, old(mem)@),
            old(self).wf(old(mem)@, old(allocator)@),
            start.0 <= end.0 <= VA_LIMIT,
            old(allocator)@.free_count() >= frames_bound(
                start.0 as int / 4096,
                (end.0 + 4095) / 4096,
                true,
            ),
        ensures
            final(allocator).wf(),
            final(mem).wf(),
            backed(final(allocator)@, final(mem)@),
            final(self).wf(final(mem)@, final(allocator)@),
            final(self).is_running() == old(self).is_running(),
            final(self).spec_context() == old(self).spec_context(),
            final(self).trap_page() == old(self).trap_page(),
            final(self).id() == old(self).id(),
            final(self).space().table().root() == old(self).space().table().root(),
            r == 0 || r == -1,
            r == -1 <==> exists|v: int|
                start.0 as int / 4096 <= v < (end.0 + 4095) / 4096 && #[trigger] old(
                    self,
                ).space().mappings(old(mem)@).dom().contains(v),
            r == -1 ==> {
                &&& final(self).space() == old(self).space()
                &&& final(self).space().regions() == old(self).space().regions()
                &&& final(mem)@ == old(mem)@
                &&& final(allocator)@ == old(allocator)@
            },
            r == 0 ==> {
                &&& final(self).space().regions().len() == old(self).space().regions().len() + 1
                &&& final(self).space().regions().drop_last() == old(self).space().regions()
                &&& final(self).space().regions().last() == (AreaView {
                    start: start.0 as int / 4096,
                    end: (end.0 + 4095) / 4096,
                    map_type: MapType::Framed,
                    perm: permission,
                    frames: final(self).space().regions().last().frames,
                })
                &&& final(self).space().mappings(final(mem)@) == old(self).space().mappings(
                    old(mem)@,
                ).union_prefer_right(final(self).space().regions().last().as_map())
            },
            old(self).has_trap_page(old(mem)@) ==> final(self).has_trap_page(final(mem)@)
                && final(self).trap_words(final(mem)@) == old(self).trap_words(old(mem)@),
            confined(
                old(allocator)@,
                final(allocator)@,
                old(mem)@,
                final(mem)@,
                old(self).space().table().owned(),
            ),
            forall|p: int|
                final(self).owned().contains(p) ==> old(self).owned().contains(p) || !old(
                    allocator,
                )@.is_allocated(p),
            forall|p: int|
                old(allocator)@.is_allocated(p) ==> #[trigger] final(allocator)@.is_allocated(p),
    {
        let ghost r0 = self.space().regions();
        proof {
            self.space().lemma_owned_allocated(mem@, allocator@);
        }
        let r = self.memory_set.mmap(allocator, mem, start, end, permission);
        proof {
            if old(self).has_trap_page(old(mem)@) {
                let p = self.trap_page();
                assert(old(self).owned().contains(p));
                assert(mem@[p] == old(mem)@[p]);
                if r == 0 {
                    let r1 = self.space().regions();
                    let (i, l) = choose|i: int, l: int|
                        0 <= i < r0.len() && 0 <= l < r0[i].frames.len() && #[trigger] r0[i].frames[l]
                            == p;
                    assert(r1.drop_last()[i] == r1[i]);
                    assert(r1[i].frames[l] == p);
                    assert(!self.space().regions().last().as_map().dom().contains(
                        TRAP_CONTEXT as int / 4096,
                    ));
                }
            }
        }
        r
    }

    /// Ends the mapping of the pages that the addresses from `start` up to
    /// `end` touch in the task's address space and gives their physical
    /// pages back. Where one of those pages is not mapped, nothing changes
    /// and the result is -1; else it is 0.
    pub fn munmap(
        &mut self,
        allocator: &mut StackFrameAllocator,
        mem: &mut PhysMemory,
        start: VirtAddr,
        end: VirtAddr,
    ) -> (r: isize)
        requires
            old(allocator).wf(),
            old(mem).wf(),
            old(self).wf(old(mem)@, old(allocator)@),
            start.0 <= end.0 <= VA_LIMIT,
        ensures
            final(allocator).wf(),
            final(mem).wf(),
            final(mem).spec_base() == old(mem).spec_base(),
            final(mem).spec_end() == old(mem).spec_end(),
            final(self).wf(final(mem)@, final(allocator)@),
            final(self).is_running() == old(self).is_running(),
            final(self).spec_context() == old(self).spec_context(),
            final(self).trap_page() == old(self).trap_page(),
            final(self).id() == old(self).id(),
            final(self).space().table().root() == old(self).space().table().root(),
            r == 0 || r == -1,
            r == -1 <==> exists|v: int|
                start.0 as int / 4096 <= v < (end.0 + 4095) / 4096 && !(#[trigger] old(
                    self,
                ).space().mappings(old(mem)@).dom().contains(v)),
            r == -1 ==> {
                &&& final(self).space() == old(self).space()
                &&& final(self).space().regions() == old(self).space().regions()
                &&& final(mem)@ == old(mem)@
                &&& final(allocator)@ == old(allocator)@
            },
            r == 0 ==> final(self).space().mappings(final(mem)@) == old(self).space().mappings(
                old(mem)@,
            ).remove_keys(
                crate::mm::memory_set::page_range(start.0 as int / 4096, (end.0 + 4095) / 4096),
            ),
            confined(old(allocator)@, final(allocator)@, old(mem)@, final(mem)@, old(self).owned()),
            forall|p: int| final(self).owned().contains(p) ==> old(self).owned().contains(p),
            forall|p: int|
                #[trigger] final(allocator)@.is_allocated(p) ==> old(allocator)@.is_allocated(p),
    {
        self.memory_set.munmap(allocator, mem, start, end)
    }

    /// Makes the task of application `app_id` from its image: the address
    /// space of the image, a kernel stack of its own in the kernel's address
    /// space, a saved context whose first restore lands in the routine that
    /// returns to user mode, and, in the page of the trap context, the
    /// context of an application that is about to run for the first time.
    /// The result is `None`, and nothing has changed, exactly where the
    /// image cannot be loaded.
    #[verifier::rlimit(50)]
    pub fn new(
        allocator: &mut StackFrameAllocator,
        mem: &mut PhysMemory,
        kernel_space: &mut MemorySet,
        elf_data: &[u8],
        app_id: usize,
        machine: &Machine,
    ) -> (r: Option<Self>)
        requires
            old(allocator).wf(),
            old(mem).wf(),
            backed(old(allocator)@, old(mem)@),
            old(kernel_space).wf(old(mem)@, old(allocator)@),
            machine.trampoline.valid(),
            usize::BITS == 64,
            app_id < MAX_APP_NUM,
            forall|v: int|
                kernel_stack_view(app_id as int, Seq::empty()).covers(v) ==> !old(
                    kernel_space,
                ).mappings(old(mem)@).dom().contains(v),
            old(allocator)@.free_count() >= image_frames(elf_data@) + frames_bound(
                kernel_stack_view(app_id as int, Seq::empty()).start,
                kernel_stack_view(app_id as int, Seq::empty()).end,
                true,
            ),
        ensures
            final(allocator).wf(),
            final(mem).wf(),
            backed(final(allocator)@, final(mem)@),
            final(kernel_space).wf(final(mem)@, final(allocator)@),
            final(kernel_space).table().root() == old(kernel_space).table().root(),
            r is Some <==> loadable(elf_data@),
            r is None ==> {
                &&& final(allocator)@ == old(allocator)@
                &&& final(mem)@ == old(mem)@
                &&& final(kernel_space).regions() == old(kernel_space).regions()
            },
            r matches Some(tcb) ==> {
                &&& tcb.wf(final(mem)@, final(allocator)@)
                &&& tcb.has_trap_page(final(mem)@)
                &&& !tcb.is_running()
                &&& tcb.id() == app_id
                &&& tcb.spec_context().spec_ra() == machine.trap_return
                &&& tcb.spec_context().spec_sp() == TRAMPOLINE - app_id * 12288
                &&& tcb.spec_context().registers_clear()
                &&& tcb.space().regions().len() == load_segments(elf_data@).len() + 3
                &&& segments_loaded(
                    tcb.space().regions(),
                    final(mem)@,
                    elf_data@,
                    load_segments(elf_data@).len() as int,
                )
                &&& tcb.space().regions()[0] == crate::mm::memory_set::trampoline_view(
                    machine.trampoline,
                )
                &&& tcb.space().regions()[load_segments(elf_data@).len() as int + 1]
                    == crate::mm::memory_set::stack_view(
                    image_end_page(load_segments(elf_data@)),
                    tcb.space().regions()[load_segments(elf_data@).len() as int + 1].frames,
                )
                &&& tcb.space().regions().last() == trap_context_view(
                    tcb.space().regions().last().frames,
                )
                &&& tcb.trap_words(final(mem)@) == first_trap_words(
                    entry_point(elf_data@) as u64,
                    ((image_end_page(load_segments(elf_data@)) + 3) * 4096) as u64,
                    (crate::mm::pte::SATP_MODE + old(kernel_space).table().root()) as u64,
                    (TRAMPOLINE - app_id * 12288) as u64,
                    machine.trap_handler,
                    machine.sstatus,
                )
                &&& final(kernel_space).regions().len() == old(kernel_space).regions().len() + 1
                &&& final(kernel_space).regions().drop_last() == old(kernel_space).regions()
                &&& final(kernel_space).regions().last() == kernel_stack_view(
                    app_id as int,
                    final(kernel_space).regions().last().frames,
                )
                &&& forall|p: int| tcb.owned().contains(p) ==> !old(allocator)@.is_allocated(p)
                &&& forall|p: int|
                    tcb.owned().contains(p) ==> !final(kernel_space).owned().contains(p)
            },
            confined(
                old(allocator)@,
                final(allocator)@,
                old(mem)@,
                final(mem)@,
                old(kernel_space).table().owned(),
            ),
            forall|p: int|
                final(kernel_space).owned().contains(p) ==> old(kernel_space).owned().contains(p)
                    || !old(allocator)@.is_allocated(p),
            forall|p: int|
                old(allocator)@.is_allocated(p) ==> #[trigger] final(allocator)@.is_allocated(p),
    {
        let ghost a0 = allocator@;
        let ghost m0 = mem@;
        let ghost ks0 = *kernel_space;
        proof {
            allocator.lemma_wf();
            ks0.lemma_owned_allocated(m0, a0);
            let lo = kernel_stack_view(app_id as int, Seq::empty()).start;
            let hi = kernel_stack_view(app_id as int, Seq::empty()).end;
            assert(frames_bound(lo, hi, true) >= 0);
        }
        let (memory_set, user_sp, entry_point) = match MemorySet::from_elf(
            allocator,
            mem,
            elf_data,
            machine.trampoline,
        ) {
            Some(loaded) => loaded,
            None => {
                return None;
            },
        };
        let ghost a1 = allocator@;
        let ghost m1 = mem@;
        let ghost segs = load_segments(elf_data@);
        let ghost n = segs.len() as int;
        let ghost regions = memory_set.regions();
        let ghost trap_vpn = TRAP_CONTEXT as int / 4096;
        proof {
            allocator.lemma_wf();
            memory_set.lemma_owned_allocated(m1, a1);
            ks0.lemma_wf_frame(m0, a0, m1, a1);
            memory_set.table().lemma_wf_readable(m1);
            let last = regions[n + 2];
            assert(last == regions.last());
            assert(last.covers(trap_vpn));
            assert(last.shaped() && last.mapped_in(memory_set.mappings(m1)) && frames_held(
                last.frames,
                m1,
                a1,
                memory_set.table().owned(),
            ));
            assert(last.mapped_upto(last.end, memory_set.mappings(m1)));
            assert(memory_set.mappings(m1).dom().contains(trap_vpn));
            assert(last.frames.len() == 1);
            assert(0 <= last.frames[0] < PPN_LIMIT);
            lemma_entry_fields(
                last.frames[0],
                PTEFlags { bits: last.perm.bits }.spec_with(PTE_V),
            );
            assert(region_frames(regions).contains(last.frames[0]));
        }
        let trap_cx_ppn = memory_set.translate(
            mem,
            VirtAddr(TRAP_CONTEXT).floor(),
        ).unwrap().ppn();
        let (kernel_stack_bottom, kernel_stack_top) = kernel_stack_position(app_id as u64);
        let ghost ks_table1 = kernel_space.table().owned();
        proof {
            let view = kernel_stack_view(app_id as int, Seq::empty());
            assert forall|v: int|
                kernel_stack_bottom as int / 4096 <= v < (kernel_stack_top + 4095)
                    / 4096 implies !kernel_space.mappings(mem@).dom().contains(v) by {
                assert(view.covers(v));
                assert(!ks0.mappings(m0).dom().contains(v));
            }
        }
        kernel_space.insert_framed_area(
            allocator,
            mem,
            VirtAddr(kernel_stack_bottom),
            VirtAddr(kernel_stack_top),
            MapPermission::from_bits(MAP_R | MAP_W),
        );
        let ghost a2 = allocator@;
        let ghost m2 = mem@;
        let ghost ks2 = *kernel_space;
        proof {
            allocator.lemma_wf();
            ks2.lemma_owned_allocated(m2, a2);
            assert forall|p: int| #[trigger] memory_set.owned().contains(p) implies a2.is_allocated(
                p,
            ) && m2.dom().contains(p) && !ks_table1.contains(p) && m2[p] == m1[p] by {
                assert(a1.is_allocated(p));
                assert(!a0.is_allocated(p));
                if ks_table1.contains(p) {
                    assert(ks0.owned().contains(p));
                }
            }
            assert forall|p: int| #[trigger]
                memory_set.table().owned().contains(p) implies m2[p] == m1[p] by {
                assert(memory_set.owned().contains(p));
            }
            memory_set.lemma_wf_frame(m1, a1, m2, a2);
            assert forall|p: int| ks_table1.contains(p) implies a0.start <= p < a0.end && (
            ks_table1.contains(p) || !a0.is_allocated(p)) by {
                assert(ks0.owned().contains(p));
            }
            crate::mm::walk::lemma_confined_wider(
                a0,
                a1,
                m0,
                m1,
                Set::<int>::empty(),
                ks_table1,
            );
            crate::mm::walk::lemma_confined_then(a0, a1, a2, m0, m1, m2, ks_table1, ks_table1);
            assert forall|p: int| memory_set.owned().contains(p) implies !ks2.owned().contains(
                p,
            ) by {
                if ks2.owned().contains(p) {
                    assert(ks0.owned().contains(p) || !a1.is_allocated(p));
                    assert(a1.is_allocated(p));
                    assert(a0.is_allocated(p));
                }
            }
        }
        let task_control_block = Self {
            running: false,
            app_id,
            context: TaskContext::goto_trap_return(kernel_stack_top, machine.trap_return),
            memory_set,
            trap_cx_ppn,
        };
        let trap_cx = TrapContext::app_init_context(
            entry_point,
            user_sp,
            kernel_space.token(),
            kernel_stack_top,
            machine.trap_handler,
            machine.sstatus,
        );
        task_control_block.set_trap_context(mem, &trap_cx);
        proof {
            let tcb = task_control_block;
            let ms = tcb.space();
            let p = tcb.trap_page();
            assert(ms.owned().contains(p));
            assert forall|q: int| #[trigger] ms.owned().contains(q) implies a2.is_allocated(q)
                && mem@.dom().contains(q) by {}
            assert forall|q: int| #[trigger] ms.table().owned().contains(q) implies mem@[q]
                == m2[q] by {
                assert(ms.owned().contains(q));
            }
            ms.lemma_wf_frame(m2, a2, mem@, a2);
            assert forall|q: int| #[trigger] ks2.table().owned().contains(q) implies mem@[q]
                == m2[q] by {
                assert(ks2.owned().contains(q));
            }
            ks2.lemma_wf_frame(m2, a2, mem@, a2);
            assert forall|q: int|
                m0.dom().contains(q) && !ks_table1.contains(q) && (a0.is_allocated(q) || q
                    < a0.start || q >= a0.end) implies #[trigger] mem@[q] == m0[q] by {
                assert(m2[q] == m0[q]);
                assert(a2.is_allocated(p));
            }
            assert(trap_cx.words() =~= first_trap_words(
                entry_point,
                user_sp,
                (crate::mm::pte::SATP_MODE + ks0.table().root()) as u64,
                kernel_stack_top,
                machine.trap_handler,
                machine.sstatus,
            ));
            assert forall|i: int| 0 <= i < n implies {
                &&& #[trigger] regions[i + 1] == crate::mm::memory_set::segment_view(
                    load_segments(elf_data@)[i],
                    regions[i + 1].frames,
                )
                &&& forall|o: int|
                    0 <= o < 4096 * regions[i + 1].frames.len()
                        ==> #[trigger] crate::mm::area::frames_byte(mem@, regions[i + 1].frames, o)
                        == crate::mm::memory_set::segment_byte(
                        elf_data@,
                        load_segments(elf_data@)[i],
                        o,
                    )
            } by {
                assert forall|o: int|
                    0 <= o < 4096 * regions[i + 1].frames.len()
                        implies #[trigger] crate::mm::area::frames_byte(
                    mem@,
                    regions[i + 1].frames,
                    o,
                ) == crate::mm::memory_set::segment_byte(
                    elf_data@,
                    load_segments(elf_data@)[i],
                    o,
                ) by {
                    let q = regions[i + 1].frames[o / 4096];
                    assert(region_frames(regions).contains(q));
                    assert(ms.owned().contains(q));
                    assert(regions[i + 1].frames[o / 4096] != regions[n + 2].frames[0]);
                    assert(m2[q] == m1[q]);
                    assert(mem@[q] == m2[q]);
                    assert(crate::mm::area::frames_byte(m1, regions[i + 1].frames, o)
                        == crate::mm::memory_set::segment_byte(
                        elf_data@,
                        load_segments(elf_data@)[i],
                        o,
                    ));
                }
            }
        }
        Some(task_control_block)
    }

    /// Gives every physical page of the task back to the allocator. The
    /// task is gone.
    pub fn release(self, allocator: &mut StackFrameAllocator)
        requires
            old(allocator).wf(),
            exists|m: MemoryMap| self.wf(m, old(allocator)@),
        ensures
            final(allocator).wf(),
            final(allocator)@.start == old(allocator)@.start,
            final(allocator)@.end == old(allocator)@.end,
            final(allocator)@.free_count() >= old(allocator)@.free_count(),
            forall|q: int|
                #[trigger] final(allocator)@.is_allocated(q) == (old(allocator)@.is_allocated(q)
                    && !self.owned().contains(q)),
    {
        proof {
            let m = choose|m: MemoryMap| self.wf(m, old(allocator)@);
            assert(self.space().wf(m, old(allocator)@));
        }
        self.memory_set.release(allocator);
    }
}

} // verus!
