//! The physical frame allocator: a stack of never-used pages on top of a pool
//! of recycled ones.

use super::address::{PhysAddr, PhysPageNum};
use super::memory::{zero_page, MemoryMap, PhysMemory};
use vstd::multiset::Multiset;
use vstd::prelude::*;

verus! {

/// What the allocator knows, as mathematics: the pages numbered from `start`
/// up to `current` have been handed out at some time, those in `recycled`
/// have come back, and the pages from `current` up to `end` were never used.
pub struct FrameAllocState {
    pub start: int,
    pub current: int,
    pub end: int,
    pub recycled: Set<int>,
}

impl FrameAllocState {
    /// The recycled pages lie in the used range, and the topmost page of the
    /// used range is not among them.
    pub open spec fn wf(self) -> bool {
        &&& 0 <= self.start <= self.current <= self.end
        &&& self.recycled.finite()
        &&& forall|p: int| self.recycled.contains(p) ==> self.start <= p < self.current - 1
    }

    /// Page `p` is owned by somebody: it has been handed out and has not come
    /// back.
    pub open spec fn is_allocated(self, p: int) -> bool {
        self.start <= p < self.current && !self.recycled.contains(p)
    }

    /// The number of pages that can still be handed out.
    pub open spec fn free_count(self) -> int {
        self.recycled.len() + self.end - self.current
    }

    /// `p` is the lowest recycled page.
    pub open spec fn is_lowest_recycled(self, p: int) -> bool {
        self.recycled.contains(p) && forall|q: int| self.recycled.contains(q) ==> p <= q
    }

    /// The page that the next allocation hands out: the lowest recycled page
    /// if there is one, else the first never-used page, if one is left.
    pub open spec fn next_frame(self) -> Option<int> {
        if exists|p: int| self.is_lowest_recycled(p) {
            Some(choose|p: int| self.is_lowest_recycled(p))
        } else if self.current < self.end {
            Some(self.current)
        } else {
            None
        }
    }

    /// The state after an allocation.
    pub open spec fn after_alloc(self) -> Self {
        match self.next_frame() {
            Some(p) => if self.recycled.contains(p) {
                FrameAllocState { recycled: self.recycled.remove(p), ..self }
            } else {
                FrameAllocState { current: self.current + 1, ..self }
            },
            None => self,
        }
    }

    /// Shrinks the used range for as long as its topmost page is a recycled
    /// one.
    pub open spec fn fold_top(self) -> Self
        decreases self.current - self.start,
    {
        if self.start < self.current && self.recycled.contains(self.current - 1) {
            FrameAllocState {
                current: self.current - 1,
                recycled: self.recycled.remove(self.current - 1),
                ..self
            }.fold_top()
        } else {
            self
        }
    }

    /// The state after page `p` has come back. The topmost page of the used
    /// range shrinks the range, together with the recycled pages that then
    /// lie on top of it; any other page joins the recycled ones.
    pub open spec fn after_dealloc(self, p: int) -> Self {
        if p == self.current - 1 {
            FrameAllocState { current: p, ..self }.fold_top()
        } else {
            FrameAllocState { recycled: self.recycled.insert(p), ..self }
        }
    }
}

/// One step in the life of an allocator.
pub enum FrameOp {
    /// A request for a page.
    Alloc,
    /// The return of the page with this number.
    Dealloc(int),
}

/// The state that `ops` lead to from `init`.
pub open spec fn state_after(init: FrameAllocState, ops: Seq<FrameOp>) -> FrameAllocState
    decreases ops.len(),
{
    if ops.len() == 0 {
        init
    } else {
        let s = state_after(init, ops.drop_last());
        match ops.last() {
            FrameOp::Alloc => s.after_alloc(),
            FrameOp::Dealloc(p) => s.after_dealloc(p),
        }
    }
}

/// The pages that callers hold after `ops`: those handed out and not yet
/// returned, each as often as it is held.
pub open spec fn live_after(init: FrameAllocState, ops: Seq<FrameOp>) -> Multiset<int>
    decreases ops.len(),
{
    if ops.len() == 0 {
        Multiset::empty()
    } else {
        let s = state_after(init, ops.drop_last());
        let live = live_after(init, ops.drop_last());
        match ops.last() {
            FrameOp::Alloc => match s.next_frame() {
                Some(p) => live.insert(p),
                None => live,
            },
            FrameOp::Dealloc(p) => live.remove(p),
        }
    }
}

/// Every page that `ops` return is held by a caller at that moment.
pub open spec fn returns_only_live(init: FrameAllocState, ops: Seq<FrameOp>) -> bool
    decreases ops.len(),
{
    if ops.len() == 0 {
        true
    } else {
        &&& returns_only_live(init, ops.drop_last())
        &&& match ops.last() {
            FrameOp::Alloc => true,
            FrameOp::Dealloc(p) => live_after(init, ops.drop_last()).count(p) > 0,
        }
    }
}

/// Folding the top keeps the state well formed and changes no page's
/// ownership; each page folded away is one recycled page less.
pub proof fn lemma_fold_top(s: FrameAllocState)
    requires
        0 <= s.start <= s.current <= s.end,
        s.recycled.finite(),
        forall|p: int| s.recycled.contains(p) ==> s.start <= p < s.current,
    ensures
        s.fold_top().wf(),
        s.fold_top().start == s.start,
        s.fold_top().end == s.end,
        s.fold_top().free_count() == s.free_count(),
        forall|q: int| s.fold_top().is_allocated(q) == s.is_allocated(q),
    decreases s.current - s.start,
{
    if s.start < s.current && s.recycled.contains(s.current - 1) {
        let t = FrameAllocState {
            current: s.current - 1,
            recycled: s.recycled.remove(s.current - 1),
            ..s
        };
        lemma_fold_top(t);
        assert forall|q: int| s.fold_top().is_allocated(q) == s.is_allocated(q) by {
            assert(t.is_allocated(q) == s.is_allocated(q));
        }
    }
}

/// An allocation hands out a page that nobody owned, makes the caller its
/// owner and leaves the ownership of every other page as it was. It fails
/// only when no page is free.
pub proof fn lemma_alloc(s: FrameAllocState)
    requires
        s.wf(),
    ensures
        s.after_alloc().wf(),
        s.after_alloc().start == s.start,
        s.after_alloc().end == s.end,
        s.next_frame() is None <==> s.free_count() == 0,
        s.next_frame() is None ==> s.after_alloc() == s,
        s.next_frame() matches Some(p) ==> {
            &&& s.start <= p < s.end
            &&& !s.is_allocated(p)
            &&& s.after_alloc().is_allocated(p)
            &&& s.after_alloc().free_count() == s.free_count() - 1
            &&& forall|q: int| q != p ==> s.after_alloc().is_allocated(q) == s.is_allocated(q)
        },
{
    if exists|p: int| s.is_lowest_recycled(p) {
        let p = choose|p: int| s.is_lowest_recycled(p);
        assert(s.recycled.contains(p));
    } else {
        if s.recycled.len() > 0 {
            lemma_lowest_exists(s.recycled);
            let p = choose|p: int| lowest_of(s.recycled, p);
            assert(s.is_lowest_recycled(p));
        }
        assert(s.recycled.len() == 0);
        assert(s.recycled =~= Set::empty()) by {
            if exists|x: int| s.recycled.contains(x) {
                let x = choose|x: int| s.recycled.contains(x);
                assert(s.recycled.remove(x).len() + 1 == s.recycled.len());
            }
        }
    }
}

spec fn lowest_of(s: Set<int>, p: int) -> bool {
    s.contains(p) && forall|q: int| s.contains(q) ==> p <= q
}

proof fn lemma_lowest_exists(s: Set<int>)
    requires
        s.finite(),
        s.len() > 0,
    ensures
        exists|p: int| lowest_of(s, p),
    decreases s.len(),
{
    let x = s.choose();
    let rest = s.remove(x);
    if rest.len() == 0 {
        assert forall|q: int| s.contains(q) implies x <= q by {
            if q != x {
                assert(rest.contains(q));
                assert(rest.remove(q).len() + 1 == rest.len());
            }
        }
        assert(lowest_of(s, x));
    } else {
        lemma_lowest_exists(rest);
        let m = choose|p: int| lowest_of(rest, p);
        if x <= m {
            assert forall|q: int| s.contains(q) implies x <= q by {
                if q != x {
                    assert(rest.contains(q));
                }
            }
            assert(lowest_of(s, x));
        } else {
            assert forall|q: int| s.contains(q) implies m <= q by {
                if q != x {
                    assert(rest.contains(q));
                }
            }
            assert(lowest_of(s, m));
        }
    }
}

/// The return of an owned page ends its ownership and leaves the ownership
/// of every other page as it was; one more page is free.
pub proof fn lemma_dealloc(s: FrameAllocState, p: int)
    requires
        s.wf(),
        s.is_allocated(p),
    ensures
        s.after_dealloc(p).wf(),
        s.after_dealloc(p).start == s.start,
        s.after_dealloc(p).end == s.end,
        s.after_dealloc(p).free_count() == s.free_count() + 1,
        forall|q: int| s.after_dealloc(p).is_allocated(q) == (s.is_allocated(q) && q != p),
{
    if p == s.current - 1 {
        let t = FrameAllocState { current: p, ..s };
        lemma_fold_top(t);
        assert forall|q: int| s.after_dealloc(p).is_allocated(q) == (s.is_allocated(q) && q
            != p) by {
            assert(t.is_allocated(q) == (s.is_allocated(q) && q != p));
        }
    } else {
        let t = FrameAllocState { recycled: s.recycled.insert(p), ..s };
        assert(t.wf());
    }
}

/// A page that is returned right after it was handed out is the page that
/// the next allocation hands out: the return undoes the allocation.
pub proof fn lemma_dealloc_then_alloc_reuses(s: FrameAllocState)
    requires
        s.wf(),
        s.next_frame() is Some,
    ensures
        s.after_alloc().after_dealloc(s.next_frame().unwrap()) == s,
        s.after_alloc().after_dealloc(s.next_frame().unwrap()).next_frame() == s.next_frame(),
{
    let p = s.next_frame().unwrap();
    let a = s.after_alloc();
    lemma_alloc(s);
    if s.recycled.contains(p) {
        assert(a.recycled.insert(p) =~= s.recycled);
    } else {
        assert(p == s.current);
        let t = FrameAllocState { current: p, ..a };
        assert(t == s);
        assert(!s.recycled.contains(s.current - 1));
        assert(a.after_dealloc(p) == s.fold_top());
    }
}

/// Whatever pages are requested and returned, in whatever order, no page is
/// ever held twice: as long as only held pages are returned, every page
/// occurs at most once among the live ones, and the allocator counts each of
/// them as owned.
pub proof fn lemma_live_frames_distinct(init: FrameAllocState, ops: Seq<FrameOp>)
    requires
        init.wf(),
        returns_only_live(init, ops),
    ensures
        state_after(init, ops).wf(),
        forall|p: int| live_after(init, ops).count(p) <= 1,
        forall|p: int|
            live_after(init, ops).count(p) == 1 ==> state_after(init, ops).is_allocated(p),
    decreases ops.len(),
{
    if ops.len() > 0 {
        let prev = ops.drop_last();
        lemma_live_frames_distinct(init, prev);
        let s = state_after(init, prev);
        let live = live_after(init, prev);
        match ops.last() {
            FrameOp::Alloc => {
                lemma_alloc(s);
            },
            FrameOp::Dealloc(p) => {
                lemma_dealloc(s, p);
            },
        }
    }
}

/// The owner's handle on one physical page.
#[derive(Debug)]
pub struct FrameTracker {
    ppn: PhysPageNum,
}

impl FrameTracker {
    /// The number of the page.
    pub closed spec fn spec_ppn(&self) -> PhysPageNum {
        self.ppn
    }

    /// The number of the page.
    #[verifier::when_used_as_spec(spec_ppn)]
    pub fn ppn(&self) -> (r: PhysPageNum)
        ensures
            r == self.spec_ppn(),
    {
        self.ppn
    }
}

/// The numbers of `s` as mathematical integers.
spec fn as_ints(s: Seq<u64>) -> Seq<int> {
    s.map_values(|x: u64| x as int)
}

/// Each number of `s` is greater than the next.
spec fn descending(s: Seq<u64>) -> bool {
    forall|i: int, j: int| 0 <= i < j < s.len() ==> s[i] > s[j]
}

proof fn lemma_descending_set(s: Seq<u64>)
    requires
        descending(s),
    ensures
        as_ints(s).to_set().finite(),
        as_ints(s).to_set().len() == s.len(),
        forall|p: int|
            as_ints(s).to_set().contains(p) <==> exists|i: int|
                0 <= i < s.len() && #[trigger] s[i] as int == p,
{
    let t = as_ints(s);
    vstd::seq_lib::seq_to_set_is_finite(t);
    assert(t.no_duplicates());
    t.unique_seq_to_set();
    assert forall|p: int| t.to_set().contains(p) implies exists|i: int|
        0 <= i < s.len() && #[trigger] s[i] as int == p by {
        let i = choose|i: int| 0 <= i < t.len() && t[i] == p;
        assert(s[i] as int == p);
    }
    assert forall|p: int|
        (exists|i: int| 0 <= i < s.len() && #[trigger] s[i] as int == p) implies t.to_set().contains(
        p,
    ) by {
        let i = choose|i: int| 0 <= i < s.len() && #[trigger] s[i] as int == p;
        assert(t[i] == p);
    }
}

/// The frame allocator.
pub struct StackFrameAllocator {
    start: u64,
    current: u64,
    end: u64,
    recycled: Vec<u64>,
}

impl View for StackFrameAllocator {
    type V = FrameAllocState;

    closed spec fn view(&self) -> FrameAllocState {
        FrameAllocState {
            start: self.start as int,
            current: self.current as int,
            end: self.end as int,
            recycled: as_ints(self.recycled@).to_set(),
        }
    }
}

impl StackFrameAllocator {
    /// The allocator's state is well formed.
    pub closed spec fn wf(&self) -> bool {
        &&& self@.wf()
        &&& descending(self.recycled@)
    }

    /// A well-formed allocator has a well-formed state.
    pub broadcast proof fn lemma_wf(&self)
        requires
            #[trigger] self.wf(),
        ensures
            self@.wf(),
    {
    }

    /// An allocator with no page to hand out.
    pub fn new() -> (a: Self)
        ensures
            a.wf(),
            a@ == (FrameAllocState { start: 0, current: 0, end: 0, recycled: Set::empty() }),
    {
        let a = StackFrameAllocator { start: 0, current: 0, end: 0, recycled: Vec::new() };
        proof {
            lemma_descending_set(a.recycled@);
            assert(a@.recycled =~= Set::empty());
        }
        a
    }

    /// Makes the pages from `start` up to `end` the ones to hand out, all of
    /// them never used.
    pub fn init(&mut self, start: PhysPageNum, end: PhysPageNum)
        requires
            start.0 <= end.0,
        ensures
            final(self).wf(),
            final(self)@ == (FrameAllocState {
                start: start.0 as int,
                current: start.0 as int,
                end: end.0 as int,
                recycled: Set::empty(),
            }),
    {
        self.start = start.0;
        self.current = start.0;
        self.end = end.0;
        self.recycled = Vec::new();
        proof {
            lemma_descending_set(self.recycled@);
            assert(self@.recycled =~= Set::empty());
        }
    }

    /// The number of pages that can still be handed out.
    pub fn free_count(&self) -> (n: u64)
        requires
            self.wf(),
        ensures
            n == self@.free_count(),
    {
        proof {
            lemma_descending_set(self.recycled@);
        }
        let n: usize = self.recycled.len();
        let rest: u64 = self.end - self.current;
        if n as u64 > u64::MAX - rest {
            proof {
                assert forall|i: int| 0 <= i < self.recycled@.len() implies (
                #[trigger] self.recycled@[i]) + i < self.current by {
                    lemma_descending_bound(self.recycled@, i);
                    assert(self@.recycled.contains(self.recycled@[0] as int));
                }
                assert(self.recycled@[n - 1] + (n - 1) < self.current);
            }
            u64::MAX
        } else {
            n as u64 + rest
        }
    }

    /// Whether page `ppn` is owned by somebody.
    pub fn is_allocated(&self, ppn: PhysPageNum) -> (b: bool)
        requires
            self.wf(),
        ensures
            b == self@.is_allocated(ppn.0 as int),
    {
        proof {
            lemma_descending_set(self.recycled@);
        }
        if ppn.0 < self.start || ppn.0 >= self.current {
            return false;
        }
        let mut i: usize = 0;
        while i < self.recycled.len()
            invariant
                self.wf(),
                i <= self.recycled@.len(),
                forall|k: int| 0 <= k < i ==> self.recycled@[k] != ppn.0,
            decreases self.recycled@.len() - i,
        {
            if self.recycled[i] == ppn.0 {
                proof {
                    lemma_descending_set(self.recycled@);
                    assert(self.recycled@[i as int] as int == ppn.0 as int);
                }
                return false;
            }
            i += 1;
        }
        true
    }

    /// Hands out a page: the lowest recycled one if there is any, else the
    /// first never-used one. `None` when no page is free.
    #[verifier::rlimit(50)]
    pub fn allocate(&mut self) -> (r: Option<PhysPageNum>)
        requires
            old(self).wf(),
        ensures
            final(self).wf(),
            final(self)@ == old(self)@.after_alloc(),
            match r {
                Some(ppn) => old(self)@.next_frame() == Some(ppn.0 as int),
                None => old(self)@.next_frame() is None,
            },
    {
        proof {
            lemma_descending_set(self.recycled@);
            lemma_alloc(self@);
        }
        let ghost before = self.recycled@;
        if let Some(ppn) = self.recycled.pop() {
            proof {
                let n = before.len() - 1;
                assert(before[n] == ppn);
                assert(old(self)@.is_lowest_recycled(ppn as int)) by {
                    assert forall|q: int| old(self)@.recycled.contains(q) implies ppn <= q by {
                        let i = choose|i: int| 0 <= i < before.len() && #[trigger] before[i] as int == q;
                        if i != n {
                            assert(before[i] > before[n]);
                        }
                    }
                }
                let c = choose|p: int| old(self)@.is_lowest_recycled(p);
                assert(c == ppn);
                lemma_descending_set(self.recycled@);
                assert(self@.recycled =~= old(self)@.recycled.remove(ppn as int)) by {
                    assert forall|q: int| self@.recycled.contains(q) implies old(
                        self,
                    )@.recycled.remove(ppn as int).contains(q) by {
                        let i = choose|i: int|
                            0 <= i < self.recycled@.len() && #[trigger] self.recycled@[i] as int == q;
                        assert(before[i] as int == q);
                        assert(before[i] > before[n]);
                    }
                    assert forall|q: int|
                        old(self)@.recycled.remove(ppn as int).contains(
                            q,
                        ) implies self@.recycled.contains(q) by {
                        let i = choose|i: int| 0 <= i < before.len() && #[trigger] before[i] as int == q;
                        assert(self.recycled@[i] as int == q);
                    }
                }
            }
            Some(PhysPageNum(ppn))
        } else if self.current == self.end {
            proof {
                assert(!exists|p: int| old(self)@.is_lowest_recycled(p));
            }
            None
        } else {
            proof {
                assert(!exists|p: int| old(self)@.is_lowest_recycled(p));
            }
            self.current += 1;
            Some(PhysPageNum(self.current - 1))
        }
    }

    /// Takes back page `ppn`, which must be owned.
    #[verifier::rlimit(50)]
    pub fn dealloc(&mut self, ppn: PhysPageNum)
        requires
            old(self).wf(),
            old(self)@.is_allocated(ppn.0 as int),
        ensures
            final(self).wf(),
            final(self)@ == old(self)@.after_dealloc(ppn.0 as int),
    {
        let ppn: u64 = ppn.0;
        proof {
            lemma_descending_set(self.recycled@);
            lemma_dealloc(self@, ppn as int);
        }
        if ppn == self.current - 1 {
            self.current = ppn;
            let ghost top = self@;
            proof {
                assert forall|k: int| 0 <= k < self.recycled@.len() implies self.start
                    <= #[trigger] self.recycled@[k] < self.current by {
                    assert(old(self)@.recycled.contains(self.recycled@[k] as int));
                }
            }
            while self.recycled.len() > 0 && self.current > self.start && self.recycled[0]
                == self.current - 1
                invariant
                    descending(self.recycled@),
                    self.start <= self.current <= self.end,
                    forall|k: int|
                        0 <= k < self.recycled@.len() ==> self.start <= #[trigger] self.recycled@[k]
                            < self.current,
                    self@.fold_top() == top.fold_top(),
                decreases self.recycled@.len(),
            {
                let ghost before = self.recycled@;
                let ghost s = self@;
                self.recycled.remove(0);
                self.current -= 1;
                proof {
                    lemma_descending_set(before);
                    lemma_descending_set(self.recycled@);
                    assert(s.recycled.contains(before[0] as int));
                    assert(self@.recycled =~= s.recycled.remove(s.current - 1)) by {
                        assert forall|q: int| self@.recycled.contains(q) implies s.recycled.remove(
                            s.current - 1,
                        ).contains(q) by {
                            let i = choose|i: int|
                                0 <= i < self.recycled@.len() && #[trigger] self.recycled@[i] as int
                                    == q;
                            assert(before[i + 1] as int == q);
                            assert(before[0] > before[i + 1]);
                        }
                        assert forall|q: int|
                            s.recycled.remove(s.current - 1).contains(
                                q,
                            ) implies self@.recycled.contains(q) by {
                            let i = choose|i: int|
                                0 <= i < before.len() && #[trigger] before[i] as int == q;
                            assert(self.recycled@[i - 1] as int == q);
                        }
                    }
                    assert forall|k: int| 0 <= k < self.recycled@.len() implies self.start
                        <= #[trigger] self.recycled@[k] < self.current by {
                        assert(before[k + 1] == self.recycled@[k]);
                        assert(before[0] > before[k + 1]);
                    }
                }
            }
            proof {
                lemma_descending_set(self.recycled@);
                if self.start < self.current && self@.recycled.contains(self.current - 1) {
                    let i = choose|i: int|
                        0 <= i < self.recycled@.len() && #[trigger] self.recycled@[i] as int
                            == self.current - 1;
                    if i != 0 {
                        assert(self.recycled@[0] > self.recycled@[i]);
                    }
                }
                assert(self@.fold_top() == self@);
                lemma_fold_top(top);
            }
        } else {
            let mut i: usize = 0;
            while i < self.recycled.len() && self.recycled[i] > ppn
                invariant
                    i <= self.recycled@.len(),
                    forall|k: int| 0 <= k < i ==> self.recycled@[k] > ppn,
                decreases self.recycled@.len() - i,
            {
                i += 1;
            }
            let ghost before = self.recycled@;
            self.recycled.insert(i, ppn);
            proof {
                assert(descending(self.recycled@)) by {
                    assert forall|a: int, b: int| 0 <= a < b < self.recycled@.len() implies self.recycled@[a]
                        > self.recycled@[b] by {
                        if b == i {
                            assert(before[a] > ppn);
                        } else if a == i {
                            assert(before[b - 1] as int != ppn as int) by {
                                assert(old(self)@.recycled.contains(before[b - 1] as int));
                            }
                            if i < before.len() {
                                assert(before[i as int] <= ppn);
                                assert(old(self)@.recycled.contains(before[i as int] as int));
                                if b - 1 > i {
                                    assert(before[i as int] > before[b - 1]);
                                }
                            }
                        } else {
                            let a0 = if a < i { a } else { a - 1 };
                            let b0 = if b < i { b } else { b - 1 };
                            assert(before[a0] > before[b0]);
                        }
                    }
                }
                lemma_descending_set(self.recycled@);
                assert(self@.recycled =~= old(self)@.recycled.insert(ppn as int)) by {
                    assert forall|q: int| self@.recycled.contains(q) implies old(
                        self,
                    )@.recycled.insert(ppn as int).contains(q) by {
                        let k = choose|k: int|
                            0 <= k < self.recycled@.len() && #[trigger] self.recycled@[k] as int == q;
                        if k < i {
                            assert(before[k] as int == q);
                        } else if k > i {
                            assert(before[k - 1] as int == q);
                        }
                    }
                    assert forall|q: int|
                        old(self)@.recycled.insert(ppn as int).contains(
                            q,
                        ) implies self@.recycled.contains(q) by {
                        if q == ppn as int {
                            assert(self.recycled@[i as int] as int == q);
                        } else {
                            let k = choose|k: int|
                                0 <= k < before.len() && #[trigger] before[k] as int == q;
                            if k < i {
                                assert(self.recycled@[k] as int == q);
                            } else {
                                assert(self.recycled@[k + 1] as int == q);
                            }
                        }
                    }
                }
            }
        }
    }
}

impl Default for StackFrameAllocator {
    fn default() -> (a: Self)
        ensures
            a.wf(),
            a@ == (FrameAllocState { start: 0, current: 0, end: 0, recycled: Set::empty() }),
    {
        StackFrameAllocator::new()
    }
}

/// In a descending sequence the number at index `i` lies at least `i` below
/// the first.
proof fn lemma_descending_bound(s: Seq<u64>, i: int)
    requires
        descending(s),
        0 <= i < s.len(),
    ensures
        s[i] + i <= s[0],
    decreases i,
{
    if i > 0 {
        lemma_descending_bound(s, i - 1);
        assert(s[i - 1] > s[i]);
    }
}

/// Every page that the allocator may hand out exists in memory `m`, and its
/// number fits in a page table entry.
pub open spec fn backed(a: FrameAllocState, m: MemoryMap) -> bool {
    &&& a.end <= 0x1000_0000_0000
    &&& forall|p: int| a.start <= p < a.end ==> m.dom().contains(p)
}

/// Hands out a page filled with zeroes, or `None` when no page is free. The
/// page is the one that [`FrameAllocState::next_frame`] names.
pub fn frame_alloc(allocator: &mut StackFrameAllocator, mem: &mut PhysMemory) -> (r: Option<
    FrameTracker,
>)
    requires
        old(allocator).wf(),
        old(mem).wf(),
        backed(old(allocator)@, old(mem)@),
    ensures
        final(allocator).wf(),
        final(mem).wf(),
        final(mem).spec_base() == old(mem).spec_base(),
        final(mem).spec_end() == old(mem).spec_end(),
        final(allocator)@ == old(allocator)@.after_alloc(),
        backed(final(allocator)@, final(mem)@),
        match r {
            Some(frame) => {
                &&& old(allocator)@.next_frame() == Some(frame.ppn().0 as int)
                &&& frame.ppn().valid()
                &&& final(mem)@ == old(mem)@.insert(frame.ppn().0 as int, zero_page())
                &&& !old(allocator)@.is_allocated(frame.ppn().0 as int)
                &&& final(allocator)@.is_allocated(frame.ppn().0 as int)
                &&& final(allocator)@.free_count() == old(allocator)@.free_count() - 1
                &&& forall|q: int|
                    q != frame.ppn().0 ==> final(allocator)@.is_allocated(q) == old(
                        allocator,
                    )@.is_allocated(q)
            },
            None => {
                &&& old(allocator)@.next_frame() is None
                &&& final(mem)@ == old(mem)@
                &&& final(allocator)@ == old(allocator)@
            },
        },
        r is None <==> old(allocator)@.free_count() == 0,
        final(mem)@.dom() == old(mem)@.dom(),
{
    proof {
        allocator.lemma_wf();
        lemma_alloc(allocator@);
    }
    match allocator.allocate() {
        Some(ppn) => {
            mem.zero_frame(ppn);
            proof {
                assert(mem@.dom() =~= old(mem)@.dom());
            }
            Some(FrameTracker { ppn })
        },
        None => None,
    }
}

/// Takes back the page of `frame`, which must be owned.
pub fn frame_dealloc(allocator: &mut StackFrameAllocator, frame: FrameTracker)
    requires
        old(allocator).wf(),
        old(allocator)@.is_allocated(frame.ppn().0 as int),
    ensures
        final(allocator).wf(),
        final(allocator)@ == old(allocator)@.after_dealloc(frame.ppn().0 as int),
{
    allocator.dealloc(frame.ppn);
}

/// Sets the allocator up for the memory between the end of the kernel image,
/// at address `ekernel`, and the page of the last usable address
/// `memory_end`, that page included.
pub fn init_frame_allocator(allocator: &mut StackFrameAllocator, ekernel: u64, memory_end: u64)
    requires
        ekernel / 4096 <= memory_end / 4096,
    ensures
        final(allocator).wf(),
        final(allocator)@ == (FrameAllocState {
            start: ekernel as int / 4096,
            current: ekernel as int / 4096,
            end: memory_end as int / 4096 + 1,
            recycled: Set::empty(),
        }),
{
    let start = PhysAddr(ekernel).page();
    let last = PhysAddr(memory_end).page();
    allocator.init(start, PhysPageNum(last.0 + 1));
}

} // verus!
