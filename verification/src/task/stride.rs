//! Stride scheduling: every task has a priority and a stride, the task with
//! the least stride runs next, and a task that has run moves its stride on
//! by a step that is the smaller the higher its priority is.

use super::priority_queue::{coherent, is_minimal, not_after, PriorityQueue, Prioritized};
use vstd::prelude::*;

verus! {

/// The stride that a task of priority 1 would move on by.
pub const BIG_STRIDE: u64 = 0xffff_ffff_ffff_ffff;

/// The least priority that a task can have.
pub const MIN_PRIORITY: u64 = 2;

/// The priority of a task that has not asked for another.
pub const DEFAULT_PRIORITY: u64 = 2;

/// The widest that the strides of the tasks lie apart: the step of a task
/// of the least priority.
pub const STRIDE_WINDOW: u64 = 0x7fff_ffff_ffff_ffff;

/// How far stride `a` lies above stride `b`, counted around the end of the
/// 64-bit numbers.
pub open spec fn wrapped_diff(a: u64, b: u64) -> int {
    if a >= b {
        a - b
    } else {
        a - b + 0x1_0000_0000_0000_0000
    }
}

/// Stride `a` comes before stride `b`: the difference from `b` to `a`,
/// taken as a signed number, is negative.
pub open spec fn spec_stride_before(a: u64, b: u64) -> bool {
    wrapped_diff(a, b) >= 0x8000_0000_0000_0000
}

/// Whether stride `a` comes before stride `b`.
#[verifier::when_used_as_spec(spec_stride_before)]
pub fn stride_before(a: u64, b: u64) -> (r: bool)
    ensures
        r == spec_stride_before(a, b),
{
    if a >= b {
        a - b >= 0x8000_0000_0000_0000
    } else {
        b - a <= 0x8000_0000_0000_0000
    }
}

/// The stride `a` moved on by `step`, counted around the end of the 64-bit
/// numbers.
pub open spec fn spec_stride_add(a: u64, step: u64) -> u64 {
    if a + step <= u64::MAX {
        (a + step) as u64
    } else {
        (a + step - 0x1_0000_0000_0000_0000) as u64
    }
}

/// The stride `a` moved on by `step`.
#[verifier::when_used_as_spec(spec_stride_add)]
pub fn stride_add(a: u64, step: u64) -> (r: u64)
    ensures
        r == spec_stride_add(a, step),
{
    if step <= u64::MAX - a {
        a + step
    } else {
        step - (u64::MAX - a) - 1
    }
}

/// The step by which a task of the given priority moves its stride on.
pub open spec fn stride_step(priority: u64) -> u64 {
    BIG_STRIDE / priority
}

/// A task as the scheduler sees it.
#[derive(Clone, Copy, Debug, PartialEq, Eq, Structural)]
pub struct StrideTask {
    pub id: usize,
    pub priority: u64,
    pub stride: u64,
}

impl Prioritized for StrideTask {
    open spec fn spec_before(&self, other: &Self) -> bool {
        spec_stride_before(self.stride, other.stride)
    }

    fn before(&self, other: &Self) -> (b: bool) {
        stride_before(self.stride, other.stride)
    }
}

/// The strides of the tasks of `s` lie at most [`STRIDE_WINDOW`] above
/// `base`.
pub open spec fn in_window(s: Seq<StrideTask>, base: u64) -> bool {
    forall|t: StrideTask| s.contains(t) ==> wrapped_diff(#[trigger] t.stride, base) <= STRIDE_WINDOW
}

/// Every task of `s` has a priority of at least [`MIN_PRIORITY`].
pub open spec fn priorities_ok(s: Seq<StrideTask>) -> bool {
    forall|t: StrideTask| s.contains(t) ==> (#[trigger] t.priority) >= MIN_PRIORITY
}

/// Among strides of one window, a stride comes before another exactly when
/// it lies less far above the base of the window.
pub proof fn lemma_window_order(a: u64, b: u64, base: u64)
    requires
        wrapped_diff(a, base) <= STRIDE_WINDOW,
        wrapped_diff(b, base) <= STRIDE_WINDOW,
    ensures
        spec_stride_before(a, b) == (wrapped_diff(a, base) < wrapped_diff(b, base)),
{
}

/// Tasks whose strides lie in one window are ordered coherently.
pub proof fn lemma_window_coherent(s: Seq<StrideTask>, base: u64)
    requires
        in_window(s, base),
    ensures
        coherent(s),
{
    assert forall|a: StrideTask, b: StrideTask| s.contains(a) && s.contains(b) implies #[trigger] not_after(
        a,
        b,
    ) || not_after(b, a) by {
        lemma_window_order(a.stride, b.stride, base);
        lemma_window_order(b.stride, a.stride, base);
    }
    assert forall|a: StrideTask, b: StrideTask, c: StrideTask|
        s.contains(a) && s.contains(b) && s.contains(c) && #[trigger] not_after(a, b)
            && #[trigger] not_after(b, c) implies not_after(a, c) by {
        lemma_window_order(b.stride, a.stride, base);
        lemma_window_order(c.stride, b.stride, base);
        lemma_window_order(c.stride, a.stride, base);
    }
}

/// A stride scheduler for at most `N` tasks that wait to run.
pub struct StrideScheduler<const N: usize> {
    ready: PriorityQueue<StrideTask, N>,
    current: Option<StrideTask>,
}

impl<const N: usize> StrideScheduler<N> {
    /// The tasks that wait to run, in the order of the heap: the next to
    /// run first.
    pub closed spec fn ready(&self) -> Seq<StrideTask> {
        self.ready@
    }

    /// The task that runs, if any.
    pub closed spec fn current(&self) -> Option<StrideTask> {
        self.current
    }

    /// The queue of the tasks that wait is well formed.
    pub closed spec fn queue_wf(&self) -> bool {
        self.ready.wf()
    }

    /// The strides of all tasks lie in one window whose base is the stride
    /// of the task that runs, no task that waits comes before the task that
    /// runs, and every priority is at least [`MIN_PRIORITY`].
    pub open spec fn wf(&self) -> bool {
        &&& self.queue_wf()
        &&& self.ready().len() <= N
        &&& priorities_ok(self.ready())
        &&& match self.current() {
            Some(cur) => cur.priority >= MIN_PRIORITY && in_window(self.ready(), cur.stride),
            None => exists|base: u64| in_window(self.ready(), base),
        }
    }

    /// A scheduler without tasks.
    pub fn new() -> (r: Self)
        ensures
            r.wf(),
            r.ready() == Seq::<StrideTask>::empty(),
            r.current() is None,
    {
        let r = StrideScheduler { ready: PriorityQueue::new(), current: None };
        proof {
            assert(in_window(r.ready(), 0));
        }
        r
    }

    /// The number of tasks that wait to run.
    pub fn ready_len(&self) -> (n: usize)
        ensures
            n == self.ready().len(),
    {
        self.ready.len()
    }

    /// The task at place `i` of the heap of the tasks that wait.
    pub fn ready_task(&self, i: usize) -> (r: StrideTask)
        requires
            i < self.ready().len(),
        ensures
            r == self.ready()[i as int],
    {
        *self.ready.get(i)
    }

    /// The task that runs, if any.
    pub fn current_task(&self) -> (r: Option<StrideTask>)
        ensures
            r == self.current(),
    {
        self.current
    }

    /// Adds task `id` to the tasks that wait, with the default priority. Its
    /// stride is that of the task that runs, or else that of the task that
    /// is next to run, or else zero.
    pub fn add(&mut self, id: usize)
        requires
            old(self).wf(),
            old(self).ready().len() < N,
        ensures
            final(self).wf(),
            final(self).current() == old(self).current(),
            final(self).ready().len() == old(self).ready().len() + 1,
            final(self).ready().to_multiset() == old(self).ready().to_multiset().insert(
                StrideTask {
                    id,
                    priority: DEFAULT_PRIORITY,
                    stride: match old(self).current() {
                        Some(cur) => cur.stride,
                        None => if old(self).ready().len() > 0 {
                            old(self).ready()[0].stride
                        } else {
                            0
                        },
                    },
                },
            ),
    {
        let stride = match self.current {
            Some(cur) => cur.stride,
            None => if self.ready.len() > 0 {
                self.ready.get(0).stride
            } else {
                0
            },
        };
        let task = StrideTask { id, priority: DEFAULT_PRIORITY, stride };
        let ghost before = self.ready();
        let ghost base = match self.current() {
            Some(cur) => cur.stride,
            None => if before.len() > 0 {
                choose|base: u64| in_window(before, base)
            } else {
                0
            },
        };
        proof {
            if before.len() > 0 {
                assert(before.contains(before[0]));
            }
            before.to_multiset_ensures();
            assert(in_window(before, base));
            assert(wrapped_diff(task.stride, base) <= STRIDE_WINDOW);
            lemma_window_joined(before, task, base);
            lemma_window_coherent(before.push(task), base);
        }
        self.ready.push(task);
        proof {
            lemma_same_items(before.push(task), self.ready(), base);
        }
    }

    /// Takes the next task to run from the tasks that wait.
    #[verifier::rlimit(50)]
    fn pick(&mut self) -> (r: Option<usize>)
        requires
            old(self).queue_wf(),
            old(self).ready().len() <= N,
            priorities_ok(old(self).ready()),
            exists|base: u64| in_window(old(self).ready(), base),
        ensures
            final(self).wf(),
            old(self).ready().len() == 0 ==> r is None && final(self).current() is None
                && final(self).ready() == old(self).ready(),
            old(self).ready().len() > 0 ==> {
                &&& final(self).current() == Some(old(self).ready()[0])
                &&& r == Some(old(self).ready()[0].id)
                &&& is_minimal(old(self).ready()[0], old(self).ready())
                &&& final(self).ready().len() == old(self).ready().len() - 1
                &&& final(self).ready().to_multiset() == old(self).ready().to_multiset().remove(
                    old(self).ready()[0],
                )
            },
    {
        let ghost before = self.ready();
        let ghost base = choose|base: u64| in_window(before, base);
        proof {
            lemma_window_coherent(before, base);
        }
        match self.ready.pop() {
            Some(task) => {
                self.current = Some(task);
                proof {
                    let after = self.ready();
                    assert(before.contains(task));
                    before.to_multiset_ensures();
                    after.to_multiset_ensures();
                    assert forall|t: StrideTask| after.contains(t) implies before.contains(t) by {
                        assert(after.to_multiset().count(t) > 0);
                    }
                    assert forall|t: StrideTask| after.contains(t) implies wrapped_diff(
                        #[trigger] t.stride,
                        task.stride,
                    ) <= STRIDE_WINDOW by {
                        assert(before.contains(t));
                        let k = choose|k: int| 0 <= k < before.len() && before[k] == t;
                        assert(not_after(task, before[k]));
                        lemma_window_order(t.stride, task.stride, base);
                    }
                }
                Some(task.id)
            },
            None => {
                self.current = None;
                None
            },
        }
    }

    /// Starts the first task: the task with the least stride among those
    /// that wait. The result is its number, or `None` where no task waits.
    pub fn run_first(&mut self) -> (r: Option<usize>)
        requires
            old(self).wf(),
            old(self).current() is None,
        ensures
            final(self).wf(),
            old(self).ready().len() == 0 ==> r is None && final(self).current() is None && final(self).ready() == old(self).ready(),
            old(self).ready().len() > 0 ==> {
                &&& final(self).current() == Some(old(self).ready()[0])
                &&& r == Some(old(self).ready()[0].id)
                &&& is_minimal(old(self).ready()[0], old(self).ready())
                &&& final(self).ready().len() == old(self).ready().len() - 1
                &&& final(self).ready().to_multiset() == old(self).ready().to_multiset().remove(
                    old(self).ready()[0],
                )
            },
    {
        self.pick()
    }

    /// The task that runs yields: its stride moves on by the step of its
    /// priority, it joins the tasks that wait, and the task with the least
    /// stride among them runs next. The result is the number of that task.
    #[verifier::rlimit(50)]
    pub fn yield_current(&mut self) -> (r: usize)
        requires
            old(self).wf(),
            old(self).current() is Some,
            old(self).ready().len() < N,
        ensures
            final(self).wf(),
            final(self).current() is Some,
            r == final(self).current().unwrap().id,
            final(self).ready().len() == old(self).ready().len(),
            final(self).ready().to_multiset().insert(final(self).current().unwrap()) == old(
                self,
            ).ready().to_multiset().insert(yielded(old(self).current().unwrap())),
            forall|t: StrideTask|
                final(self).ready().contains(t) ==> !spec_stride_before(
                    #[trigger] t.stride,
                    final(self).current().unwrap().stride,
                ),
            !spec_stride_before(
                yielded(old(self).current().unwrap()).stride,
                final(self).current().unwrap().stride,
            ),
    {
        let cur = self.current.unwrap();
        let task = StrideTask {
            id: cur.id,
            priority: cur.priority,
            stride: stride_add(cur.stride, BIG_STRIDE / cur.priority),
        };
        let ghost before = self.ready();
        proof {
            assert(task == yielded(cur));
            let step = BIG_STRIDE / cur.priority;
            assert(step <= STRIDE_WINDOW) by (nonlinear_arith)
                requires
                    cur.priority >= 2,
                    step == 0xffff_ffff_ffff_ffffu64 / cur.priority,
            ;
            assert(wrapped_diff(task.stride, cur.stride) == step);
            before.to_multiset_ensures();
            lemma_window_joined(before, task, cur.stride);
            lemma_window_coherent(before.push(task), cur.stride);
        }
        self.ready.push(task);
        let ghost all = self.ready();
        proof {
            lemma_same_items(before.push(task), all, cur.stride);
            assert(priorities_ok(all)) by {
                all.to_multiset_ensures();
                before.to_multiset_ensures();
                assert forall|t: StrideTask| all.contains(t) implies (#[trigger] t.priority)
                    >= MIN_PRIORITY by {
                    assert(all.to_multiset().count(t) > 0);
                    if t != task {
                        assert(before.contains(t));
                    }
                }
            }
        }
        let next = self.pick();
        proof {
            let after = self.ready();
            let chosen = all[0];
            all.to_multiset_ensures();
            after.to_multiset_ensures();
            before.to_multiset_ensures();
            assert(all.contains(chosen));
            assert(after.to_multiset().insert(chosen) =~= all.to_multiset());
            assert forall|t: StrideTask| after.contains(t) implies !spec_stride_before(
                #[trigger] t.stride,
                chosen.stride,
            ) by {
                assert(after.to_multiset().count(t) > 0);
                assert(all.contains(t));
                let k = choose|k: int| 0 <= k < all.len() && all[k] == t;
                assert(not_after(chosen, all[k]));
            }
            assert(all.to_multiset().count(task) > 0);
            assert(all.contains(task));
            let k = choose|k: int| 0 <= k < all.len() && all[k] == task;
            assert(not_after(chosen, all[k]));
        }
        next.unwrap()
    }

    /// The task that runs exits: it is gone, and the task with the least
    /// stride among those that wait runs next. The result is the number of
    /// that task, or `None` where no task is left.
    pub fn exit_current(&mut self) -> (r: Option<usize>)
        requires
            old(self).wf(),
            old(self).current() is Some,
        ensures
            final(self).wf(),
            old(self).ready().len() == 0 ==> r is None && final(self).current() is None && final(self).ready() == old(self).ready(),
            old(self).ready().len() > 0 ==> {
                &&& final(self).current() == Some(old(self).ready()[0])
                &&& r == Some(old(self).ready()[0].id)
                &&& is_minimal(old(self).ready()[0], old(self).ready())
                &&& final(self).ready().len() == old(self).ready().len() - 1
                &&& final(self).ready().to_multiset() == old(self).ready().to_multiset().remove(
                    old(self).ready()[0],
                )
            },
    {
        self.current = None;
        self.pick()
    }

    /// Sets the priority of the task that runs. The result is `value`; it
    /// is -1, and nothing has changed, where `value` is below
    /// [`MIN_PRIORITY`] or no task runs.
    pub fn set_priority(&mut self, value: isize) -> (r: isize)
        requires
            old(self).wf(),
        ensures
            final(self).wf(),
            final(self).ready() == old(self).ready(),
            value >= 2 && old(self).current() is Some ==> r == value && final(self).current()
                == Some(
                StrideTask { priority: value as u64, ..old(self).current().unwrap() },
            ),
            value < 2 || old(self).current() is None ==> r == -1 && final(self).current() == old(
                self,
            ).current(),
    {
        if value < 2 {
            return -1;
        }
        match self.current {
            Some(cur) => {
                self.current = Some(
                    StrideTask { id: cur.id, priority: value as u64, stride: cur.stride },
                );
                value
            },
            None => -1,
        }
    }
}

/// The task `t` after it has run: its stride moved on by the step of its
/// priority.
pub open spec fn yielded(t: StrideTask) -> StrideTask {
    StrideTask { stride: spec_stride_add(t.stride, stride_step(t.priority)), ..t }
}

/// A task whose stride lies in the window joins the tasks of the window.
proof fn lemma_window_joined(s: Seq<StrideTask>, task: StrideTask, base: u64)
    requires
        in_window(s, base),
        wrapped_diff(task.stride, base) <= STRIDE_WINDOW,
    ensures
        in_window(s.push(task), base),
{
    assert forall|t: StrideTask| s.push(task).contains(t) implies wrapped_diff(
        #[trigger] t.stride,
        base,
    ) <= STRIDE_WINDOW by {
        let k = choose|k: int| 0 <= k < s.push(task).len() && s.push(task)[k] == t;
        if k < s.len() {
            assert(s[k] == t);
            assert(s.contains(t));
        }
    }
}

/// Tasks that are the same but for their order lie in the same window.
proof fn lemma_same_items(s: Seq<StrideTask>, r: Seq<StrideTask>, base: u64)
    requires
        in_window(s, base),
        r.to_multiset() == s.to_multiset(),
    ensures
        in_window(r, base),
        forall|t: StrideTask| r.contains(t) == s.contains(t),
{
    s.to_multiset_ensures();
    r.to_multiset_ensures();
    assert forall|t: StrideTask| r.contains(t) == s.contains(t) by {
        assert(r.to_multiset().count(t) == s.to_multiset().count(t));
        assert(r.contains(t) <==> r.to_multiset().count(t) > 0);
        assert(s.contains(t) <==> s.to_multiset().count(t) > 0);
    }
    assert forall|t: StrideTask| r.contains(t) implies wrapped_diff(#[trigger] t.stride, base)
        <= STRIDE_WINDOW by {
        assert(s.contains(t));
    }
}

} // verus!
