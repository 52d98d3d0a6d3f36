//! What every scheduling policy has to offer, and the two policies that
//! offer it: the round-robin queue of the task manager and the stride
//! scheduler.

use super::manager::{SwitchAction, TaskManager};
use super::stride::StrideScheduler;
use crate::mm::frame_allocator::StackFrameAllocator;
use crate::mm::memory::MemoryMap;
use vstd::prelude::*;

verus! {

/// A scheduling policy: at most one task runs, the others wait, and a task
/// leaves only when it exits.
pub trait Scheduler {
    /// What the policy needs besides its own state.
    type Env;

    /// The state of the policy is well formed.
    spec fn policy_wf(&self, env: &Self::Env) -> bool;

    /// The number of the application of the task that runs, if one runs.
    spec fn running_id(&self) -> Option<int>;

    /// The number of tasks that wait to run.
    spec fn waiting(&self) -> nat;

    /// One more task can wait.
    spec fn has_room(&self) -> bool;

    /// Starts the first task. The result is the number of its application,
    /// or `None` where no task waits.
    fn start(&mut self, env: &mut Self::Env) -> (r: Option<usize>)
        requires
            old(self).policy_wf(old(env)),
            old(self).running_id() is None,
        ensures
            final(self).policy_wf(final(env)),
            r is None <==> old(self).waiting() == 0,
            r is None ==> final(self).running_id() is None && final(self).waiting() == 0,
            r matches Some(id) ==> final(self).running_id() == Some(id as int) && final(self).waiting() == old(self).waiting() - 1,
    ;

    /// The task that runs yields and waits again; another task, or the same
    /// one, runs. The result is the number of its application.
    fn next_after_yield(&mut self, env: &mut Self::Env) -> (r: usize)
        requires
            old(self).policy_wf(old(env)),
            old(self).running_id() is Some,
            old(self).has_room(),
        ensures
            final(self).policy_wf(final(env)),
            final(self).running_id() == Some(r as int),
            final(self).waiting() == old(self).waiting(),
    ;

    /// The task that runs exits for good; another task runs. The result is
    /// the number of its application, or `None` where no task is left.
    fn next_after_exit(&mut self, env: &mut Self::Env) -> (r: Option<usize>)
        requires
            old(self).policy_wf(old(env)),
            old(self).running_id() is Some,
        ensures
            final(self).policy_wf(final(env)),
            r is None <==> old(self).waiting() == 0,
            r is None ==> final(self).running_id() is None && final(self).waiting() == 0,
            r matches Some(id) ==> final(self).running_id() == Some(id as int) && final(self).waiting() == old(self).waiting() - 1,
    ;
}

impl<const N: usize> Scheduler for StrideScheduler<N> {
    type Env = ();

    open spec fn policy_wf(&self, env: &()) -> bool {
        self.wf()
    }

    open spec fn running_id(&self) -> Option<int> {
        match self.current() {
            Some(task) => Some(task.id as int),
            None => None,
        }
    }

    open spec fn waiting(&self) -> nat {
        self.ready().len()
    }

    open spec fn has_room(&self) -> bool {
        self.ready().len() < N
    }

    fn start(&mut self, env: &mut ()) -> (r: Option<usize>) {
        self.run_first()
    }

    fn next_after_yield(&mut self, env: &mut ()) -> (r: usize) {
        self.yield_current()
    }

    fn next_after_exit(&mut self, env: &mut ()) -> (r: Option<usize>) {
        self.exit_current()
    }
}

impl Scheduler for TaskManager {
    type Env = StackFrameAllocator;

    open spec fn policy_wf(&self, env: &StackFrameAllocator) -> bool {
        env.wf() && exists|m: MemoryMap| self.wf(m, env@)
    }

    open spec fn running_id(&self) -> Option<int> {
        if self.tasks().len() > 0 && self.tasks().last().is_running() {
            Some(self.tasks().last().id())
        } else {
            None
        }
    }

    open spec fn waiting(&self) -> nat {
        if self.tasks().len() > 0 && self.tasks().last().is_running() {
            (self.tasks().len() - 1) as nat
        } else {
            self.tasks().len()
        }
    }

    open spec fn has_room(&self) -> bool {
        true
    }

    fn start(&mut self, env: &mut StackFrameAllocator) -> (r: Option<usize>) {
        let ghost m = choose|m: MemoryMap| self.wf(m, env@);
        assert(self.wf(m, env@));
        let action = self.run_next_task(env, false);
        assert(self.wf(m, env@));
        match action {
            SwitchAction::Halt => None,
            _ => Some(self.task(self.len() - 1).app_id()),
        }
    }

    fn next_after_yield(&mut self, env: &mut StackFrameAllocator) -> (r: usize) {
        let ghost m = choose|m: MemoryMap| self.wf(m, env@);
        assert(self.wf(m, env@));
        let action = self.run_next_task(env, false);
        assert(self.wf(m, env@));
        self.task(self.len() - 1).app_id()
    }

    fn next_after_exit(&mut self, env: &mut StackFrameAllocator) -> (r: Option<usize>) {
        let ghost m = choose|m: MemoryMap| self.wf(m, env@);
        assert(self.wf(m, env@));
        let action = self.run_next_task(env, true);
        assert(self.wf(m, env@));
        match action {
            SwitchAction::Halt => None,
            _ => Some(self.task(self.len() - 1).app_id()),
        }
    }
}

} // verus!
