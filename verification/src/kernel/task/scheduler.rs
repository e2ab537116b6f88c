use vstd::prelude::*;
use super::context::Context;

verus! {

/// Stack bytes per task.
pub const TASK_STACK_SIZE: usize = 16384;

/// Timer ticks a task runs before it is preempted.
pub const DEFAULT_QUANTUM: u32 = 10;

#[derive(Debug, Clone, Copy, PartialEq, Eq, Structural)]
pub struct TaskId(pub u64);

#[derive(Debug, Clone, Copy, PartialEq, Eq, Structural)]
pub enum TaskState {
    Ready,
    Running,
    Terminated,
}

pub struct Task {
    pub id: TaskId,
    pub state: TaskState,
    pub context: Context,
    pub name: &'static str,
    pub quantum_remaining: u32,
    pub stack: Option<Vec<u8>>,
}

/// Little-endian bytes of a 64-bit word.
pub open spec fn le64(w: u64) -> Seq<u8> {
    seq![
        (w % 256) as u8,
        ((w / 0x100) % 256) as u8,
        ((w / 0x1_0000) % 256) as u8,
        ((w / 0x100_0000) % 256) as u8,
        ((w / 0x1_0000_0000) % 256) as u8,
        ((w / 0x100_0000_0000) % 256) as u8,
        ((w / 0x1_0000_0000_0000) % 256) as u8,
        ((w / 0x100_0000_0000_0000) % 256) as u8,
    ]
}

/// The first frame a task's stack holds, lowest address first: the saved
/// r15, r14, r13 (zero), r12 (the entry function), rbx, rbp (zero), and the
/// address the first switch returns to.
pub open spec fn initial_frame(entry: u64, trampoline: u64) -> Seq<u8> {
    le64(0) + le64(0) + le64(0) + le64(entry) + le64(0) + le64(0) + le64(trampoline)
}

fn push_u64(out: &mut Vec<u8>, w: u64)
    ensures
        final(out)@ == old(out)@ + le64(w),
{
    out.push((w % 256) as u8);
    out.push(((w / 0x100) % 256) as u8);
    out.push(((w / 0x1_0000) % 256) as u8);
    out.push(((w / 0x100_0000) % 256) as u8);
    out.push(((w / 0x1_0000_0000) % 256) as u8);
    out.push(((w / 0x100_0000_0000) % 256) as u8);
    out.push(((w / 0x1_0000_0000_0000) % 256) as u8);
    out.push(((w / 0x100_0000_0000_0000) % 256) as u8);
    assert(final(out)@ =~= old(out)@ + le64(w));
}

pub open spec fn runnable(s: TaskState) -> bool {
    s == TaskState::Ready || s == TaskState::Running
}

impl Task {
    /// A ready task that starts at `entry` through `trampoline`, on `stack`,
    /// whose end lies at address `stack_top`: the top 56 bytes of the stack
    /// become the first frame and the saved stack pointer points at it.
    pub fn new(id: TaskId, name: &'static str, stack: Vec<u8>, stack_top: u64, entry: u64, trampoline: u64) -> (t: Task)
        requires
            stack@.len() == TASK_STACK_SIZE,
            stack_top >= 56,
        ensures
            t.id == id,
            t.state == TaskState::Ready,
            t.name == name,
            t.quantum_remaining == DEFAULT_QUANTUM,
            t.context == (Context { rsp: (stack_top - 56) as u64, ..Context::empty_spec() }),
            t.stack matches Some(s) && s@ == stack@.subrange(0, TASK_STACK_SIZE - 56)
                + initial_frame(entry, trampoline),
    {
        let mut frame: Vec<u8> = Vec::new();
        push_u64(&mut frame, 0);
        push_u64(&mut frame, 0);
        push_u64(&mut frame, 0);
        push_u64(&mut frame, entry);
        push_u64(&mut frame, 0);
        push_u64(&mut frame, 0);
        push_u64(&mut frame, trampoline);
        assert(frame@ =~= initial_frame(entry, trampoline));
        let mut stack = stack;
        stack.truncate(TASK_STACK_SIZE - 56);
        stack.append(&mut frame);
        let mut ctx = Context::empty();
        ctx.rsp = stack_top - 56;
        Task {
            id,
            state: TaskState::Ready,
            context: ctx,
            name,
            quantum_remaining: DEFAULT_QUANTUM,
            stack: Some(stack),
        }
    }

    /// The task standing for the running kernel thread: id 0, running, on the kernel stack.
    pub fn kernel_task() -> (t: Task)
        ensures
            t.id == TaskId(0),
            t.state == TaskState::Running,
            t.context == Context::empty_spec(),
            t.name@ == "kernel"@,
            t.quantum_remaining == DEFAULT_QUANTUM,
            t.stack is None,
    {
        Task {
            id: TaskId(0),
            state: TaskState::Running,
            context: Context::empty(),
            name: "kernel",
            quantum_remaining: DEFAULT_QUANTUM,
            stack: None,
        }
    }
}


pub open spec fn with_state(t: Task, s: TaskState) -> Task {
    Task { state: s, ..t }
}

pub open spec fn with_quantum(t: Task, q: u32) -> Task {
    Task { quantum_remaining: q, ..t }
}

/// The smallest offset `k` in `start..=len` at which the task `(cur + k) % len` can run.
pub open spec fn first_runnable(ts: Seq<Task>, cur: int, k: int) -> Option<int>
    decreases ts.len() + 1 - k,
{
    if k > ts.len() || k < 1 {
        None
    } else if runnable(ts[(cur + k) % (ts.len() as int)].state) {
        Some(k)
    } else {
        first_runnable(ts, cur, k + 1)
    }
}

/// The task to switch to: the next runnable one after `cur`, round-robin, if
/// it is not `cur` itself.
pub open spec fn switch_target(ts: Seq<Task>, cur: int) -> Option<int> {
    match first_runnable(ts, cur, 1) {
        Some(k) => if k < ts.len() {
            Some((cur + k) % (ts.len() as int))
        } else {
            None
        },
        None => None,
    }
}

/// The tasks after a switch decision: without a target the current task gets
/// a fresh quantum; with one, a running current task becomes ready and the
/// target runs with a fresh quantum.
pub open spec fn switched_tasks(ts: Seq<Task>, cur: int) -> Seq<Task> {
    match switch_target(ts, cur) {
        None => ts.update(cur, with_quantum(ts[cur], DEFAULT_QUANTUM)),
        Some(ni) => {
            let ts1 = ts.update(
                cur,
                with_state(
                    ts[cur],
                    if ts[cur].state == TaskState::Running {
                        TaskState::Ready
                    } else {
                        ts[cur].state
                    },
                ),
            );
            ts1.update(ni, with_quantum(with_state(ts1[ni], TaskState::Running), DEFAULT_QUANTUM))
        },
    }
}

/// Whether a task stays on cleanup: the kernel task, the current task (of id
/// `cid`), or any task not terminated.
pub open spec fn kept(t: Task, cid: TaskId) -> bool {
    t.id == TaskId(0) || t.id == cid || t.state != TaskState::Terminated
}

pub open spec fn kept_pred(cid: TaskId) -> spec_fn(Task) -> bool {
    |t: Task| kept(t, cid)
}

/// The tasks that stay on cleanup, in order.
pub open spec fn kept_tasks(ts: Seq<Task>, cid: TaskId) -> Seq<Task> {
    ts.filter(kept_pred(cid))
}

/// The index of the first running task at or after `k`.
pub open spec fn first_running(ts: Seq<Task>, k: int) -> Option<int>
    decreases ts.len() - k,
{
    if k >= ts.len() || k < 0 {
        None
    } else if ts[k].state == TaskState::Running {
        Some(k)
    } else {
        first_running(ts, k + 1)
    }
}

/// The task table and which task runs.
pub struct Scheduler {
    tasks: Vec<Task>,
    current: usize,
    next_id: u64,
}

proof fn lemma_mod_wrap(a: int, n: int)
    requires
        0 <= a < 2 * n,
        n > 0,
    ensures
        a % n == if a < n {
            a
        } else {
            a - n
        },
{
    if a < n {
        vstd::arithmetic::div_mod::lemma_small_mod(a as nat, n as nat);
    } else {
        vstd::arithmetic::div_mod::lemma_small_mod((a - n) as nat, n as nat);
        vstd::arithmetic::div_mod::lemma_mod_sub_multiples_vanish(a, n);
    }
}

impl Scheduler {
    pub closed spec fn tasks_spec(&self) -> Seq<Task> {
        self.tasks@
    }

    pub closed spec fn current_spec(&self) -> int {
        self.current as int
    }

    /// The id the next spawned task gets.
    pub closed spec fn next_id_spec(&self) -> u64 {
        self.next_id
    }

    /// At least the kernel task, first, with id 0; ids strictly increasing and
    /// below the next id; the current index in range; no task runs but the
    /// current one.
    pub open spec fn wf(&self) -> bool {
        let ts = self.tasks_spec();
        &&& ts.len() >= 1
        &&& 0 <= self.current_spec() < ts.len()
        &&& ts[0].id == TaskId(0)
        &&& forall|i: int, j: int| 0 <= i < j < ts.len() ==> (#[trigger] ts[i]).id.0 < (#[trigger] ts[j]).id.0
        &&& forall|i: int| 0 <= i < ts.len() ==> (#[trigger] ts[i]).id.0 < self.next_id_spec()
        &&& forall|i: int| 0 <= i < ts.len() && (#[trigger] ts[i]).state == TaskState::Running ==> i
            == self.current_spec()
    }

    /// Only the kernel task, named "kernel", running; the next task gets id 1.
    pub fn new() -> (s: Scheduler)
        ensures
            s.wf(),
            s.tasks_spec().len() == 1,
            s.tasks_spec()[0].id == TaskId(0),
            s.tasks_spec()[0].state == TaskState::Running,
            s.tasks_spec()[0].quantum_remaining == DEFAULT_QUANTUM,
            s.tasks_spec()[0].name@ == "kernel"@,
            s.tasks_spec()[0].context == Context::empty_spec(),
            s.tasks_spec()[0].stack is None,
            s.current_spec() == 0,
            s.next_id_spec() == 1,
    {
        let mut tasks: Vec<Task> = Vec::new();
        tasks.push(Task::kernel_task());
        Scheduler { tasks, current: 0, next_id: 1 }
    }

    /// Adds a ready task with the next id; returns that id.
    pub fn spawn(&mut self, name: &'static str, stack: Vec<u8>, stack_top: u64, entry: u64, trampoline: u64) -> (id: TaskId)
        requires
            old(self).wf(),
            old(self).next_id_spec() < u64::MAX,
            stack@.len() == TASK_STACK_SIZE,
            stack_top >= 56,
        ensures
            final(self).wf(),
            id == TaskId(old(self).next_id_spec()),
            final(self).next_id_spec() == old(self).next_id_spec() + 1,
            final(self).current_spec() == old(self).current_spec(),
            final(self).tasks_spec().len() == old(self).tasks_spec().len() + 1,
            final(self).tasks_spec().drop_last() == old(self).tasks_spec(),
            ({
                let t = final(self).tasks_spec().last();
                &&& t.id == id
                &&& t.state == TaskState::Ready
                &&& t.name == name
                &&& t.quantum_remaining == DEFAULT_QUANTUM
                &&& t.context == (Context { rsp: (stack_top - 56) as u64, ..Context::empty_spec() })
                &&& t.stack matches Some(s) && s@ == stack@.subrange(0, TASK_STACK_SIZE - 56)
                    + initial_frame(entry, trampoline)
            }),
    {
        let id = TaskId(self.next_id);
        let task = Task::new(id, name, stack, stack_top, entry, trampoline);
        self.tasks.push(task);
        self.next_id = self.next_id + 1;
        assert(self.tasks@.drop_last() =~= old(self).tasks@);
        id
    }

    fn set_state(&mut self, i: usize, st: TaskState)
        requires
            i < old(self).tasks@.len(),
        ensures
            final(self).tasks@ == old(self).tasks@.update(i as int, with_state(old(self).tasks@[i as int], st)),
            final(self).current == old(self).current,
            final(self).next_id == old(self).next_id,
    {
        let mut t = self.tasks.remove(i);
        t.state = st;
        self.tasks.insert(i, t);
        assert(self.tasks@ =~= old(self).tasks@.update(i as int, with_state(old(self).tasks@[i as int], st)));
    }

    fn set_quantum(&mut self, i: usize, q: u32)
        requires
            i < old(self).tasks@.len(),
        ensures
            final(self).tasks@ == old(self).tasks@.update(i as int, with_quantum(old(self).tasks@[i as int], q)),
            final(self).current == old(self).current,
            final(self).next_id == old(self).next_id,
    {
        let mut t = self.tasks.remove(i);
        t.quantum_remaining = q;
        self.tasks.insert(i, t);
        assert(self.tasks@ =~= old(self).tasks@.update(i as int, with_quantum(old(self).tasks@[i as int], q)));
    }

    fn find_and_switch(&mut self) -> (r: Option<(usize, usize)>)
        requires
            old(self).wf(),
        ensures
            final(self).wf(),
            final(self).next_id_spec() == old(self).next_id_spec(),
            final(self).tasks_spec() == switched_tasks(old(self).tasks_spec(), old(self).current_spec()),
            match switch_target(old(self).tasks_spec(), old(self).current_spec()) {
                None => r is None && final(self).current_spec() == old(self).current_spec(),
                Some(ni) => r == Some((old(self).current as usize, ni as usize)) && final(self).current_spec() == ni,
            },
    {
        let ghost ts = self.tasks@;
        let ghost cur = self.current as int;
        let len = self.tasks.len();
        let old_idx = self.current;
        let mut k: usize = 1;
        while k < len
            invariant
                1 <= k <= len,
                len == ts.len(),
                self.tasks@ == ts,
                ts == old(self).tasks@,
                old(self).wf(),
                self.next_id == old(self).next_id,
                self.current == old_idx,
                old_idx == cur,
                cur == old(self).current as int,
                old_idx < len,
                first_runnable(ts, cur, 1) == first_runnable(ts, cur, k as int),
            decreases len + 1 - k,
        {
            let idx = if k >= len - old_idx { k - (len - old_idx) } else { old_idx + k };
            proof {
                lemma_mod_wrap(cur + k, len as int);
            }
            let st = self.tasks[idx].state;
            if st == TaskState::Ready || st == TaskState::Running {
                if self.tasks[old_idx].state == TaskState::Running {
                    self.set_state(old_idx, TaskState::Ready);
                }
                self.set_state(idx, TaskState::Running);
                self.set_quantum(idx, DEFAULT_QUANTUM);
                self.current = idx;
                proof {
                    assert(first_runnable(ts, cur, k as int) == Some(k as int));
                    assert(switch_target(ts, cur) == Some(idx as int));
                    assert(self.tasks@ =~= switched_tasks(ts, cur));
                    assert forall|i: int| 0 <= i < ts.len() implies (#[trigger] self.tasks@[i]).id == ts[i].id by {}
                }
                return Some((old_idx, idx));
            }
            k = k + 1;
        }
        self.set_quantum(old_idx, DEFAULT_QUANTUM);
        proof {
            assert(k == len);
            assert(first_runnable(ts, cur, k as int + 1) is None);
            assert(switch_target(ts, cur) is None);
            assert(self.tasks@ =~= switched_tasks(ts, cur));
            assert forall|i: int| 0 <= i < ts.len() implies (#[trigger] self.tasks@[i]).id == ts[i].id by {}
        }
        None
    }
}


impl Scheduler {
    /// A timer tick: the current task uses up one tick of its quantum; when
    /// none is left, the next runnable task is chosen. Returns the indices of
    /// the tasks to switch from and to.
    pub fn schedule_preempt(&mut self) -> (r: Option<(usize, usize)>)
        requires
            old(self).wf(),
        ensures
            final(self).wf(),
            final(self).next_id_spec() == old(self).next_id_spec(),
            ({
                let ts = old(self).tasks_spec();
                let cur = old(self).current_spec();
                let q = ts[cur].quantum_remaining;
                let ts1 = if q > 0 {
                    ts.update(cur, with_quantum(ts[cur], (q - 1) as u32))
                } else {
                    ts
                };
                if ts.len() <= 1 || q > 1 {
                    &&& r is None
                    &&& final(self).current_spec() == cur
                    &&& final(self).tasks_spec() == if ts.len() <= 1 { ts } else { ts1 }
                } else {
                    &&& final(self).tasks_spec() == switched_tasks(ts1, cur)
                    &&& match switch_target(ts1, cur) {
                        None => r is None && final(self).current_spec() == cur,
                        Some(ni) => r == Some((cur as usize, ni as usize)) && final(self).current_spec() == ni,
                    }
                }
            }),
    {
        if self.tasks.len() <= 1 {
            return None;
        }
        let cur = self.current;
        let q = self.tasks[cur].quantum_remaining;
        if q > 0 {
            self.set_quantum(cur, q - 1);
            proof {
                assert forall|i: int| 0 <= i < self.tasks@.len() implies (#[trigger] self.tasks@[i]).id == old(self).tasks@[i].id by {}
            }
            if q - 1 > 0 {
                return None;
            }
        }
        self.find_and_switch()
    }

    /// A cooperative yield: the next runnable task is chosen.
    pub fn schedule_yield(&mut self) -> (r: Option<(usize, usize)>)
        requires
            old(self).wf(),
        ensures
            final(self).wf(),
            final(self).next_id_spec() == old(self).next_id_spec(),
            old(self).tasks_spec().len() <= 1 ==> r is None && final(self).tasks_spec() == old(self).tasks_spec()
                && final(self).current_spec() == old(self).current_spec(),
            old(self).tasks_spec().len() > 1 ==> {
                &&& final(self).tasks_spec() == switched_tasks(old(self).tasks_spec(), old(self).current_spec())
                &&& match switch_target(old(self).tasks_spec(), old(self).current_spec()) {
                    None => r is None && final(self).current_spec() == old(self).current_spec(),
                    Some(ni) => r == Some((old(self).current_spec() as usize, ni as usize))
                        && final(self).current_spec() == ni,
                }
            },
    {
        if self.tasks.len() <= 1 {
            return None;
        }
        self.find_and_switch()
    }

    /// Marks the current task terminated.
    pub fn terminate_current(&mut self)
        requires
            old(self).wf(),
        ensures
            final(self).wf(),
            final(self).next_id_spec() == old(self).next_id_spec(),
            final(self).current_spec() == old(self).current_spec(),
            final(self).tasks_spec() == old(self).tasks_spec().update(
                old(self).current_spec(),
                with_state(old(self).tasks_spec()[old(self).current_spec()], TaskState::Terminated),
            ),
    {
        let cur = self.current;
        self.set_state(cur, TaskState::Terminated);
        proof {
            assert forall|i: int| 0 <= i < self.tasks@.len() implies (#[trigger] self.tasks@[i]).id == old(self).tasks@[i].id by {}
        }
    }

    /// Terminates the live task with id `id`; false where there is none.
    pub fn kill_task(&mut self, id: TaskId) -> (r: bool)
        requires
            old(self).wf(),
        ensures
            final(self).wf(),
            final(self).next_id_spec() == old(self).next_id_spec(),
            final(self).current_spec() == old(self).current_spec(),
            r == exists|i: int|
                0 <= i < old(self).tasks_spec().len() && (#[trigger] old(self).tasks_spec()[i]).id == id
                    && old(self).tasks_spec()[i].state != TaskState::Terminated,
            final(self).tasks_spec().len() == old(self).tasks_spec().len(),
            forall|i: int|
                0 <= i < old(self).tasks_spec().len() ==> #[trigger] final(self).tasks_spec()[i] == if r
                    && old(self).tasks_spec()[i].id == id {
                    with_state(old(self).tasks_spec()[i], TaskState::Terminated)
                } else {
                    old(self).tasks_spec()[i]
                },
    {
        let ghost ts = self.tasks@;
        let mut i: usize = 0;
        while i < self.tasks.len()
            invariant
                i <= ts.len(),
                self.tasks@ == ts,
                ts == old(self).tasks@,
                old(self).wf(),
                self.current == old(self).current,
                self.next_id == old(self).next_id,
                forall|j: int| 0 <= j < i ==> !((#[trigger] ts[j]).id == id && ts[j].state != TaskState::Terminated),
            decreases ts.len() - i,
        {
            if self.tasks[i].id == id && self.tasks[i].state != TaskState::Terminated {
                self.set_state(i, TaskState::Terminated);
                proof {
                    assert forall|j: int| 0 <= j < ts.len() && ts[j].id == id implies j == i by {
                        if j < i {
                            assert(ts[j].id.0 < ts[i as int].id.0);
                        } else if j > i {
                            assert(ts[i as int].id.0 < ts[j].id.0);
                        }
                    }
                    assert forall|j: int| 0 <= j < self.tasks@.len() implies (#[trigger] self.tasks@[j]).id == ts[j].id by {}
                }
                return true;
            }
            i = i + 1;
        }
        false
    }

    /// The id the next spawned task gets.
    pub fn next_id(&self) -> (r: u64)
        ensures
            r == self.next_id_spec(),
    {
        self.next_id
    }

    /// The saved registers of task `i`, for a task switch to save into or
    /// load from; the rest of the table stays as it is.
    pub fn context_mut(&mut self, i: usize) -> (r: &mut Context)
        requires
            i < old(self).tasks_spec().len(),
        ensures
            *r == old(self).tasks_spec()[i as int].context,
            final(self).tasks_spec() == old(self).tasks_spec().update(
                i as int,
                Task { context: *final(r), ..old(self).tasks_spec()[i as int] },
            ),
            final(self).current_spec() == old(self).current_spec(),
            final(self).next_id_spec() == old(self).next_id_spec(),
    {
        &mut self.tasks[i].context
    }

    /// All tasks, in table order.
    pub fn task_list(&self) -> (r: &[Task])
        ensures
            r@ == self.tasks_spec(),
    {
        self.tasks.as_slice()
    }

    /// Drops terminated tasks except the kernel task and the current task;
    /// the current index follows the current task to its new place.
    pub fn cleanup_terminated(&mut self)
        requires
            old(self).wf(),
        ensures
            final(self).wf(),
            ({
                let ts = old(self).tasks_spec();
                let cur = old(self).current_spec();
                &&& final(self).tasks_spec() == kept_tasks(ts, ts[cur].id)
                &&& final(self).current_spec() == kept_tasks(ts.take(cur), ts[cur].id).len()
                &&& final(self).tasks_spec()[final(self).current_spec()] == ts[cur]
            }),
            final(self).next_id_spec() == old(self).next_id_spec(),
    {
        let ghost ts = self.tasks@;
        let cur = self.current;
        let cid = self.tasks[cur].id;
        let mut old_tasks: Vec<Task> = Vec::new();
        std::mem::swap(&mut old_tasks, &mut self.tasks);
        let mut keep: Vec<Task> = Vec::new();
        let n = old_tasks.len();
        let mut i: usize = 0;
        let mut new_cur: usize = 0;
        proof {
            assert(ts.take(0) =~= Seq::<Task>::empty());
            lemma_kept_empty(ts.take(0), cid);
        }
        // Move each task out from the back so that the order can be rebuilt.
        let mut rev: Vec<Task> = Vec::new();
        while old_tasks.len() > 0
            invariant
                ts == old(self).tasks@,
                old_tasks@.len() + rev@.len() == ts.len(),
                forall|j: int| 0 <= j < old_tasks@.len() ==> #[trigger] old_tasks@[j] == ts[j],
                forall|j: int| 0 <= j < rev@.len() ==> #[trigger] rev@[j] == ts[ts.len() - 1 - j],
            decreases old_tasks@.len(),
        {
            let t = old_tasks.pop().unwrap();
            rev.push(t);
        }
        while i < n
            invariant
                i <= n,
                n == ts.len(),
                ts == old(self).tasks@,
                old(self).wf(),
                cur == old(self).current_spec(),
                cid == ts[cur as int].id,
                rev@.len() == n - i,
                forall|j: int| 0 <= j < rev@.len() ==> #[trigger] rev@[j] == ts[ts.len() - 1 - j],
                keep@ == kept_tasks(ts.take(i as int), cid),
                i > 0 ==> keep@.len() >= 1 && keep@[0].id == TaskId(0),
                forall|a: int, b: int| 0 <= a < b < keep@.len() ==> (#[trigger] keep@[a]).id.0 < (#[trigger] keep@[b]).id.0,
                forall|a: int| 0 <= a < keep@.len() ==> (#[trigger] keep@[a]).id.0 < old(self).next_id_spec(),
                i < n && keep@.len() > 0 ==> keep@.last().id.0 < ts[i as int].id.0,
                i > cur ==> new_cur < keep@.len() && keep@[new_cur as int] == ts[cur as int],
                i > cur ==> new_cur == kept_tasks(ts.take(cur as int), cid).len(),
                forall|a: int| 0 <= a < keep@.len() && (#[trigger] keep@[a]).state == TaskState::Running ==> i > cur && a == new_cur,
            decreases n - i,
        {
            let t = rev.pop().unwrap();
            proof {
                assert(t == ts[i as int]);
                assert(ts.take(i + 1).drop_last() =~= ts.take(i as int));
                lemma_kept_step(ts.take(i + 1), cid);
                assert(ts.take(i + 1).last() == ts[i as int]);
                if i + 1 < n {
                    assert(ts[i as int].id.0 < ts[i + 1].id.0);
                }
                if t.state == TaskState::Running {
                    assert(i == cur);
                }
            }
            if i == cur {
                new_cur = keep.len();
            }
            if t.id == TaskId(0) || t.id == cid || t.state != TaskState::Terminated {
                keep.push(t);
            }
            i = i + 1;
        }
        proof {
            assert(ts.take(n as int) =~= ts);
            assert(ts.take(cur as int).len() == cur);
        }
        self.tasks = keep;
        self.current = new_cur;
    }
}

/// The id that `spawn` hands out next is no id in the table and not the
/// kernel's 0; as `spawn` then moves the next id up by one, the ids of
/// successive spawns strictly increase.
pub proof fn law_spawn_fresh_ids(s: Scheduler)
    requires
        s.wf(),
    ensures
        s.next_id_spec() >= 1,
        forall|i: int| 0 <= i < s.tasks_spec().len() ==> (#[trigger] s.tasks_spec()[i]).id != TaskId(s.next_id_spec()),
{
    assert(s.tasks_spec()[0].id.0 < s.next_id_spec());
}

proof fn lemma_first_runnable(ts: Seq<Task>, cur: int, k: int)
    requires
        ts.len() > 0,
        1 <= k,
    ensures
        first_runnable(ts, cur, k) matches Some(m) ==> {
            &&& k <= m <= ts.len()
            &&& (ts[(cur + m) % (ts.len() as int)].state == TaskState::Ready
                || ts[(cur + m) % (ts.len() as int)].state == TaskState::Running)
            &&& forall|j: int| k <= j < m ==> #[trigger] ts[(cur + j) % (ts.len() as int)].state
                == TaskState::Terminated
        },
        first_runnable(ts, cur, k) is None ==> forall|j: int| k <= j <= ts.len() ==> #[trigger] ts[(cur + j)
            % (ts.len() as int)].state == TaskState::Terminated,
    decreases ts.len() + 1 - k,
{
    if k <= ts.len() {
        lemma_first_runnable(ts, cur, k + 1);
        let t = ts[(cur + k) % (ts.len() as int)].state;
        assert(t == TaskState::Ready || t == TaskState::Running || t == TaskState::Terminated);
    }
}

/// Round robin: the task switched to is the first task after the current
/// one, in index order wrapping around to 0, that is ready or running; every
/// task passed over on the way is terminated. No switch is made only when
/// every other task is terminated.
pub proof fn law_round_robin(ts: Seq<Task>, cur: int)
    requires
        0 <= cur < ts.len(),
    ensures
        switch_target(ts, cur) matches Some(t) ==> {
            let d = if t > cur { t - cur } else { t - cur + ts.len() };
            &&& 0 <= t < ts.len()
            &&& t != cur
            &&& (ts[t].state == TaskState::Ready || ts[t].state == TaskState::Running)
            &&& forall|j: int| 1 <= j < d ==> #[trigger] ts[(cur + j) % (ts.len() as int)].state
                == TaskState::Terminated
        },
        switch_target(ts, cur) is None ==> forall|i: int| 0 <= i < ts.len() && i != cur ==> #[trigger] ts[i].state
            == TaskState::Terminated,
{
    let n = ts.len() as int;
    lemma_first_runnable(ts, cur, 1);
    match first_runnable(ts, cur, 1) {
        Some(m) => {
            lemma_mod_wrap(cur + m, n);
            if m < n {
                let t = (cur + m) % n;
                assert(switch_target(ts, cur) == Some(t));
                assert(t == if cur + m < n { cur + m } else { cur + m - n });
            } else {
                assert forall|i: int| 0 <= i < n && i != cur implies #[trigger] ts[i].state == TaskState::Terminated by {
                    let j = if i > cur { i - cur } else { i - cur + n };
                    lemma_mod_wrap(cur + j, n);
                    assert(ts[(cur + j) % n].state == TaskState::Terminated);
                }
            }
        },
        None => {
            assert forall|i: int| 0 <= i < n && i != cur implies #[trigger] ts[i].state == TaskState::Terminated by {
                let j = if i > cur { i - cur } else { i - cur + n };
                lemma_mod_wrap(cur + j, n);
                assert(ts[(cur + j) % n].state == TaskState::Terminated);
            }
        },
    }
}

/// A switch makes the chosen task run with a fresh quantum and puts a running
/// current task back to ready; every other task stays as it was. Without a
/// switch, only the current task's quantum is renewed.
pub proof fn law_switch_states(ts: Seq<Task>, cur: int)
    requires
        0 <= cur < ts.len(),
    ensures
        ({
            let after = switched_tasks(ts, cur);
            &&& after.len() == ts.len()
            &&& match switch_target(ts, cur) {
                Some(t) => {
                    &&& after[t].id == ts[t].id && after[t].name == ts[t].name
                    &&& after[t].state == TaskState::Running
                    &&& after[t].quantum_remaining == DEFAULT_QUANTUM
                    &&& after[cur].state == if ts[cur].state == TaskState::Running {
                        TaskState::Ready
                    } else {
                        ts[cur].state
                    }
                    &&& after[cur].quantum_remaining == ts[cur].quantum_remaining
                    &&& forall|i: int| 0 <= i < ts.len() && i != t && i != cur ==> #[trigger] after[i] == ts[i]
                },
                None => {
                    &&& after[cur].state == ts[cur].state
                    &&& after[cur].quantum_remaining == DEFAULT_QUANTUM
                    &&& forall|i: int| 0 <= i < ts.len() && i != cur ==> #[trigger] after[i] == ts[i]
                },
            }
        }),
{
    law_round_robin(ts, cur);
}

/// Cleaning up keeps, in order, exactly the kernel task, the current task
/// (of id `cid`) and the tasks that are not terminated.
pub proof fn law_cleanup_keeps(ts: Seq<Task>, cid: TaskId)
    ensures
        ({
            let ks = kept_tasks(ts, cid);
            &&& forall|i: int| 0 <= i < ks.len() ==> ts.contains(#[trigger] ks[i]) && (ks[i].id == TaskId(0)
                || ks[i].id == cid || ks[i].state != TaskState::Terminated)
            &&& forall|i: int| 0 <= i < ts.len() && (ts[i].id == TaskId(0) || ts[i].id == cid || ts[i].state
                != TaskState::Terminated) ==> ks.contains(#[trigger] ts[i])
            &&& forall|i: int| 0 <= i < ts.len() && ts[i].id != TaskId(0) && ts[i].id != cid && ts[i].state
                == TaskState::Terminated ==> !ks.contains(#[trigger] ts[i])
        }),
{
    broadcast use vstd::seq_lib::group_filter_ensures;
    let ks = kept_tasks(ts, cid);
    assert forall|i: int| 0 <= i < ks.len() implies ts.contains(#[trigger] ks[i]) && (ks[i].id == TaskId(0)
        || ks[i].id == cid || ks[i].state != TaskState::Terminated) by {
        ts.lemma_filter_contains_rev(kept_pred(cid), ks[i]);
        assert(kept_pred(cid)(ks[i]));
    }
    assert forall|i: int| 0 <= i < ts.len() && (ts[i].id == TaskId(0) || ts[i].id == cid || ts[i].state
        != TaskState::Terminated) implies ks.contains(#[trigger] ts[i]) by {
        ts.lemma_filter_contains(kept_pred(cid), i);
    }
    assert forall|i: int| 0 <= i < ts.len() && ts[i].id != TaskId(0) && ts[i].id != cid && ts[i].state
        == TaskState::Terminated implies !ks.contains(#[trigger] ts[i]) by {
        if ks.contains(ts[i]) {
            ts.lemma_filter_contains_rev(kept_pred(cid), ts[i]);
            assert(kept_pred(cid)(ts[i]));
        }
    }
}

proof fn lemma_kept_empty(ts: Seq<Task>, cid: TaskId)
    requires
        ts.len() == 0,
    ensures
        kept_tasks(ts, cid) == ts,
{
    ts.lemma_filter_len(kept_pred(cid));
    assert(kept_tasks(ts, cid) =~= ts);
}

proof fn lemma_kept_step(ts: Seq<Task>, cid: TaskId)
    requires
        ts.len() > 0,
    ensures
        kept_tasks(ts, cid) == if kept(ts.last(), cid) {
            kept_tasks(ts.drop_last(), cid).push(ts.last())
        } else {
            kept_tasks(ts.drop_last(), cid)
        },
{
    assert(ts =~= ts.drop_last().push(ts.last()));
    ts.drop_last().lemma_filter_push(ts.last(), kept_pred(cid));
}

} // verus!
