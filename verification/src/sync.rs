//! Mutual exclusion between tasks: a mutex that is polled and one that keeps
//! its waiters in a queue and hands itself from one owner to the next.

use std::collections::VecDeque;
use vstd::prelude::*;
use crate::syscall::{caller, sys_yield, yielded};
use crate::task::{
    Kernel, KernelView, TaskStatus, TaskView, best_position, lemma_best_in_range,
    lemma_task_update_wf, queued_ok, ready_strides, scheduled,
};

verus! {

/// What a request for a mutex leads to.
#[derive(Clone, Copy, PartialEq, Eq, Structural, Debug)]
pub enum LockOutcome {
    /// The mutex was free and the caller holds it now.
    Taken,
    /// Another task holds the mutex; the caller sleeps in the queue and
    /// holds the mutex when it is woken.
    Queued,
    /// The caller holds the mutex already: waiting would never end.
    Refused,
    /// The mutex is taken; the caller gave up the processor and asks again
    /// when it next runs.
    Retry,
}

/// The request returns true: the caller holds the mutex, now or when it is
/// woken.
pub open spec fn lock_succeeds(o: LockOutcome) -> bool {
    o == LockOutcome::Taken || o == LockOutcome::Queued
}

/// The kernel after a request with outcome `o`: unchanged where the mutex
/// was taken or the request refused; else the caller sleeps or has yielded.
pub open spec fn kernel_after_lock(k: KernelView, o: LockOutcome) -> KernelView {
    match o {
        LockOutcome::Taken => k,
        LockOutcome::Refused => k,
        LockOutcome::Queued => slept(k),
        LockOutcome::Retry => yielded(k),
    }
}

/// The kernel after a release that hands the mutex to `heir`.
pub open spec fn kernel_after_unlock(k: KernelView, heir: Option<usize>) -> KernelView {
    match heir {
        Some(w) => woken(k, w),
        None => k,
    }
}

/// What the two kinds of mutex offer. The calling task is the one that runs
/// in `kernel`.
pub trait Mutex {
    /// The mutex is well formed and fits the kernel's tasks.
    spec fn inv(&self, k: KernelView) -> bool;

    /// The mutex may be released.
    spec fn may_unlock(&self) -> bool;

    /// The task that holds the mutex, if any.
    spec fn holder(&self) -> Option<usize>;

    /// What a request by task `c` leads to.
    spec fn outcome(&self, c: usize) -> LockOutcome;

    /// The task that a release hands the mutex to, if any.
    spec fn heir(&self) -> Option<usize>;

    /// Asks for the mutex on behalf of the caller. The result is true where
    /// the caller holds the mutex, now or when it is woken.
    fn lock(&mut self, kernel: &mut Kernel) -> (r: bool)
        requires
            old(kernel).running(),
            old(self).inv(old(kernel)@),
        ensures
            final(kernel).wf(),
            final(self).inv(final(kernel)@),
            r == lock_succeeds(old(self).outcome(old(kernel)@.current.unwrap())),
            final(self).holder() == (if old(self).outcome(old(kernel)@.current.unwrap())
                == LockOutcome::Taken {
                old(kernel)@.current
            } else {
                old(self).holder()
            }),
            final(kernel)@ == kernel_after_lock(
                old(kernel)@,
                old(self).outcome(old(kernel)@.current.unwrap()),
            ),
    ;

    /// Releases the mutex: it goes to the heir, who is woken, or is free.
    fn unlock(&mut self, kernel: &mut Kernel)
        requires
            old(kernel).wf(),
            old(self).inv(old(kernel)@),
            old(self).may_unlock(),
        ensures
            final(kernel).wf(),
            final(self).inv(final(kernel)@),
            final(self).holder() == old(self).heir(),
            final(kernel)@ == kernel_after_unlock(old(kernel)@, old(self).heir()),
    ;

    /// Whether the caller is the task that holds the mutex.
    fn is_locked_by_current(&self, kernel: &Kernel) -> (r: bool)
        requires
            kernel.running(),
            self.inv(kernel@),
        ensures
            r == (self.holder() == kernel@.current),
    ;
}

/// A mutex that is polled: a task that finds it taken gives up the
/// processor and asks again when it next runs.
#[derive(Debug)]
pub struct MutexSpin {
    pub locked: bool,
    /// The task that took the mutex.
    pub owner: Option<usize>,
}

/// What a request by task `c` for the polled mutex leads to.
pub open spec fn spin_outcome(m: MutexSpin, c: usize) -> LockOutcome {
    if m.locked {
        LockOutcome::Retry
    } else {
        LockOutcome::Taken
    }
}

/// The polled mutex after a request by task `c`.
pub open spec fn spin_locked(m: MutexSpin, c: usize) -> MutexSpin {
    if m.locked {
        m
    } else {
        MutexSpin { locked: true, owner: Some(c) }
    }
}

/// The polled mutex after a release.
pub open spec fn spin_unlocked(m: MutexSpin) -> MutexSpin {
    MutexSpin { locked: false, owner: None }
}

/// The polled mutex is taken exactly when it has an owner.
pub open spec fn spin_wf(m: MutexSpin) -> bool {
    m.locked == m.owner.is_some()
}

/// A request for the polled mutex that follows a release takes it.
pub proof fn law_spin_lock_after_unlock(m: MutexSpin, c: usize)
    ensures
        spin_wf(spin_unlocked(m)),
        spin_outcome(spin_unlocked(m), c) == LockOutcome::Taken,
        spin_locked(spin_unlocked(m), c).owner == Some(c),
        spin_wf(spin_locked(spin_unlocked(m), c)),
{
}

/// Only the task that took the polled mutex holds it: after task `a` took
/// it, no other task holds it, whatever requests follow, until a release.
pub proof fn law_spin_one_holder(m: MutexSpin, a: usize, b: usize)
    requires
        spin_wf(m),
        !m.locked,
        a != b,
    ensures
        spin_locked(m, a).owner == Some(a),
        spin_locked(m, a).owner != Some(b),
        spin_outcome(spin_locked(m, a), b) == LockOutcome::Retry,
        spin_locked(spin_locked(m, a), b) == spin_locked(m, a),
{
}

impl MutexSpin {
    /// A free mutex, which no task holds.
    pub fn new() -> (r: Self)
        ensures
            r == (MutexSpin { locked: false, owner: None }),
            spin_wf(r),
    {
        MutexSpin { locked: false, owner: None }
    }
}

impl Mutex for MutexSpin {
    open spec fn inv(&self, k: KernelView) -> bool {
        spin_wf(*self)
    }

    open spec fn may_unlock(&self) -> bool {
        true
    }

    open spec fn holder(&self) -> Option<usize> {
        self.owner
    }

    open spec fn outcome(&self, c: usize) -> LockOutcome {
        spin_outcome(*self, c)
    }

    open spec fn heir(&self) -> Option<usize> {
        None
    }

    /// One attempt. Where the mutex is free the caller takes it and the
    /// result is true. Where it is taken the caller gives up the processor,
    /// the mutex is unchanged and the result is false: the caller asks again
    /// when it next runs.
    fn lock(&mut self, kernel: &mut Kernel) -> (r: bool)
        ensures
            r == !old(self).locked,
            *final(self) == spin_locked(*old(self), old(kernel)@.current.unwrap()),
            r ==> *final(kernel) == *old(kernel),
            !r ==> final(kernel)@ == yielded(old(kernel)@),
    {
        if self.locked {
            let _ = sys_yield(kernel);
            false
        } else {
            self.locked = true;
            self.owner = kernel.current;
            true
        }
    }

    /// Frees the mutex, whichever task holds it.
    fn unlock(&mut self, kernel: &mut Kernel)
        ensures
            *final(self) == spin_unlocked(*old(self)),
            *final(kernel) == *old(kernel),
    {
        self.locked = false;
        self.owner = None;
    }

    /// Whether the caller is the task that took the mutex.
    fn is_locked_by_current(&self, kernel: &Kernel) -> (r: bool)
        ensures
            r == (self.owner == kernel@.current),
    {
        match self.owner {
            Some(o) => o == kernel.current.unwrap(),
            None => false,
        }
    }
}

/// State of a blocking mutex. Tasks are named by their identifiers.
#[derive(Debug)]
pub struct MutexBlockingInner {
    pub locked: bool,
    /// The tasks that wait, the one that has waited longest first.
    pub wait_queue: VecDeque<usize>,
    pub owner: Option<usize>,
}

/// A mutex whose waiters sleep in a queue; a release hands it to the waiter
/// at the head.
#[derive(Debug)]
pub struct MutexBlocking {
    pub inner: MutexBlockingInner,
}

/// Mathematical model of a blocking mutex.
pub struct MutexView {
    pub locked: bool,
    pub queue: Seq<usize>,
    pub owner: Option<usize>,
}

impl View for MutexBlocking {
    type V = MutexView;

    open spec fn view(&self) -> MutexView {
        MutexView {
            locked: self.inner.locked,
            queue: self.inner.wait_queue@,
            owner: self.inner.owner,
        }
    }
}

/// The mutex is taken exactly when it has an owner, only a taken mutex has
/// waiters, the owner does not wait, and no task waits twice.
pub open spec fn mutex_wf(m: MutexView) -> bool {
    &&& m.locked == m.owner.is_some()
    &&& m.queue.len() > 0 ==> m.locked
    &&& forall|i: int| 0 <= i < m.queue.len() ==> Some(#[trigger] m.queue[i]) != m.owner
    &&& forall|i: int, j: int|
        0 <= i < m.queue.len() && 0 <= j < m.queue.len() && i != j ==> #[trigger] m.queue[i]
            != #[trigger] m.queue[j]
}

/// What a request by task `c` returns: false where `c` owns the mutex
/// already, which would be a deadlock with itself; else true.
pub open spec fn lock_returns(m: MutexView, c: usize) -> bool {
    m.owner != Some(c)
}

/// Whether a request by task `c` puts it to sleep.
pub open spec fn lock_blocks(m: MutexView, c: usize) -> bool {
    m.owner != Some(c) && m.locked
}

/// What a request by task `c` leads to: it is refused where `c` owns the
/// mutex, puts `c` into the queue where another task owns it, and takes the
/// mutex where it is free.
pub open spec fn lock_outcome(m: MutexView, c: usize) -> LockOutcome {
    if m.owner == Some(c) {
        LockOutcome::Refused
    } else if m.locked {
        LockOutcome::Queued
    } else {
        LockOutcome::Taken
    }
}

/// The task that a release hands the mutex to: the one that has waited
/// longest, if any waits.
pub open spec fn next_owner(m: MutexView) -> Option<usize> {
    if m.queue.len() > 0 {
        Some(m.queue[0])
    } else {
        None
    }
}

/// The mutex after a request by task `c`.
pub open spec fn lock_view(m: MutexView, c: usize) -> MutexView {
    if m.owner == Some(c) {
        m
    } else if m.locked {
        MutexView { queue: m.queue.push(c), ..m }
    } else {
        MutexView { locked: true, owner: Some(c), ..m }
    }
}

/// The mutex after a release.
pub open spec fn unlock_view(m: MutexView) -> MutexView {
    if m.queue.len() > 0 {
        MutexView { owner: Some(m.queue[0]), queue: m.queue.subrange(1, m.queue.len() as int), ..m }
    } else {
        MutexView { locked: false, owner: None, ..m }
    }
}

/// The mutex after `n` releases in a row.
pub open spec fn unlock_times(m: MutexView, n: nat) -> MutexView
    decreases n,
{
    if n == 0 {
        m
    } else {
        unlock_view(unlock_times(m, (n - 1) as nat))
    }
}

/// The kernel after the caller went to sleep and the scheduler chose.
pub open spec fn slept(k: KernelView) -> KernelView {
    scheduled(
        KernelView {
            tasks: k.tasks.update(
                k.current.unwrap() as int,
                TaskView { status: TaskStatus::Blocked, ..caller(k) },
            ),
            current: None,
            ..k
        },
    )
}

/// The kernel after task `w` was woken: it is ready and at the back of the
/// queue.
pub open spec fn woken(k: KernelView, w: usize) -> KernelView {
    KernelView {
        tasks: k.tasks.update(w as int, TaskView { status: TaskStatus::Ready, ..k.tasks[w as int] }),
        ready: k.ready.push(w),
        ..k
    }
}

/// Task `pid` is in the arena, live and blocked.
pub open spec fn sleeps(k: KernelView, pid: usize) -> bool {
    pid < k.tasks.len() && k.tasks[pid as int].live && k.tasks[pid as int].status
        == TaskStatus::Blocked
}

/// A request and a release keep the mutex well formed: it never has more
/// than one owner, and the owner never waits for it.
pub proof fn law_mutex_stays_wf(m: MutexView, c: usize)
    requires
        mutex_wf(m),
        !m.queue.contains(c),
    ensures
        mutex_wf(lock_view(m, c)),
        m.locked ==> mutex_wf(unlock_view(m)),
{
    let l = lock_view(m, c);
    assert forall|i: int, j: int|
        0 <= i < l.queue.len() && 0 <= j < l.queue.len() && i != j implies #[trigger] l.queue[i]
        != #[trigger] l.queue[j] by {
        if i < m.queue.len() && j < m.queue.len() {
        } else if i < m.queue.len() {
            assert(m.queue.contains(m.queue[i]));
        } else if j < m.queue.len() {
            assert(m.queue.contains(m.queue[j]));
        }
    }
    if m.locked {
        lemma_unlock_wf(m);
    }
}

/// A release keeps a taken mutex well formed.
pub proof fn lemma_unlock_wf(m: MutexView)
    requires
        mutex_wf(m),
        m.locked,
    ensures
        mutex_wf(unlock_view(m)),
{
    let u = unlock_view(m);
    if m.queue.len() > 0 {
        assert forall|i: int| 0 <= i < u.queue.len() implies Some(#[trigger] u.queue[i])
            != u.owner by {
            assert(u.queue[i] == m.queue[i + 1]);
        }
        assert forall|i: int, j: int|
            0 <= i < u.queue.len() && 0 <= j < u.queue.len() && i != j implies #[trigger] u.queue[i]
            != #[trigger] u.queue[j] by {
            assert(u.queue[i] == m.queue[i + 1]);
            assert(u.queue[j] == m.queue[j + 1]);
        }
    }
}

/// Waiters get the mutex in the order in which they came: after `n + 1`
/// releases the owner is the task that stood at position `n` of the queue,
/// and those behind it still wait in their order.
pub proof fn law_fifo_handoff(m: MutexView, n: nat)
    requires
        mutex_wf(m),
        n < m.queue.len(),
    ensures
        unlock_times(m, n + 1).owner == Some(m.queue[n as int]),
        unlock_times(m, n + 1).locked,
        unlock_times(m, n + 1).queue == m.queue.subrange(n + 1 as int, m.queue.len() as int),
    decreases n,
{
    if n == 0 {
        assert(unlock_times(m, 0) == m);
        assert(unlock_times(m, 1) == unlock_view(unlock_times(m, 0)));
    } else {
        law_fifo_handoff(m, (n - 1) as nat);
        let p = unlock_times(m, n);
        assert(unlock_times(m, n + 1) == unlock_view(p));
        assert(p.queue.subrange(1, p.queue.len() as int) =~= m.queue.subrange(
            n + 1 as int,
            m.queue.len() as int,
        ));
    }
}

/// A task that took a free mutex and asks for it again is refused, and
/// nothing changes: it does not wait for itself.
pub proof fn law_relock_refused(m: MutexView, c: usize)
    requires
        mutex_wf(m),
        !m.locked,
    ensures
        lock_returns(m, c),
        !lock_blocks(m, c),
        !lock_returns(lock_view(m, c), c),
        !lock_blocks(lock_view(m, c), c),
        lock_view(lock_view(m, c), c) == lock_view(m, c),
{
}

/// A request that follows the release of a mutex for which no task waits
/// takes the mutex.
pub proof fn law_lock_after_unlock(m: MutexView, c: usize)
    requires
        mutex_wf(m),
        m.locked,
        m.queue.len() == 0,
    ensures
        mutex_wf(unlock_view(m)),
        lock_outcome(unlock_view(m), c) == LockOutcome::Taken,
        lock_view(unlock_view(m), c).owner == Some(c),
{
}

impl MutexBlocking {
    /// A free mutex without waiters.
    pub fn new() -> (r: Self)
        ensures
            r@ == (MutexView { locked: false, queue: Seq::empty(), owner: None }),
            mutex_wf(r@),
    {
        MutexBlocking {
            inner: MutexBlockingInner { locked: false, wait_queue: VecDeque::new(), owner: None },
        }
    }
}

impl Mutex for MutexBlocking {
    open spec fn inv(&self, k: KernelView) -> bool {
        &&& mutex_wf(self@)
        &&& forall|i: int| 0 <= i < self@.queue.len() ==> sleeps(k, #[trigger] self@.queue[i])
    }

    open spec fn may_unlock(&self) -> bool {
        self@.locked
    }

    open spec fn holder(&self) -> Option<usize> {
        self@.owner
    }

    open spec fn outcome(&self, c: usize) -> LockOutcome {
        lock_outcome(self@, c)
    }

    open spec fn heir(&self) -> Option<usize> {
        next_owner(self@)
    }

    /// Where the caller owns the mutex already the result is false and
    /// nothing changes. Where another task owns it the caller joins the back
    /// of the queue and sleeps, and the scheduler chooses; it owns the mutex
    /// when it is woken. Where the mutex is free the caller takes it.
    fn lock(&mut self, kernel: &mut Kernel) -> (r: bool)
        ensures
            r == lock_returns(old(self)@, old(kernel)@.current.unwrap()),
            final(self)@ == lock_view(old(self)@, old(kernel)@.current.unwrap()),
            lock_blocks(old(self)@, old(kernel)@.current.unwrap()) ==> final(kernel)@ == slept(
                old(kernel)@,
            ),
            !lock_blocks(old(self)@, old(kernel)@.current.unwrap()) ==> *final(kernel) == *old(
                kernel,
            ),
    {
        let c = kernel.current.unwrap();
        proof {
            assert forall|i: int| 0 <= i < self@.queue.len() implies self@.queue[i] != c by {
                assert(sleeps(kernel@, self@.queue[i]));
            }
            law_mutex_stays_wf(self@, c);
        }
        match self.inner.owner {
            Some(o) => {
                if o == c {
                    return false;
                }
            },
            None => {},
        }
        if self.inner.locked {
            self.inner.wait_queue.push_back(c);
            assert(old(kernel)@.tasks[c as int] == kernel.tasks@[c as int]@);
            kernel.tasks[c].status = TaskStatus::Blocked;
            kernel.current = None;
            proof {
                let t = TaskView { status: TaskStatus::Blocked, ..caller(old(kernel)@) };
                assert(kernel@.tasks =~= old(kernel)@.tasks.update(c as int, t));
                assert(kernel@.images =~= old(kernel)@.images);
                lemma_task_update_wf(old(kernel)@, c as int, t);
                assert forall|i: int| 0 <= i < kernel@.ready.len() implies queued_ok(
                    kernel@,
                    #[trigger] kernel@.ready[i],
                ) by {
                    assert(queued_ok(old(kernel)@, old(kernel)@.ready[i]));
                }
            }
            let ghost mid = kernel@;
            kernel.run_next();
            proof {
                assert forall|i: int| 0 <= i < self@.queue.len() implies sleeps(
                    kernel@,
                    #[trigger] self@.queue[i],
                ) by {
                    if i < old(self)@.queue.len() {
                        assert(sleeps(old(kernel)@, old(self)@.queue[i]));
                    }
                    assert(sleeps(mid, self@.queue[i]));
                    if mid.ready.len() > 0 {
                        let p = best_position(ready_strides(mid), mid.ready.len() as int);
                        lemma_best_in_range(ready_strides(mid), mid.ready.len() as int);
                        assert(queued_ok(mid, mid.ready[p]));
                    }
                }
            }
        } else {
            self.inner.locked = true;
            self.inner.owner = Some(c);
        }
        true
    }

    /// Hands the mutex to the task at the head of the queue and wakes it;
    /// frees the mutex where no task waits.
    fn unlock(&mut self, kernel: &mut Kernel)
        ensures
            final(self)@ == unlock_view(old(self)@),
            old(self)@.queue.len() > 0 ==> final(kernel)@ == woken(
                old(kernel)@,
                old(self)@.queue[0],
            ),
            old(self)@.queue.len() == 0 ==> *final(kernel) == *old(kernel),
    {
        proof {
            lemma_unlock_wf(self@);
        }
        match self.inner.wait_queue.pop_front() {
            Some(w) => {
                self.inner.owner = Some(w);
                assert(old(kernel)@.tasks[w as int] == kernel.tasks@[w as int]@);
                kernel.tasks[w].status = TaskStatus::Ready;
                kernel.ready.push(w);
                proof {
                    let k = old(kernel)@;
                    let t = TaskView { status: TaskStatus::Ready, ..k.tasks[w as int] };
                    assert(kernel@.tasks =~= k.tasks.update(w as int, t));
                    assert(kernel@.images =~= k.images);
                    lemma_task_update_wf(k, w as int, t);
                    assert(sleeps(k, old(self)@.queue[0]));
                    assert forall|i: int| 0 <= i < self@.queue.len() implies sleeps(
                        kernel@,
                        #[trigger] self@.queue[i],
                    ) by {
                        assert(self@.queue[i] == old(self)@.queue[i + 1]);
                        assert(sleeps(k, old(self)@.queue[i + 1]));
                    }
                    assert forall|i: int| 0 <= i < kernel@.ready.len() implies queued_ok(
                        kernel@,
                        #[trigger] kernel@.ready[i],
                    ) by {
                        if i < k.ready.len() {
                            assert(queued_ok(k, k.ready[i]));
                        }
                    }
                    assert forall|i: int, j: int|
                        0 <= i < kernel@.ready.len() && 0 <= j < kernel@.ready.len() && i
                            != j implies #[trigger] kernel@.ready[i] != #[trigger] kernel@.ready[j] by {
                        if i < k.ready.len() {
                            assert(queued_ok(k, k.ready[i]));
                        }
                        if j < k.ready.len() {
                            assert(queued_ok(k, k.ready[j]));
                        }
                    }
                }
            },
            None => {
                self.inner.locked = false;
                self.inner.owner = None;
            },
        }
    }

    /// Whether the caller owns the mutex.
    fn is_locked_by_current(&self, kernel: &Kernel) -> (r: bool)
        ensures
            r == (self@.owner == kernel@.current),
    {
        match self.inner.owner {
            Some(o) => o == kernel.current.unwrap(),
            None => false,
        }
    }
}

} // verus!
