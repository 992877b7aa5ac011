//! Tasks, the task arena and the stride scheduler.

use vstd::prelude::*;
use crate::memory::{AddressSpace, AreaView, space_wf};

verus! {

/// Stride that a task of priority 1 would gain per run.
pub const BIG_STRIDE: u64 = 0x1_0000_0000;

/// Number of system calls that are counted per task, by their identifiers.
pub const MAX_SYSCALL_ID: usize = 512;

/// Priority of a task that never asked for one.
pub const DEFAULT_PRIORITY: usize = 16;

#[derive(Clone, Copy, PartialEq, Eq, Structural, Debug)]
pub enum TaskStatus {
    Ready,
    Running,
    Blocked,
    Zombie,
}

/// One task. Its process identifier is its index in the arena.
#[derive(Debug)]
pub struct TaskControlBlock {
    /// False once the task was reaped; the slot is then never used again.
    pub live: bool,
    pub parent: Option<usize>,
    pub children: Vec<usize>,
    pub status: TaskStatus,
    pub exit_code: i32,
    pub priority: usize,
    pub stride: u64,
    /// What the task's pending system call returns to it.
    pub return_value: isize,
    /// Where the task's program starts.
    pub entry: usize,
    pub heap_bottom: usize,
    pub program_brk: usize,
    pub heap_limit: usize,
    /// How often the task made each system call, by the call's identifier.
    pub syscall_times: Vec<usize>,
    pub memory: AddressSpace,
}

/// Mathematical model of a task.
pub struct TaskView {
    pub live: bool,
    pub parent: Option<usize>,
    pub children: Seq<usize>,
    pub status: TaskStatus,
    pub exit_code: i32,
    pub priority: usize,
    pub stride: u64,
    pub return_value: isize,
    pub entry: usize,
    pub heap_bottom: usize,
    pub program_brk: usize,
    pub heap_limit: usize,
    pub syscall_times: Seq<usize>,
    pub memory: Seq<AreaView>,
}

impl View for TaskControlBlock {
    type V = TaskView;

    open spec fn view(&self) -> TaskView {
        TaskView {
            live: self.live,
            parent: self.parent,
            children: self.children@,
            status: self.status,
            exit_code: self.exit_code,
            priority: self.priority,
            stride: self.stride,
            return_value: self.return_value,
            entry: self.entry,
            heap_bottom: self.heap_bottom,
            program_brk: self.program_brk,
            heap_limit: self.heap_limit,
            syscall_times: self.syscall_times@,
            memory: self.memory@,
        }
    }
}

/// A program that tasks can be started from: its name, where it starts, its
/// heap bounds and the regions it is loaded into.
#[derive(Debug)]
pub struct Image {
    pub name: Vec<u8>,
    pub entry: usize,
    pub heap_bottom: usize,
    pub heap_limit: usize,
    pub memory: AddressSpace,
}

/// Mathematical model of a program image.
pub struct ImageView {
    pub name: Seq<u8>,
    pub entry: usize,
    pub heap_bottom: usize,
    pub heap_limit: usize,
    pub memory: Seq<AreaView>,
}

impl View for Image {
    type V = ImageView;

    open spec fn view(&self) -> ImageView {
        ImageView {
            name: self.name@,
            entry: self.entry,
            heap_bottom: self.heap_bottom,
            heap_limit: self.heap_limit,
            memory: self.memory@,
        }
    }
}

/// The whole kernel state of one single-core machine.
#[derive(Debug)]
pub struct Kernel {
    pub tasks: Vec<TaskControlBlock>,
    /// Identifiers of the tasks that wait to run, oldest first.
    pub ready: Vec<usize>,
    /// The task that runs, if any.
    pub current: Option<usize>,
    pub images: Vec<Image>,
}

/// Mathematical model of the kernel state.
pub struct KernelView {
    pub tasks: Seq<TaskView>,
    pub ready: Seq<usize>,
    pub current: Option<usize>,
    pub images: Seq<ImageView>,
}

impl View for Kernel {
    type V = KernelView;

    open spec fn view(&self) -> KernelView {
        KernelView {
            tasks: self.tasks@.map_values(|t: TaskControlBlock| t@),
            ready: self.ready@,
            current: self.current,
            images: self.images@.map_values(|m: Image| m@),
        }
    }
}

/// The task's memory is well formed, its priority is at least 2, its break
/// lies in its heap, it keeps one count per system call, and its children
/// are tasks of an arena of `n` slots, each listed once.
pub open spec fn task_wf(t: TaskView, n: int) -> bool {
    &&& space_wf(t.memory)
    &&& t.priority >= 2
    &&& t.heap_bottom <= t.program_brk <= t.heap_limit <= isize::MAX
    &&& t.syscall_times.len() == MAX_SYSCALL_ID
    &&& forall|j: int| 0 <= j < t.syscall_times.len() ==> (#[trigger] t.syscall_times[j]) <= isize::MAX
    &&& forall|j: int| 0 <= j < t.children.len() ==> (#[trigger] t.children[j]) < n
    &&& forall|a: int, b: int|
        0 <= a < t.children.len() && 0 <= b < t.children.len() && a != b ==> #[trigger] t.children[a]
            != #[trigger] t.children[b]
}

/// The child at position `j` of task `i` names task `i` as its parent.
pub open spec fn link_ok(tasks: Seq<TaskView>, i: int, j: int) -> bool {
    let child = tasks[i].children[j];
    child < tasks.len() && tasks[child as int].parent == Some(i as usize)
}

/// Every child of every task names that task as its parent.
pub open spec fn links_ok(tasks: Seq<TaskView>) -> bool {
    forall|i: int, j: int|
        0 <= i < tasks.len() && 0 <= j < tasks[i].children.len() ==> #[trigger] link_ok(tasks, i, j)
}

/// The image's regions are well formed and its heap bounds are in order.
pub open spec fn image_wf(m: ImageView) -> bool {
    space_wf(m.memory) && m.heap_bottom <= m.heap_limit <= isize::MAX
}

/// Task `pid` may stand in the queue: it is in the arena, live and ready.
pub open spec fn queued_ok(k: KernelView, pid: usize) -> bool {
    pid < k.tasks.len() && k.tasks[pid as int].live && k.tasks[pid as int].status
        == TaskStatus::Ready
}

/// Every task and image is well formed; every child in a list is a task of
/// the arena, listed once, that names the list's task as its parent; the
/// queue holds live, ready tasks, each once; the task that runs is live and
/// running.
pub open spec fn kernel_wf(k: KernelView) -> bool {
    &&& k.tasks.len() <= isize::MAX
    &&& forall|i: int| 0 <= i < k.tasks.len() ==> task_wf(#[trigger] k.tasks[i], k.tasks.len() as int)
    &&& links_ok(k.tasks)
    &&& forall|i: int| 0 <= i < k.ready.len() ==> queued_ok(k, #[trigger] k.ready[i])
    &&& forall|i: int, j: int|
        0 <= i < k.ready.len() && 0 <= j < k.ready.len() && i != j ==> #[trigger] k.ready[i]
            != #[trigger] k.ready[j]
    &&& forall|i: int| 0 <= i < k.images.len() ==> image_wf(#[trigger] k.images[i])
    &&& k.current.is_some() ==> k.current.unwrap() < k.tasks.len() && k.tasks[k.current.unwrap() as int].live
        && k.tasks[k.current.unwrap() as int].status == TaskStatus::Running
}

/// The model with task `i` replaced by `t`.
pub open spec fn with_task(k: KernelView, i: int, t: TaskView) -> KernelView {
    KernelView { tasks: k.tasks.update(i, t), ..k }
}

/// Distance from stride `a` forward to stride `b`, around the counter's end.
pub open spec fn stride_gap(a: u64, b: u64) -> int {
    if b >= a {
        b - a
    } else {
        b - a + 0x1_0000_0000_0000_0000
    }
}

/// Stride `a` comes before stride `b`: going forward from `a`, `b` is reached
/// in less than half the counter's range.
pub open spec fn stride_before(a: u64, b: u64) -> bool {
    a != b && stride_gap(a, b) < 0x8000_0000_0000_0000
}

/// Among the first `n` entries of `q`, the position of the stride that the
/// scheduler prefers: one that none of the others comes before, the earliest
/// such where strides are equal.
pub open spec fn best_position(q: Seq<u64>, n: int) -> int
    decreases n,
{
    if n <= 1 {
        0
    } else {
        let b = best_position(q, n - 1);
        if stride_before(q[n - 1], q[b]) {
            n - 1
        } else {
            b
        }
    }
}

/// The stride after one run at priority `p`.
pub open spec fn stride_after(s: u64, p: usize) -> u64 {
    ((s + BIG_STRIDE / (p as u64)) % 0x1_0000_0000_0000_0000) as u64
}

/// Strides of the queued tasks, in queue order.
pub open spec fn ready_strides(k: KernelView) -> Seq<u64> {
    Seq::new(k.ready.len(), |i: int| k.tasks[k.ready[i] as int].stride)
}

/// Whether stride `a` comes before stride `b`.
pub fn stride_less(a: u64, b: u64) -> (r: bool)
    ensures
        r == stride_before(a, b),
{
    if b >= a {
        a != b && b - a < 0x8000_0000_0000_0000
    } else {
        a - b > 0x8000_0000_0000_0000
    }
}

/// Where no stride has reached the upper half of the counter, the preferred
/// position holds the smallest stride, and no earlier position holds it too.
pub proof fn law_best_is_first_minimum(q: Seq<u64>, n: int, j: int)
    requires
        1 <= n <= q.len(),
        0 <= j < n,
        forall|i: int| 0 <= i < q.len() ==> (#[trigger] q[i]) < 0x8000_0000_0000_0000,
    ensures
        0 <= best_position(q, n) < n,
        q[best_position(q, n)] <= q[j],
        j < best_position(q, n) ==> q[best_position(q, n)] < q[j],
    decreases n,
{
    if n > 1 {
        if j < n - 1 {
            law_best_is_first_minimum(q, n - 1, j);
        } else {
            law_best_is_first_minimum(q, n - 1, 0);
        }
        let b = best_position(q, n - 1);
        assert(q[b] < 0x8000_0000_0000_0000 && q[n - 1] < 0x8000_0000_0000_0000);
    }
}

/// A task of higher priority advances by a smaller pass per run, and so is
/// chosen more often.
pub proof fn law_pass_shrinks(p: usize, q: usize)
    requires
        2 <= p <= q,
    ensures
        BIG_STRIDE / (q as u64) <= BIG_STRIDE / (p as u64),
        BIG_STRIDE / (p as u64) <= BIG_STRIDE / 2,
{
    assert(BIG_STRIDE / (q as u64) <= BIG_STRIDE / (p as u64)) by (nonlinear_arith)
        requires
            2 <= p <= q,
            BIG_STRIDE == 0x1_0000_0000u64,
    ;
    assert(BIG_STRIDE / (p as u64) <= BIG_STRIDE / 2) by (nonlinear_arith)
        requires
            2 <= p,
            BIG_STRIDE == 0x1_0000_0000u64,
    ;
}

/// How often one of two tasks ran in `sched`, which says for each run in
/// turn whether the first task (`true`) or the second (`false`) ran.
pub open spec fn runs_of(sched: Seq<bool>, who: bool) -> int
    decreases sched.len(),
{
    if sched.len() == 0 {
        0
    } else {
        runs_of(sched.drop_last(), who) + if sched.last() == who {
            1int
        } else {
            0int
        }
    }
}

/// Two tasks that start from equal strides and gain `a` and `b` per run
/// shared the processor as the scheduler has it: whenever one of them ran,
/// its stride was not the larger one.
pub open spec fn follows_stride_rule(sched: Seq<bool>, a: int, b: int) -> bool
    decreases sched.len(),
{
    if sched.len() == 0 {
        true
    } else {
        let before = sched.drop_last();
        let sa = runs_of(before, true) * a;
        let sb = runs_of(before, false) * b;
        follows_stride_rule(before, a, b) && if sched.last() {
            sa <= sb
        } else {
            sb <= sa
        }
    }
}

/// Two tasks that share the processor by the stride rule run in inverse
/// proportion to their passes: the strides they have gained never differ by
/// more than one pass, so neither task is starved, and over many runs the
/// numbers of their runs tend to the ratio `b : a`. The scheduler's choice
/// has the smallest stride, so its runs follow the rule while the stride
/// counter has not wrapped.
pub proof fn law_proportional_share(sched: Seq<bool>, a: int, b: int)
    requires
        0 < a,
        0 < b,
        follows_stride_rule(sched, a, b),
    ensures
        runs_of(sched, true) >= 0,
        runs_of(sched, false) >= 0,
        runs_of(sched, true) + runs_of(sched, false) == sched.len(),
        runs_of(sched, true) * a <= runs_of(sched, false) * b + a,
        runs_of(sched, false) * b <= runs_of(sched, true) * a + b,
    decreases sched.len(),
{
    if sched.len() > 0 {
        let before = sched.drop_last();
        law_proportional_share(before, a, b);
        let na = runs_of(before, true);
        let nb = runs_of(before, false);
        assert((na + 1) * a == na * a + a) by (nonlinear_arith);
        assert((nb + 1) * b == nb * b + b) by (nonlinear_arith);
    }
}

/// A task of priority 10 and a task of priority 2 that share the processor:
/// the second runs at most once more than a fifth of the runs of the first,
/// and the first is not held back by more than its share allows.
pub proof fn law_share_ten_to_two(sched: Seq<bool>)
    requires
        follows_stride_rule(sched, (BIG_STRIDE / 10) as int, (BIG_STRIDE / 2) as int),
    ensures
        5 * runs_of(sched, false) <= runs_of(sched, true) + 5,
        runs_of(sched, true) * (BIG_STRIDE / 10) <= runs_of(sched, false) * (BIG_STRIDE / 2)
            + BIG_STRIDE / 10,
{
    let a = (BIG_STRIDE / 10) as int;
    let b = (BIG_STRIDE / 2) as int;
    assert(a == 429496729 && b == 2147483648);
    law_proportional_share(sched, a, b);
    let na = runs_of(sched, true);
    let nb = runs_of(sched, false);
    assert(5 * nb <= na + 5) by (nonlinear_arith)
        requires
            na >= 0,
            nb >= 0,
            nb * 2147483648 <= na * 429496729 + 2147483648,
    ;
}

/// The preferred position lies within the entries that were looked at.
pub proof fn lemma_best_in_range(q: Seq<u64>, n: int)
    requires
        1 <= n,
    ensures
        0 <= best_position(q, n) < n,
    decreases n,
{
    if n > 1 {
        lemma_best_in_range(q, n - 1);
    }
}

/// The model after the scheduler chose among the queued tasks: the task at
/// the preferred position leaves the queue, runs, and has its stride advanced
/// by its pass. With an empty queue nothing runs.
pub open spec fn scheduled(k: KernelView) -> KernelView {
    if k.ready.len() == 0 {
        KernelView { current: None, ..k }
    } else {
        let p = best_position(ready_strides(k), k.ready.len() as int);
        let pid = k.ready[p];
        let t = k.tasks[pid as int];
        KernelView {
            tasks: k.tasks.update(
                pid as int,
                TaskView {
                    status: TaskStatus::Running,
                    stride: stride_after(t.stride, t.priority),
                    ..t
                },
            ),
            ready: k.ready.remove(p),
            current: Some(pid),
            ..k
        }
    }
}

/// Position of the first image from `from` on that is named `name`; the
/// number of images where there is none.
pub open spec fn image_position(images: Seq<ImageView>, name: Seq<u8>, from: int) -> int
    decreases images.len() - from,
{
    if from < 0 || from >= images.len() {
        images.len() as int
    } else if images[from].name == name {
        from
    } else {
        image_position(images, name, from + 1)
    }
}

/// Task `t` with its program replaced by image `m`: the image's regions,
/// entry point and heap; the break at the bottom of the heap.
pub open spec fn loaded(t: TaskView, m: ImageView) -> TaskView {
    TaskView {
        memory: m.memory,
        entry: m.entry,
        heap_bottom: m.heap_bottom,
        program_brk: m.heap_bottom,
        heap_limit: m.heap_limit,
        ..t
    }
}

/// The first task of a program: no parent, no children, ready, with the
/// default priority and stride 0.
pub open spec fn first_task(m: ImageView) -> TaskView {
    TaskView {
        live: true,
        parent: None,
        children: Seq::empty(),
        status: TaskStatus::Ready,
        exit_code: 0,
        priority: DEFAULT_PRIORITY,
        stride: 0,
        return_value: 0,
        entry: m.entry,
        heap_bottom: m.heap_bottom,
        program_brk: m.heap_bottom,
        heap_limit: m.heap_limit,
        syscall_times: no_calls(),
        memory: m.memory,
    }
}

/// The counts of a task that has made no system call.
pub open spec fn no_calls() -> Seq<usize> {
    Seq::new(MAX_SYSCALL_ID as nat, |i: int| 0usize)
}

/// Counts for a task that has made no system call.
pub fn zero_counts() -> (r: Vec<usize>)
    ensures
        r@ == no_calls(),
{
    let mut r: Vec<usize> = Vec::new();
    let mut i: usize = 0;
    while i < MAX_SYSCALL_ID
        invariant
            i <= MAX_SYSCALL_ID,
            r@.len() == i,
            forall|j: int| 0 <= j < i ==> r@[j] == 0,
        decreases MAX_SYSCALL_ID - i,
    {
        r.push(0);
        i += 1;
    }
    assert(r@ =~= no_calls());
    r
}

/// Whether two byte strings are equal.
pub fn bytes_equal(a: &Vec<u8>, b: &Vec<u8>) -> (r: bool)
    ensures
        r == (a@ == b@),
{
    if a.len() != b.len() {
        return false;
    }
    let mut i: usize = 0;
    while i < a.len()
        invariant
            i <= a@.len(),
            a@.len() == b@.len(),
            forall|k: int| 0 <= k < i ==> a@[k] == b@[k],
        decreases a@.len() - i,
    {
        if a[i] != b[i] {
            return false;
        }
        i += 1;
    }
    assert(a@ =~= b@);
    true
}

impl Kernel {
    /// Makes `image` known under its name. Of two images with one name the
    /// one that came first is found.
    pub fn register_image(&mut self, image: Image)
        requires
            old(self).wf(),
            image_wf(image@),
        ensures
            final(self).wf(),
            final(self)@ == (KernelView { images: old(self)@.images.push(image@), ..old(self)@ }),
    {
        self.images.push(image);
        proof {
            assert(self@.images =~= old(self)@.images.push(image@));
            assert(self@.tasks =~= old(self)@.tasks);
            assert forall|i: int| 0 <= i < self@.tasks.len() implies task_wf(
                #[trigger] self@.tasks[i],
                self@.tasks.len() as int,
            ) by {
                assert(task_wf(old(self)@.tasks[i], self@.tasks.len() as int));
            }
            assert forall|i: int| 0 <= i < self@.images.len() implies image_wf(
                #[trigger] self@.images[i],
            ) by {
                if i < old(self)@.images.len() {
                    assert(image_wf(old(self)@.images[i]));
                }
            }
        }
    }

    /// Finds the first image named `name`.
    pub fn find_image(&self, name: &Vec<u8>) -> (r: Option<usize>)
        ensures
            r.is_some() == (image_position(self@.images, name@, 0) < self@.images.len()),
            r.is_some() ==> r.unwrap() == image_position(self@.images, name@, 0),
    {
        let mut i: usize = 0;
        while i < self.images.len()
            invariant
                i <= self.images@.len(),
                image_position(self@.images, name@, 0) == image_position(
                    self@.images,
                    name@,
                    i as int,
                ),
            decreases self.images@.len() - i,
        {
            assert(self@.images[i as int] == self.images@[i as int]@);
            if bytes_equal(&self.images[i].name, name) {
                return Some(i);
            }
            i += 1;
        }
        None
    }

    /// Starts the first task of image `index`: it gets the next free
    /// identifier and joins the back of the queue. Returns the identifier, or
    /// nothing, with no change, where no identifier is left.
    pub fn start(&mut self, index: usize) -> (r: Option<usize>)
        requires
            old(self).wf(),
            index < old(self)@.images.len(),
        ensures
            final(self).wf(),
            r.is_some() == (old(self)@.tasks.len() < isize::MAX),
            r.is_none() ==> *final(self) == *old(self),
            r.is_some() ==> r.unwrap() == old(self)@.tasks.len() && final(self)@ == (KernelView {
                tasks: old(self)@.tasks.push(first_task(old(self)@.images[index as int])),
                ready: old(self)@.ready.push(r.unwrap()),
                ..old(self)@
            }),
    {
        if self.tasks.len() >= isize::MAX as usize {
            return None;
        }
        let n = self.tasks.len();
        assert(self@.images[index as int] == self.images@[index as int]@);
        assert(image_wf(self@.images[index as int]));
        let m = &self.images[index];
        let task = TaskControlBlock {
            live: true,
            parent: None,
            children: Vec::new(),
            status: TaskStatus::Ready,
            exit_code: 0,
            priority: DEFAULT_PRIORITY,
            stride: 0,
            return_value: 0,
            entry: m.entry,
            heap_bottom: m.heap_bottom,
            program_brk: m.heap_bottom,
            heap_limit: m.heap_limit,
            syscall_times: zero_counts(),
            memory: m.memory.duplicate(),
        };
        assert(task@.children =~= Seq::<usize>::empty());
        self.tasks.push(task);
        self.ready.push(n);
        proof {
            let k = old(self)@;
            assert(self@.tasks =~= k.tasks.push(first_task(k.images[index as int])));
            assert(self@.images =~= k.images);
            assert forall|i: int| 0 <= i < self@.tasks.len() implies task_wf(
                #[trigger] self@.tasks[i],
                self@.tasks.len() as int,
            ) by {
                if i < n {
                    assert(task_wf(k.tasks[i], k.tasks.len() as int));
                }
            }
            assert forall|a: int, b: int|
                0 <= a < self@.tasks.len() && 0 <= b < self@.tasks[a].children.len() implies #[trigger] link_ok(
                self@.tasks,
                a,
                b,
            ) by {
                assert(link_ok(k.tasks, a, b));
            }
        }
        Some(n)
    }

    pub open spec fn wf(&self) -> bool {
        kernel_wf(self@)
    }

    /// Well formed, with a task that runs: the state in which a system call
    /// is made.
    pub open spec fn running(&self) -> bool {
        self.wf() && self.current.is_some()
    }

    /// A kernel without tasks or images.
    pub fn new() -> (r: Self)
        ensures
            r.wf(),
            r@.tasks.len() == 0,
            r@.ready.len() == 0,
            r@.images.len() == 0,
            r@.current.is_none(),
    {
        Kernel { tasks: Vec::new(), ready: Vec::new(), current: None, images: Vec::new() }
    }

    /// Position in the queue of the task that the scheduler prefers.
    pub fn pick(&self) -> (r: usize)
        requires
            self.wf(),
            self.ready@.len() > 0,
        ensures
            r == best_position(ready_strides(self@), self.ready@.len() as int),
            r < self.ready@.len(),
    {
        let mut best: usize = 0;
        let mut i: usize = 1;
        while i < self.ready.len()
            invariant
                self.wf(),
                1 <= i <= self.ready@.len(),
                best < i,
                best == best_position(ready_strides(self@), i as int),
            decreases self.ready@.len() - i,
        {
            let a = self.tasks[self.ready[i]].stride;
            let b = self.tasks[self.ready[best]].stride;
            let ghost pi = self.ready@[i as int] as int;
            let ghost pb = self.ready@[best as int] as int;
            assert(self@.tasks[pi] == self.tasks@[pi]@);
            assert(self@.tasks[pb] == self.tasks@[pb]@);
            if stride_less(a, b) {
                best = i;
            }
            i += 1;
        }
        best
    }

    /// Lets the scheduler choose the next task to run. The processor must be
    /// free.
    pub fn run_next(&mut self)
        requires
            old(self).wf(),
            old(self).current.is_none(),
        ensures
            final(self).wf(),
            final(self)@ == scheduled(old(self)@),
    {
        if self.ready.len() == 0 {
            return ;
        }
        let p = self.pick();
        let pid = self.ready.remove(p);
        assert(old(self)@.tasks[pid as int] == self.tasks@[pid as int]@);
        assert(task_wf(old(self)@.tasks[pid as int], self.tasks@.len() as int));
        let pass: u64 = BIG_STRIDE / (self.tasks[pid].priority as u64);
        let s = self.tasks[pid].stride;
        let next: u64 = if s > u64::MAX - pass {
            s - (u64::MAX - pass) - 1
        } else {
            s + pass
        };
        self.tasks[pid].status = TaskStatus::Running;
        self.tasks[pid].stride = next;
        self.current = Some(pid);
        proof {
            let t = old(self)@.tasks[pid as int];
            assert(next == stride_after(t.stride, t.priority));
            assert(self@.tasks =~= scheduled(old(self)@).tasks);
            assert(self@.images =~= old(self)@.images);
            assert(self@ == scheduled(old(self)@));
            lemma_task_update_wf(
                old(self)@,
                pid as int,
                self@.tasks[pid as int],
            );
            assert forall|i: int| 0 <= i < self@.ready.len() implies (#[trigger] self@.ready[i])
                < self@.tasks.len() by {
                assert(self@.ready[i] == old(self)@.ready[if i < p { i } else { i + 1 }]);
            }
        }
    }
}

/// Replacing a task by a well-formed one with the same parent and children
/// keeps every task well formed and every child linked to its parent.
pub proof fn lemma_task_update_wf(k: KernelView, i: int, t: TaskView)
    requires
        kernel_wf(k),
        0 <= i < k.tasks.len(),
        task_wf(t, k.tasks.len() as int),
        t.parent == k.tasks[i].parent,
        t.children == k.tasks[i].children,
    ensures
        forall|j: int|
            0 <= j < k.tasks.len() ==> task_wf(
                #[trigger] k.tasks.update(i, t)[j],
                k.tasks.len() as int,
            ),
        links_ok(k.tasks.update(i, t)),
{
    let u = k.tasks.update(i, t);
    assert forall|j: int| 0 <= j < k.tasks.len() implies task_wf(
        #[trigger] u[j],
        k.tasks.len() as int,
    ) by {
        if j != i {
            assert(task_wf(k.tasks[j], k.tasks.len() as int));
        }
    }
    assert forall|a: int, b: int| 0 <= a < u.len() && 0 <= b < u[a].children.len() implies #[trigger] link_ok(
        u,
        a,
        b,
    ) by {
        assert(link_ok(k.tasks, a, b));
    }
}

} // verus!
