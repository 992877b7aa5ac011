//! The system calls of a running task, as transitions of the kernel state.

use vstd::prelude::*;
use crate::memory::{
    AddressSpace, AreaView, MapPermission, PAGE_SIZE, all_writable, has_user_str,
    law_mmap_then_munmap, mmap_result, munmap_result, page_ceil, page_floor, read_at, resize_fits,
    resized, store_at, store_bytes, user_str, writable_at,
};
use crate::task::{
    Kernel, KernelView, TaskControlBlock, TaskStatus, TaskView, image_position, image_wf,
    kernel_wf, lemma_task_update_wf, link_ok, loaded, no_calls, queued_ok, scheduled, task_wf,
    with_task,
    zero_counts, MAX_SYSCALL_ID,
};

verus! {

/// A point in time as whole seconds and the microseconds beyond them.
#[derive(Clone, Copy, PartialEq, Eq, Structural, Debug)]
pub struct TimeVal {
    pub sec: usize,
    pub usec: usize,
}

/// The `n` low bytes of `x`, lowest first.
pub open spec fn le_bytes(x: nat, n: nat) -> Seq<u8>
    decreases n,
{
    if n == 0 {
        Seq::empty()
    } else {
        seq![(x % 256) as u8] + le_bytes(x / 256, (n - 1) as nat)
    }
}

/// The sixteen bytes in which a time is handed to a task: seconds, then
/// microseconds, eight bytes each.
pub open spec fn time_bytes(t: TimeVal) -> Seq<u8> {
    le_bytes(t.sec as nat, 8) + le_bytes(t.usec as nat, 8)
}

/// Appends the `n` low bytes of `x`, lowest first.
pub fn push_le_bytes(out: &mut Vec<u8>, x: u64, n: usize)
    ensures
        final(out)@ == old(out)@ + le_bytes(x as nat, n as nat),
{
    let mut v: u64 = x;
    let mut k: usize = 0;
    assert(out@ =~= old(out)@ + le_bytes(x as nat, 0));
    while k < n
        invariant
            k <= n,
            out@ + le_bytes(v as nat, (n - k) as nat) == old(out)@ + le_bytes(x as nat, n as nat),
        decreases n - k,
    {
        let ghost before = out@;
        out.push((v % 256) as u8);
        assert(out@ + le_bytes((v / 256) as nat, (n - k - 1) as nat) =~= before + le_bytes(
            v as nat,
            (n - k) as nat,
        ));
        v = v / 256;
        k += 1;
    }
    assert(out@ + le_bytes(v as nat, 0) =~= out@);
}

impl TimeVal {
    /// Splits a count of microseconds into seconds and microseconds.
    pub fn from_micros(us: usize) -> (r: TimeVal)
        ensures
            r.sec == us / 1_000_000,
            r.usec == us % 1_000_000,
    {
        TimeVal { sec: us / 1_000_000, usec: us % 1_000_000 }
    }

    /// The bytes in which the time is handed to a task.
    pub fn to_bytes(&self) -> (r: Vec<u8>)
        ensures
            r@ == time_bytes(*self),
    {
        let mut out: Vec<u8> = Vec::new();
        push_le_bytes(&mut out, self.sec as u64, 8);
        push_le_bytes(&mut out, self.usec as u64, 8);
        assert(out@ =~= time_bytes(*self));
        out
    }
}

/// A later reading of the clock never yields an earlier time: seconds do not
/// decrease, and within one second microseconds do not decrease.
pub proof fn law_time_monotone(a: usize, b: usize)
    requires
        a <= b,
    ensures
        a / 1_000_000 <= b / 1_000_000,
        a / 1_000_000 == b / 1_000_000 ==> a % 1_000_000 <= b % 1_000_000,
        a == (a / 1_000_000) * 1_000_000 + a % 1_000_000,
{
}

/// The task that makes the call.
pub open spec fn caller(k: KernelView) -> TaskView {
    k.tasks[k.current.unwrap() as int]
}

/// The model with the calling task replaced by `t`.
pub open spec fn with_caller(k: KernelView, t: TaskView) -> KernelView {
    with_task(k, k.current.unwrap() as int, t)
}

/// The identifier of the calling task.
pub fn sys_getpid(kernel: &Kernel) -> (r: isize)
    requires
        kernel.running(),
    ensures
        r == kernel@.current.unwrap(),
{
    kernel.current.unwrap() as isize
}

/// Sets the caller's priority to `prio` and returns it; a priority below 2
/// is refused with -1 and changes nothing.
pub fn sys_set_priority(kernel: &mut Kernel, prio: isize) -> (r: isize)
    requires
        old(kernel).running(),
    ensures
        final(kernel).running(),
        prio < 2 ==> r == -1 && *final(kernel) == *old(kernel),
        prio >= 2 ==> r == prio && final(kernel)@ == with_caller(
            old(kernel)@,
            (TaskView { priority: prio as usize, ..caller(old(kernel)@) }),
        ),
{
    if prio < 2 {
        return -1;
    }
    let c = kernel.current.unwrap();
    assert(old(kernel)@.tasks[c as int] == kernel.tasks@[c as int]@);
    kernel.tasks[c].priority = prio as usize;
    proof {
        let t = TaskView { priority: prio as usize, ..caller(old(kernel)@) };
        assert(kernel@.tasks =~= old(kernel)@.tasks.update(c as int, t));
        assert(kernel@.images =~= old(kernel)@.images);
        lemma_task_update_wf(old(kernel)@, c as int, t);
    }
    prio
}

/// The model after the caller gave up the processor: it joins the back of the
/// queue and the scheduler chooses.
pub open spec fn yielded(k: KernelView) -> KernelView {
    let c = k.current.unwrap();
    scheduled(
        KernelView {
            tasks: k.tasks.update(c as int, TaskView { status: TaskStatus::Ready, ..caller(k) }),
            ready: k.ready.push(c),
            current: None,
            ..k
        },
    )
}

/// The caller gives up the processor. Returns 0.
pub fn sys_yield(kernel: &mut Kernel) -> (r: isize)
    requires
        old(kernel).running(),
    ensures
        final(kernel).running(),
        r == 0,
        final(kernel)@ == yielded(old(kernel)@),
{
    let c = kernel.current.unwrap();
    assert(old(kernel)@.tasks[c as int] == kernel.tasks@[c as int]@);
    kernel.tasks[c].status = TaskStatus::Ready;
    kernel.ready.push(c);
    kernel.current = None;
    proof {
        let t = TaskView { status: TaskStatus::Ready, ..caller(old(kernel)@) };
        assert(kernel@.tasks =~= old(kernel)@.tasks.update(c as int, t));
        assert(kernel@.images =~= old(kernel)@.images);
        lemma_task_update_wf(old(kernel)@, c as int, t);
    }
    kernel.run_next();
    0
}

/// The model after the caller exited with `code`: it is a zombie that holds
/// its exit code and no memory, and the scheduler chooses.
pub open spec fn exited(k: KernelView, code: i32) -> KernelView {
    let c = k.current.unwrap();
    scheduled(
        KernelView {
            tasks: k.tasks.update(
                c as int,
                TaskView {
                    status: TaskStatus::Zombie,
                    exit_code: code,
                    memory: Seq::empty(),
                    ..caller(k)
                },
            ),
            current: None,
            ..k
        },
    )
}

/// The caller ends with `exit_code`. Its children keep it as their parent.
pub fn sys_exit(kernel: &mut Kernel, exit_code: i32)
    requires
        old(kernel).running(),
    ensures
        final(kernel).wf(),
        final(kernel)@ == exited(old(kernel)@, exit_code),
{
    let c = kernel.current.unwrap();
    assert(old(kernel)@.tasks[c as int] == kernel.tasks@[c as int]@);
    kernel.tasks[c].status = TaskStatus::Zombie;
    kernel.tasks[c].exit_code = exit_code;
    kernel.tasks[c].memory = AddressSpace::new();
    kernel.current = None;
    proof {
        let t = TaskView {
            status: TaskStatus::Zombie,
            exit_code: exit_code,
            memory: Seq::empty(),
            ..caller(old(kernel)@)
        };
        assert(kernel@.tasks =~= old(kernel)@.tasks.update(c as int, t));
        assert(kernel@.images =~= old(kernel)@.images);
        lemma_task_update_wf(old(kernel)@, c as int, t);
    }
    kernel.run_next();
}

/// The model with the caller's memory replaced by `m`.
pub open spec fn with_memory(k: KernelView, m: Seq<AreaView>) -> KernelView {
    with_caller(k, TaskView { memory: m, ..caller(k) })
}

/// Maps `len` bytes from `start` into the caller's address space with the
/// rights of mask `port`. Returns 0, or -1 where `start` is not page aligned,
/// the mask is empty or has a bit beyond read, write and execute, the range
/// is too large, or a page of it is mapped already; then nothing changes.
pub fn sys_mmap(kernel: &mut Kernel, start: usize, len: usize, port: usize) -> (r: isize)
    requires
        old(kernel).running(),
    ensures
        final(kernel).running(),
        r as int == mmap_result(
            caller(old(kernel)@).memory,
            start as int,
            len as int,
            port as int,
        ).1,
        final(kernel)@ == with_memory(
            old(kernel)@,
            mmap_result(caller(old(kernel)@).memory, start as int, len as int, port as int).0,
        ),
{
    let c = kernel.current.unwrap();
    assert(old(kernel)@.tasks[c as int] == kernel.tasks@[c as int]@);
    assert(task_wf(old(kernel)@.tasks[c as int], kernel.tasks@.len() as int));
    let r = kernel.tasks[c].memory.mmap(start, len, port);
    proof {
        let t = TaskView { memory: kernel.tasks@[c as int].memory@, ..caller(old(kernel)@) };
        assert(kernel@.tasks =~= old(kernel)@.tasks.update(c as int, t));
        assert(kernel@.images =~= old(kernel)@.images);
        lemma_task_update_wf(old(kernel)@, c as int, t);
    }
    r
}

/// Unmaps from the caller's address space the region that spans exactly the
/// pages of `len` bytes from `start`. Returns 0, or -1 where `start` is not
/// page aligned, `len` is 0, or no region has exactly those bounds; then
/// nothing changes.
pub fn sys_munmap(kernel: &mut Kernel, start: usize, len: usize) -> (r: isize)
    requires
        old(kernel).running(),
    ensures
        final(kernel).running(),
        r as int == munmap_result(caller(old(kernel)@).memory, start as int, len as int).1,
        final(kernel)@ == with_memory(
            old(kernel)@,
            munmap_result(caller(old(kernel)@).memory, start as int, len as int).0,
        ),
{
    let c = kernel.current.unwrap();
    assert(old(kernel)@.tasks[c as int] == kernel.tasks@[c as int]@);
    assert(task_wf(old(kernel)@.tasks[c as int], kernel.tasks@.len() as int));
    let r = kernel.tasks[c].memory.munmap(start, len);
    proof {
        let t = TaskView { memory: kernel.tasks@[c as int].memory@, ..caller(old(kernel)@) };
        assert(kernel@.tasks =~= old(kernel)@.tasks.update(c as int, t));
        assert(kernel@.images =~= old(kernel)@.images);
        lemma_task_update_wf(old(kernel)@, c as int, t);
    }
    r
}

/// A mapping followed by the unmapping of the same range, both made by the
/// caller and both successful, leaves the kernel as it was.
pub proof fn law_sys_mmap_then_munmap(k: KernelView, start: int, len: int, port: int)
    requires
        kernel_wf(k),
        k.current.is_some(),
        0 <= start,
        0 < len,
        mmap_result(caller(k).memory, start, len, port).1 == 0,
    ensures
        ({
            let mapped = with_memory(k, mmap_result(caller(k).memory, start, len, port).0);
            let back = munmap_result(caller(mapped).memory, start, len);
            back.1 == 0 && with_memory(mapped, back.0) == k
        }),
{
    let c = k.current.unwrap() as int;
    let m = caller(k).memory;
    assert(task_wf(k.tasks[c], k.tasks.len() as int));
    law_mmap_then_munmap(m, start, len, port, start);
    let mapped = with_memory(k, mmap_result(m, start, len, port).0);
    let back = munmap_result(caller(mapped).memory, start, len);
    assert(with_memory(mapped, back.0).tasks =~= k.tasks);
}

/// The rights of the heap: read and write, for the user.
pub open spec fn heap_perm() -> MapPermission {
    MapPermission { r: true, w: true, x: false, u: true }
}

/// Whether the caller's program break may move by `size` bytes: the new
/// break stays between the bottom and the limit of the heap, and the heap's
/// region, which starts at the page of the heap's bottom, can be made to end
/// where the new break's page ends.
pub open spec fn brk_fits(t: TaskView, size: i32) -> bool {
    &&& t.heap_bottom <= t.program_brk + size <= t.heap_limit
    &&& resize_fits(
        t.memory,
        page_floor(t.heap_bottom as int),
        page_ceil(t.program_brk + size),
    )
}

/// The task after its break moved by `size` bytes.
pub open spec fn brk_moved(t: TaskView, size: i32) -> TaskView {
    TaskView {
        program_brk: (t.program_brk + size) as usize,
        memory: resized(
            t.memory,
            page_floor(t.heap_bottom as int),
            page_ceil(t.program_brk + size),
            heap_perm(),
        ),
        ..t
    }
}

/// Moves the caller's program break by `size` bytes and returns the break as
/// it was. The pages between the heap's bottom and the break are mapped,
/// readable and writable; new ones are zero filled. Returns -1, and changes
/// nothing, where the new break would leave the heap or the heap cannot
/// grow.
pub fn sys_sbrk(kernel: &mut Kernel, size: i32) -> (r: isize)
    requires
        old(kernel).running(),
    ensures
        final(kernel).running(),
        !brk_fits(caller(old(kernel)@), size) ==> r == -1 && final(kernel)@ == old(kernel)@,
        brk_fits(caller(old(kernel)@), size) ==> r == caller(old(kernel)@).program_brk
            && final(kernel)@ == with_caller(old(kernel)@, brk_moved(caller(old(kernel)@), size)),
{
    let c = kernel.current.unwrap();
    assert(old(kernel)@.tasks[c as int] == kernel.tasks@[c as int]@);
    assert(task_wf(old(kernel)@.tasks[c as int], kernel.tasks@.len() as int));
    let brk: usize = kernel.tasks[c].program_brk;
    let moved: i128 = brk as i128 + size as i128;
    if moved < kernel.tasks[c].heap_bottom as i128 || moved > kernel.tasks[c].heap_limit as i128 {
        return -1;
    }
    let target: usize = moved as usize;
    let lo: usize = kernel.tasks[c].heap_bottom / PAGE_SIZE;
    let hi: usize = if target == 0 {
        0
    } else {
        (target - 1) / PAGE_SIZE + 1
    };
    assert(hi as int == page_ceil(target as int));
    let perm = MapPermission { r: true, w: true, x: false, u: true };
    if !kernel.tasks[c].memory.resize_from(lo, hi, perm) {
        proof {
            assert(kernel@.tasks =~= old(kernel)@.tasks);
            assert(kernel@.images =~= old(kernel)@.images);
        }
        return -1;
    }
    kernel.tasks[c].program_brk = target;
    proof {
        let t = brk_moved(caller(old(kernel)@), size);
        assert(kernel@.tasks =~= old(kernel)@.tasks.update(c as int, t));
        assert(kernel@.images =~= old(kernel)@.images);
        lemma_task_update_wf(old(kernel)@, c as int, t);
    }
    brk as isize
}

/// Reads the byte at `addr` of the address space for the user, or nothing
/// where the user may not read that address.
pub fn safe_translate_byte_read(space: &AddressSpace, addr: usize) -> (r: Option<u8>)
    requires
        space.wf(),
    ensures
        r == read_at(space@, addr as int),
{
    space.read_byte(addr)
}

/// Stores `value` at `addr` of the address space for the user. Returns
/// whether the user may write that address; where not, nothing changes.
pub fn safe_translate_byte_write(space: &mut AddressSpace, addr: usize, value: u8) -> (r: bool)
    requires
        old(space).wf(),
    ensures
        final(space).wf(),
        r == writable_at(old(space)@, addr as int),
        r ==> final(space)@ == store_at(old(space)@, addr as int, value),
        !r ==> *final(space) == *old(space),
{
    space.write_byte(addr, value)
}

/// Request to read one byte of the caller's memory.
pub const TRACE_READ: usize = 0;

/// Request to write one byte of the caller's memory.
pub const TRACE_WRITE: usize = 1;

/// Request for the number of times the caller made one system call.
pub const TRACE_SYSCALL: usize = 2;

/// The result of a trace request by task `t`.
pub open spec fn trace_result(t: TaskView, request: int, id: int, data: int) -> int {
    if request == TRACE_READ {
        match read_at(t.memory, id) {
            Some(b) => b as int,
            None => -1,
        }
    } else if request == TRACE_WRITE {
        if writable_at(t.memory, id) {
            0
        } else {
            -1
        }
    } else if request == TRACE_SYSCALL && 0 <= id < MAX_SYSCALL_ID {
        t.syscall_times[id] as int
    } else {
        -1
    }
}

/// The caller's memory after a trace request.
pub open spec fn trace_memory(m: Seq<AreaView>, request: int, id: int, data: int) -> Seq<AreaView> {
    if request == TRACE_WRITE && writable_at(m, id) {
        store_at(m, id, (data % 256) as u8)
    } else {
        m
    }
}

/// Inspects the caller. A read request returns the byte at address `id` of
/// its memory; a write request stores the low byte of `data` there and
/// returns 0; a count request returns how often the caller made system call
/// `id`. Returns -1 where the user may not make that access, where no count
/// is kept for `id`, or for another request.
pub fn sys_trace(kernel: &mut Kernel, trace_request: usize, id: usize, data: usize) -> (r: isize)
    requires
        old(kernel).running(),
    ensures
        final(kernel).running(),
        r as int == trace_result(
            caller(old(kernel)@),
            trace_request as int,
            id as int,
            data as int,
        ),
        final(kernel)@ == with_memory(
            old(kernel)@,
            trace_memory(caller(old(kernel)@).memory, trace_request as int, id as int, data as int),
        ),
{
    let c = kernel.current.unwrap();
    assert(old(kernel)@.tasks[c as int] == kernel.tasks@[c as int]@);
    assert(task_wf(old(kernel)@.tasks[c as int], kernel.tasks@.len() as int));
    let mut r: isize = -1;
    if trace_request == TRACE_READ {
        match safe_translate_byte_read(&kernel.tasks[c].memory, id) {
            Some(b) => {
                r = b as isize;
            },
            None => {},
        }
    } else if trace_request == TRACE_WRITE {
        if safe_translate_byte_write(&mut kernel.tasks[c].memory, id, (data % 256) as u8) {
            r = 0;
        }
    } else if trace_request == TRACE_SYSCALL && id < MAX_SYSCALL_ID {
        r = kernel.tasks[c].syscall_times[id] as isize;
    }
    proof {
        let t = TaskView { memory: kernel.tasks@[c as int].memory@, ..caller(old(kernel)@) };
        assert(kernel@.tasks =~= old(kernel)@.tasks.update(c as int, t));
        assert(kernel@.images =~= old(kernel)@.images);
        lemma_task_update_wf(old(kernel)@, c as int, t);
    }
    r
}

/// The counts after one more call of system call `id`: its count grows by
/// one, unless no count is kept for it or the count has reached its limit.
pub open spec fn counted(times: Seq<usize>, id: int) -> Seq<usize> {
    if 0 <= id < times.len() && times[id] < isize::MAX {
        times.update(id, (times[id] + 1) as usize)
    } else {
        times
    }
}

/// Counts one system call `id` of the caller. The dispatcher calls this
/// before it carries out the call.
pub fn record_syscall(kernel: &mut Kernel, id: usize)
    requires
        old(kernel).running(),
    ensures
        final(kernel).running(),
        final(kernel)@ == with_caller(
            old(kernel)@,
            (TaskView {
                syscall_times: counted(caller(old(kernel)@).syscall_times, id as int),
                ..caller(old(kernel)@)
            }),
        ),
{
    let c = kernel.current.unwrap();
    assert(old(kernel)@.tasks[c as int] == kernel.tasks@[c as int]@);
    assert(task_wf(old(kernel)@.tasks[c as int], kernel.tasks@.len() as int));
    if id < MAX_SYSCALL_ID {
        let n = kernel.tasks[c].syscall_times[id];
        if n < isize::MAX as usize {
            kernel.tasks[c].syscall_times[id] = n + 1;
        }
    }
    proof {
        let t = TaskView {
            syscall_times: counted(caller(old(kernel)@).syscall_times, id as int),
            ..caller(old(kernel)@)
        };
        assert(kernel.tasks@[c as int].syscall_times@ =~= t.syscall_times);
        assert(kernel@.tasks =~= old(kernel)@.tasks.update(c as int, t));
        assert(kernel@.images =~= old(kernel)@.images);
        lemma_task_update_wf(old(kernel)@, c as int, t);
    }
}

/// The caller's memory after the time `t` was handed to it at `ts`.
pub open spec fn time_stored(m: Seq<AreaView>, ts: int, t: TimeVal) -> Seq<AreaView> {
    if ts + 16 <= usize::MAX + 1 && all_writable(m, ts, 16) {
        store_bytes(m, ts, time_bytes(t))
    } else {
        m
    }
}

/// Hands the caller the time `now_us`, a count of microseconds, as sixteen
/// bytes at address `ts`, which may lie on two pages. Returns 0, or -1 where
/// the user may not write one of those bytes; then nothing is stored.
pub fn sys_get_time(kernel: &mut Kernel, ts: usize, now_us: usize) -> (r: isize)
    requires
        old(kernel).running(),
    ensures
        final(kernel).running(),
        r == (if ts + 16 <= usize::MAX + 1 && all_writable(caller(old(kernel)@).memory, ts as int, 16) {
            0isize
        } else {
            -1isize
        }),
        final(kernel)@ == with_memory(
            old(kernel)@,
            time_stored(
                caller(old(kernel)@).memory,
                ts as int,
                (TimeVal { sec: now_us / 1_000_000, usec: now_us % 1_000_000 }),
            ),
        ),
{
    let c = kernel.current.unwrap();
    assert(old(kernel)@.tasks[c as int] == kernel.tasks@[c as int]@);
    assert(task_wf(old(kernel)@.tasks[c as int], kernel.tasks@.len() as int));
    let tv = TimeVal::from_micros(now_us);
    let bytes = tv.to_bytes();
    proof {
        lemma_le_bytes_len(tv.sec as nat, 8);
        lemma_le_bytes_len(tv.usec as nat, 8);
    }
    let ok = kernel.tasks[c].memory.write_bytes(ts, &bytes);
    proof {
        let t = TaskView { memory: kernel.tasks@[c as int].memory@, ..caller(old(kernel)@) };
        assert(kernel@.tasks =~= old(kernel)@.tasks.update(c as int, t));
        assert(kernel@.images =~= old(kernel)@.images);
        lemma_task_update_wf(old(kernel)@, c as int, t);
    }
    if ok {
        0
    } else {
        -1
    }
}

/// The task that a fork creates: a copy of the caller, ready to run, whose
/// parent is the caller and whose own call returns 0.
pub open spec fn fork_child(k: KernelView) -> TaskView {
    TaskView {
        live: true,
        parent: k.current,
        children: Seq::empty(),
        status: TaskStatus::Ready,
        exit_code: 0,
        return_value: 0,
        syscall_times: no_calls(),
        ..caller(k)
    }
}

/// The model after `child` was added as a new task and child of the caller.
pub open spec fn with_new_child(k: KernelView, child: TaskView) -> KernelView {
    let n = k.tasks.len() as usize;
    KernelView {
        tasks: k.tasks.update(
            k.current.unwrap() as int,
            TaskView { children: caller(k).children.push(n), ..caller(k) },
        ).push(child),
        ready: k.ready.push(n),
        ..k
    }
}

/// A task that is well formed in an arena stays so in a larger one.
pub proof fn lemma_task_wf_grows(k: KernelView)
    requires
        kernel_wf(k),
    ensures
        forall|j: int| 0 <= j < k.tasks.len() ==> task_wf(#[trigger] k.tasks[j], (k.tasks.len() + 1) as int),
{
    assert forall|j: int| 0 <= j < k.tasks.len() implies task_wf(
        #[trigger] k.tasks[j],
        (k.tasks.len() + 1) as int,
    ) by {
        assert(task_wf(k.tasks[j], k.tasks.len() as int));
    }
}

/// Adds `child` to the arena as a child of the caller and queues it.
fn adopt(kernel: &mut Kernel, child: TaskControlBlock) -> (r: usize)
    requires
        old(kernel).running(),
        old(kernel).tasks@.len() < isize::MAX,
        task_wf(child@, (old(kernel).tasks@.len() + 1) as int),
        child.live,
        child.status == TaskStatus::Ready,
        child.parent == old(kernel).current,
        child.children@.len() == 0,
    ensures
        final(kernel).running(),
        r == old(kernel).tasks@.len(),
        final(kernel)@ == with_new_child(old(kernel)@, child@),
{
    let c = kernel.current.unwrap();
    let n = kernel.tasks.len();
    assert(old(kernel)@.tasks[c as int] == kernel.tasks@[c as int]@);
    kernel.tasks[c].children.push(n);
    kernel.tasks.push(child);
    kernel.ready.push(n);
    proof {
        let k = old(kernel)@;
        lemma_task_wf_grows(k);
        assert(kernel@.tasks =~= with_new_child(k, child@).tasks);
        assert(kernel@.images =~= k.images);
        assert forall|j: int| 0 <= j < kernel@.tasks.len() implies task_wf(
            #[trigger] kernel@.tasks[j],
            kernel@.tasks.len() as int,
        ) by {
            if j < n && j != c {
                assert(kernel@.tasks[j] == k.tasks[j]);
            } else if j == c {
                assert(task_wf(k.tasks[j], n + 1));
            }
        }
        assert forall|a: int, b: int|
            0 <= a < kernel@.tasks.len() && 0 <= b < kernel@.tasks[a].children.len() implies #[trigger] link_ok(
            kernel@.tasks,
            a,
            b,
        ) by {
            if a == c && b == k.tasks[a].children.len() {
            } else {
                assert(link_ok(k.tasks, a, b));
            }
        }
        assert forall|i: int| 0 <= i < kernel@.ready.len() implies queued_ok(
            kernel@,
            #[trigger] kernel@.ready[i],
        ) by {
            if i < k.ready.len() {
                assert(queued_ok(k, k.ready[i]));
            }
        }
        assert forall|i: int, j: int|
            0 <= i < kernel@.ready.len() && 0 <= j < kernel@.ready.len() && i
                != j implies #[trigger] kernel@.ready[i] != #[trigger] kernel@.ready[j] by {
            if i < k.ready.len() {
                assert(queued_ok(k, k.ready[i]));
            }
            if j < k.ready.len() {
                assert(queued_ok(k, k.ready[j]));
            }
        }
    }
    n
}

/// Duplicates the caller: the new task gets the next free identifier, a copy
/// of the caller's memory, its priority and its stride, becomes its child and
/// joins the back of the queue. Returns the new identifier to the caller; the
/// child's own call returns 0. Returns -1, and changes nothing, where no
/// identifier is left.
pub fn sys_fork(kernel: &mut Kernel) -> (r: isize)
    requires
        old(kernel).running(),
    ensures
        final(kernel).running(),
        old(kernel)@.tasks.len() >= isize::MAX ==> r == -1 && *final(kernel) == *old(kernel),
        old(kernel)@.tasks.len() < isize::MAX ==> r == old(kernel)@.tasks.len() && final(kernel)@
            == with_new_child(old(kernel)@, fork_child(old(kernel)@)),
{
    if kernel.tasks.len() >= isize::MAX as usize {
        return -1;
    }
    let c = kernel.current.unwrap();
    assert(old(kernel)@.tasks[c as int] == kernel.tasks@[c as int]@);
    assert(task_wf(old(kernel)@.tasks[c as int], kernel.tasks@.len() as int));
    let me = &kernel.tasks[c];
    let child = TaskControlBlock {
        live: true,
        parent: Some(c),
        children: Vec::new(),
        status: TaskStatus::Ready,
        exit_code: 0,
        priority: me.priority,
        stride: me.stride,
        return_value: 0,
        entry: me.entry,
        heap_bottom: me.heap_bottom,
        program_brk: me.program_brk,
        heap_limit: me.heap_limit,
        syscall_times: zero_counts(),
        memory: me.memory.duplicate(),
    };
    assert(child@ == fork_child(old(kernel)@)) by {
        assert(child@.children =~= Seq::<usize>::empty());
    }
    adopt(kernel, child) as isize
}

/// The caller can read a name at `path`, and an image has that name.
pub open spec fn image_named(k: KernelView, path: int) -> bool {
    has_user_str(caller(k).memory, path) && image_position(
        k.images,
        user_str(caller(k).memory, path),
        0,
    ) < k.images.len()
}

/// The image whose name the caller holds at `path`.
pub open spec fn image_at(k: KernelView, path: int) -> int {
    image_position(k.images, user_str(caller(k).memory, path), 0)
}

/// Finds the image whose name stands at `path` in the caller's memory.
pub fn lookup_image(kernel: &Kernel, path: usize) -> (r: Option<usize>)
    requires
        kernel.running(),
    ensures
        r.is_some() == image_named(kernel@, path as int),
        r.is_some() ==> r.unwrap() == image_at(kernel@, path as int),
{
    let c = kernel.current.unwrap();
    assert(kernel@.tasks[c as int] == kernel.tasks@[c as int]@);
    assert(task_wf(kernel@.tasks[c as int], kernel.tasks@.len() as int));
    match kernel.tasks[c].memory.read_str(path) {
        Some(name) => kernel.find_image(&name),
        None => None,
    }
}

/// Replaces the caller's program by the image whose name stands at `path` in
/// its memory, ended by a 0 byte: the caller gets the image's regions, entry
/// point and heap, and keeps its identifier, parent, children, priority and
/// stride. Returns 0, or -1, with no change, where the user may not read the
/// name or no image has it.
pub fn sys_exec(kernel: &mut Kernel, path: usize) -> (r: isize)
    requires
        old(kernel).running(),
    ensures
        final(kernel).running(),
        r == (if image_named(old(kernel)@, path as int) {
            0isize
        } else {
            -1isize
        }),
        r == -1 ==> *final(kernel) == *old(kernel),
        r == 0 ==> final(kernel)@ == with_caller(
            old(kernel)@,
            loaded(caller(old(kernel)@), old(kernel)@.images[image_at(old(kernel)@, path as int)]),
        ),
{
    let c = kernel.current.unwrap();
    assert(old(kernel)@.tasks[c as int] == kernel.tasks@[c as int]@);
    assert(task_wf(old(kernel)@.tasks[c as int], kernel.tasks@.len() as int));
    match lookup_image(kernel, path) {
        Some(i) => {
            assert(kernel@.images[i as int] == kernel.images@[i as int]@);
            assert(image_wf(kernel@.images[i as int]));
            let memory = kernel.images[i].memory.duplicate();
            let entry = kernel.images[i].entry;
            let bottom = kernel.images[i].heap_bottom;
            let limit = kernel.images[i].heap_limit;
            kernel.tasks[c].memory = memory;
            kernel.tasks[c].entry = entry;
            kernel.tasks[c].heap_bottom = bottom;
            kernel.tasks[c].program_brk = bottom;
            kernel.tasks[c].heap_limit = limit;
            proof {
                let k = old(kernel)@;
                let t = loaded(caller(k), k.images[i as int]);
                assert(kernel@.tasks =~= k.tasks.update(c as int, t));
                assert(kernel@.images =~= k.images);
                lemma_task_update_wf(k, c as int, t);
            }
            0
        },
        None => -1,
    }
}

/// Whether a spawn from `path` creates a task.
pub open spec fn spawn_succeeds(k: KernelView, path: int) -> bool {
    image_named(k, path) && k.tasks.len() < isize::MAX
}

/// Creates a child of the caller that runs the image whose name stands at
/// `path` in the caller's memory, without copying the caller's memory. The
/// child gets the next free identifier, the caller's priority and stride and
/// joins the back of the queue. Returns the child's identifier, or -1, with
/// no change, where the user may not read the name, no image has it, or no
/// identifier is left.
pub fn sys_spawn(kernel: &mut Kernel, path: usize) -> (r: isize)
    requires
        old(kernel).running(),
    ensures
        final(kernel).running(),
        !spawn_succeeds(old(kernel)@, path as int) ==> r == -1 && *final(kernel) == *old(kernel),
        spawn_succeeds(old(kernel)@, path as int) ==> r == old(kernel)@.tasks.len(),
        spawn_succeeds(old(kernel)@, path as int) ==> final(kernel)@ == with_new_child(
            old(kernel)@,
            loaded(
                fork_child(old(kernel)@),
                old(kernel)@.images[image_at(old(kernel)@, path as int)],
            ),
        ),
{
    if kernel.tasks.len() >= isize::MAX as usize {
        return -1;
    }
    let c = kernel.current.unwrap();
    assert(old(kernel)@.tasks[c as int] == kernel.tasks@[c as int]@);
    assert(task_wf(old(kernel)@.tasks[c as int], kernel.tasks@.len() as int));
    match lookup_image(kernel, path) {
        Some(i) => {
            assert(kernel@.images[i as int] == kernel.images@[i as int]@);
            assert(image_wf(kernel@.images[i as int]));
            let m = &kernel.images[i];
            let child = TaskControlBlock {
                live: true,
                parent: Some(c),
                children: Vec::new(),
                status: TaskStatus::Ready,
                exit_code: 0,
                priority: kernel.tasks[c].priority,
                stride: kernel.tasks[c].stride,
                return_value: 0,
                entry: m.entry,
                heap_bottom: m.heap_bottom,
                program_brk: m.heap_bottom,
                heap_limit: m.heap_limit,
                syscall_times: zero_counts(),
                memory: m.memory.duplicate(),
            };
            assert(child@ == loaded(fork_child(old(kernel)@), old(kernel)@.images[i as int])) by {
                assert(child@.children =~= Seq::<usize>::empty());
            }
            adopt(kernel, child) as isize
        },
        None => -1,
    }
}

/// A wait for `pid` is a wait for `child`.
pub open spec fn child_matches(pid: int, child: usize) -> bool {
    pid == -1 || pid == child
}

/// The caller has a child that a wait for `pid` is a wait for.
pub open spec fn has_child(k: KernelView, pid: int) -> bool {
    exists|j: int|
        0 <= j < caller(k).children.len() && child_matches(pid, #[trigger] caller(k).children[j])
}

/// Position among the caller's children, from `from` on, of the first zombie
/// that a wait for `pid` is a wait for; the number of children where there is
/// none.
pub open spec fn first_zombie(k: KernelView, pid: int, from: int) -> int
    decreases caller(k).children.len() - from,
{
    let ch = caller(k).children;
    if from < 0 || from >= ch.len() {
        ch.len() as int
    } else if child_matches(pid, ch[from]) && k.tasks[ch[from] as int].status == TaskStatus::Zombie {
        from
    } else {
        first_zombie(k, pid, from + 1)
    }
}

/// Where no child from position `from` on is a zombie that the wait is for,
/// the search finds none.
pub proof fn lemma_no_zombie(k: KernelView, pid: int, from: int)
    requires
        0 <= from,
        forall|j: int|
            from <= j < caller(k).children.len() ==> !(child_matches(pid, caller(k).children[j])
                && k.tasks[(#[trigger] caller(k).children[j]) as int].status == TaskStatus::Zombie),
    ensures
        first_zombie(k, pid, from) == caller(k).children.len(),
    decreases caller(k).children.len() - from,
{
    if from < caller(k).children.len() {
        let ch = caller(k).children[from];
        assert(!(child_matches(pid, ch) && k.tasks[ch as int].status == TaskStatus::Zombie));
        lemma_no_zombie(k, pid, from + 1);
    }
}

/// A task without zombie children that forks and at once waits for any child
/// is told that none has ended yet.
pub proof fn law_wait_after_fork(k: KernelView, ptr: int)
    requires
        kernel_wf(k),
        k.current.is_some(),
        k.tasks.len() < isize::MAX,
        forall|j: int|
            0 <= j < caller(k).children.len() ==> k.tasks[(#[trigger] caller(k).children[j]) as int].status
                != TaskStatus::Zombie,
    ensures
        waitpid_result(with_new_child(k, fork_child(k)), -1, ptr) == -2,
{
    let f = with_new_child(k, fork_child(k));
    let c = k.current.unwrap() as int;
    let n = k.tasks.len() as int;
    let old_children = caller(k).children;
    assert(task_wf(k.tasks[c], n));
    assert(caller(f).children == old_children.push(n as usize));
    assert(child_matches(-1, caller(f).children[old_children.len() as int]));
    assert forall|j: int| 0 <= j < caller(f).children.len() implies !(child_matches(
        -1,
        caller(f).children[j],
    ) && f.tasks[(#[trigger] caller(f).children[j]) as int].status == TaskStatus::Zombie) by {
        if j < old_children.len() {
            let ch = old_children[j];
            assert(caller(f).children[j] == ch);
            assert(k.tasks[ch as int].status != TaskStatus::Zombie);
        }
    }
    lemma_no_zombie(f, -1, 0);
}

/// The four bytes in which an exit code is handed to a task, lowest first.
pub open spec fn exit_code_bytes(code: i32) -> Seq<u8> {
    le_bytes((code as u32) as nat, 4)
}

/// The result of a wait for `pid` with address `ptr` for the exit code.
pub open spec fn waitpid_result(k: KernelView, pid: int, ptr: int) -> int {
    let j = first_zombie(k, pid, 0);
    if !has_child(k, pid) {
        -1
    } else if j == caller(k).children.len() {
        -2
    } else if !(ptr + 4 <= usize::MAX + 1 && all_writable(caller(k).memory, ptr, 4)) {
        -1
    } else {
        caller(k).children[j] as int
    }
}

/// The model after a wait that reaped the child at position `j` of the
/// caller's children: the child's slot is dead, it is no child any more, and
/// its exit code stands in the caller's memory at `ptr`.
pub open spec fn reaped(k: KernelView, j: int, ptr: int) -> KernelView {
    let c = k.current.unwrap() as int;
    let child = caller(k).children[j] as int;
    let dead = k.tasks.update(child, TaskView { live: false, ..k.tasks[child] });
    KernelView {
        tasks: dead.update(
            c,
            TaskView {
                children: dead[c].children.remove(j),
                memory: store_bytes(dead[c].memory, ptr, exit_code_bytes(k.tasks[child].exit_code)),
                ..dead[c]
            },
        ),
        ..k
    }
}

/// The child at position `j` of task `i`.
pub open spec fn child_at(k: KernelView, i: int, j: int) -> usize {
    k.tasks[i].children[j]
}

/// Nothing names task `pid`: it is no task's child, does not wait in the
/// queue and does not run.
pub open spec fn unreferenced(k: KernelView, pid: usize) -> bool {
    &&& forall|i: int, j: int|
        0 <= i < k.tasks.len() && 0 <= j < k.tasks[i].children.len() ==> #[trigger] child_at(k, i, j)
            != pid
    &&& forall|i: int| 0 <= i < k.ready.len() ==> #[trigger] k.ready[i] != pid
    &&& k.current != Some(pid)
}

/// Reaps one zombie child of the caller: the first in the list of children
/// that is `pid`, or the first of all where `pid` is -1. Returns the child's
/// identifier and stores its exit code at `exit_code_ptr`. Returns -1 where
/// the caller has no such child, zombie or not; -2 where it has one and none
/// is a zombie yet; -1 where the user may not write the four bytes at
/// `exit_code_ptr`. In these cases nothing changes. After a reaping nothing
/// names the child any more.
pub fn sys_waitpid(kernel: &mut Kernel, pid: isize, exit_code_ptr: usize) -> (r: isize)
    requires
        old(kernel).running(),
    ensures
        final(kernel).running(),
        r as int == waitpid_result(old(kernel)@, pid as int, exit_code_ptr as int),
        r < 0 ==> *final(kernel) == *old(kernel),
        r >= 0 ==> final(kernel)@ == reaped(
            old(kernel)@,
            first_zombie(old(kernel)@, pid as int, 0),
            exit_code_ptr as int,
        ),
        r >= 0 ==> !final(kernel)@.tasks[r as int].live && unreferenced(final(kernel)@, r as usize),
{
    let c = kernel.current.unwrap();
    assert(old(kernel)@.tasks[c as int] == kernel.tasks@[c as int]@);
    assert(task_wf(old(kernel)@.tasks[c as int], kernel.tasks@.len() as int));
    let n = kernel.tasks[c].children.len();
    let mut any = false;
    let mut found: usize = n;
    let mut j: usize = n;
    while j > 0
        invariant
            *kernel == *old(kernel),
            kernel.running(),
            c == kernel.current.unwrap(),
            n == caller(kernel@).children.len(),
            j <= n,
            found <= n,
            found as int == first_zombie(kernel@, pid as int, j as int),
            found < n ==> kernel@.tasks[caller(kernel@).children[found as int] as int].status
                == TaskStatus::Zombie,
            any == exists|i: int|
                j <= i < n && child_matches(pid as int, #[trigger] caller(kernel@).children[i]),
        decreases j,
    {
        j -= 1;
        assert(kernel@.tasks[c as int] == kernel.tasks@[c as int]@);
        assert(task_wf(kernel@.tasks[c as int], kernel.tasks@.len() as int));
        let child = kernel.tasks[c].children[j];
        assert(child == caller(kernel@).children[j as int]);
        assert(kernel@.tasks[child as int] == kernel.tasks@[child as int]@);
        if pid == -1 || (pid >= 0 && pid as usize == child) {
            any = true;
            if kernel.tasks[child].status == TaskStatus::Zombie {
                found = j;
            }
        }
    }
    if !any {
        return -1;
    }
    if found == n {
        return -2;
    }
    let child = kernel.tasks[c].children[found];
    assert(child == caller(old(kernel)@).children[found as int]);
    assert(old(kernel)@.tasks[child as int] == kernel.tasks@[child as int]@);
    assert(task_wf(old(kernel)@.tasks[child as int], kernel.tasks@.len() as int));
    let code = kernel.tasks[child].exit_code;
    let mut bytes: Vec<u8> = Vec::new();
    push_le_bytes(&mut bytes, (#[verifier::truncate] (code as u32)) as u64, 4);
    proof {
        lemma_le_bytes_len((code as u32) as nat, 4);
        assert(bytes@ =~= exit_code_bytes(code));
    }
    if !kernel.tasks[c].memory.can_write_all(exit_code_ptr, 4) {
        return -1;
    }
    kernel.tasks[child].live = false;
    let ghost dead = kernel@.tasks;
    assert(dead =~= old(kernel)@.tasks.update(
        child as int,
        TaskView { live: false, ..old(kernel)@.tasks[child as int] },
    ));
    assert(dead[c as int] == kernel.tasks@[c as int]@);
    let _ = kernel.tasks[c].memory.write_bytes(exit_code_ptr, &bytes);
    let _ = kernel.tasks[c].children.remove(found);
    proof {
        let k = old(kernel)@;
        let want = reaped(k, found as int, exit_code_ptr as int);
        assert(kernel@.tasks =~= want.tasks);
        assert(kernel@.images =~= k.images);
        assert forall|i: int| 0 <= i < kernel@.tasks.len() implies task_wf(
            #[trigger] kernel@.tasks[i],
            kernel@.tasks.len() as int,
        ) by {
            assert(task_wf(k.tasks[i], k.tasks.len() as int));
            if i == c {
                let oldc = k.tasks[i].children;
                let newc = kernel@.tasks[i].children;
                assert forall|q: int| 0 <= q < newc.len() implies (#[trigger] newc[q])
                    < kernel@.tasks.len() by {
                    assert(newc[q] == oldc[if q < found { q } else { q + 1 }]);
                }
            }
        }
    }
    proof {
        let k = old(kernel)@;
        assert forall|i: int| 0 <= i < kernel@.ready.len() implies queued_ok(
            kernel@,
            #[trigger] kernel@.ready[i],
        ) by {
            assert(queued_ok(k, k.ready[i]));
            assert(k.tasks[child as int].status == TaskStatus::Zombie);
        }
        assert forall|a: int, b: int|
            0 <= a < kernel@.tasks.len() && 0 <= b < kernel@.tasks[a].children.len() implies #[trigger] link_ok(
            kernel@.tasks,
            a,
            b,
        ) by {
            if a == c {
                assert(link_ok(k.tasks, a, if b < found { b } else { b + 1 }));
            } else {
                assert(link_ok(k.tasks, a, b));
            }
        }
        assert(link_ok(k.tasks, c as int, found as int));
        assert forall|a: int, b: int|
            0 <= a < kernel@.tasks.len() && 0 <= b < kernel@.tasks[a].children.len() implies #[trigger] child_at(
            kernel@,
            a,
            b,
        ) != child by {
            if a == c {
                let ob = if b < found { b } else { b + 1 };
                assert(kernel@.tasks[a].children[b] == k.tasks[a].children[ob]);
                assert(task_wf(k.tasks[a], k.tasks.len() as int));
            } else {
                assert(link_ok(k.tasks, a, b));
            }
        }
        assert forall|i: int| 0 <= i < kernel@.ready.len() implies #[trigger] kernel@.ready[i]
            != child by {
            assert(queued_ok(k, k.ready[i]));
        }
    }
    child as isize
}

/// `n` low bytes are `n` bytes.
pub proof fn lemma_le_bytes_len(x: nat, n: nat)
    ensures
        le_bytes(x, n).len() == n,
    decreases n,
{
    if n > 0 {
        lemma_le_bytes_len(x / 256, (n - 1) as nat);
    }
}

} // verus!
