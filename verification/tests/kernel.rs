use proc_core::memory::{AddressSpace, PAGE_SIZE};
use proc_core::sync::{Mutex, MutexBlocking, MutexSpin};
use proc_core::syscall::{
    push_le_bytes, record_syscall, safe_translate_byte_read, safe_translate_byte_write, sys_exec, sys_exit,
    sys_fork, sys_get_time, sys_getpid, sys_mmap, sys_munmap, sys_sbrk, sys_set_priority,
    sys_spawn, sys_trace, sys_waitpid, sys_yield, TimeVal,
};
use proc_core::task::{
    bytes_equal, stride_less, Image, Kernel, TaskStatus, BIG_STRIDE, DEFAULT_PRIORITY,
};

const DATA: usize = 0x10000;

fn image(name: &str, entry: usize) -> Image {
    let mut memory = AddressSpace::new();
    assert_eq!(memory.mmap(DATA, 2 * PAGE_SIZE, 3), 0);
    assert!(memory.write_bytes(DATA, &b"init\0child\0none\0".to_vec()));
    Image {
        name: name.as_bytes().to_vec(),
        entry,
        heap_bottom: 0x40000,
        heap_limit: 0x48000,
        memory,
    }
}

fn booted() -> Kernel {
    let mut k = Kernel::new();
    k.register_image(image("init", 0x100));
    k.register_image(image("child", 0x200));
    assert_eq!(k.start(0), Some(0));
    k.run_next();
    assert_eq!(k.current, Some(0));
    k
}

#[test]
fn boot_runs_first_task() {
    let k = booted();
    assert_eq!(sys_getpid(&k), 0);
    assert_eq!(k.tasks[0].status, TaskStatus::Running);
    assert_eq!(k.tasks[0].priority, DEFAULT_PRIORITY);
    assert_eq!(k.tasks[0].stride, BIG_STRIDE / 16);
    assert_eq!(k.tasks[0].entry, 0x100);
    assert_eq!(k.tasks[0].parent, None);
    assert!(k.ready.is_empty());
}

#[test]
fn yield_alone_keeps_running() {
    let mut k = booted();
    assert_eq!(sys_yield(&mut k), 0);
    assert_eq!(k.current, Some(0));
    assert_eq!(k.tasks[0].stride, 2 * (BIG_STRIDE / 16));
}

#[test]
fn fork_then_wait_then_exit() {
    let mut k = booted();
    let child = sys_fork(&mut k);
    assert_eq!(child, 1);
    assert_eq!(k.tasks[1].parent, Some(0));
    assert_eq!(k.tasks[1].return_value, 0);
    assert_eq!(k.tasks[0].children, vec![1]);
    assert_eq!(k.ready, vec![1]);
    assert_eq!(sys_waitpid(&mut k, -1, DATA + 0x100), -2);
    assert_eq!(sys_waitpid(&mut k, 1, DATA + 0x100), -2);
    assert_eq!(sys_waitpid(&mut k, 5, DATA + 0x100), -1);
    assert_eq!(sys_yield(&mut k), 0);
    assert_eq!(k.current, Some(1));
    assert_eq!(sys_getpid(&k), 1);
    sys_exit(&mut k, 42);
    assert_eq!(k.tasks[1].status, TaskStatus::Zombie);
    assert_eq!(k.tasks[1].memory.areas.len(), 0);
    assert_eq!(k.current, Some(0));
    assert_eq!(sys_waitpid(&mut k, -1, DATA + 0x100), 1);
    assert_eq!(sys_trace(&mut k, 0, DATA + 0x100, 0), 42);
    assert_eq!(sys_trace(&mut k, 0, DATA + 0x101, 0), 0);
    assert_eq!(sys_trace(&mut k, 0, DATA + 0x103, 0), 0);
    assert!(k.tasks[0].children.is_empty());
    assert!(!k.tasks[1].live);
    assert_eq!(sys_waitpid(&mut k, -1, DATA + 0x100), -1);
}

#[test]
fn waitpid_writes_negative_exit_code() {
    let mut k = booted();
    assert_eq!(sys_fork(&mut k), 1);
    assert_eq!(sys_yield(&mut k), 0);
    sys_exit(&mut k, -2);
    assert_eq!(sys_waitpid(&mut k, 1, DATA + 0xffe), 1);
    assert_eq!(sys_trace(&mut k, 0, DATA + 0xffe, 0), 0xfe);
    assert_eq!(sys_trace(&mut k, 0, DATA + 0xfff, 0), 0xff);
    assert_eq!(sys_trace(&mut k, 0, DATA + 0x1000, 0), 0xff);
    assert_eq!(sys_trace(&mut k, 0, DATA + 0x1001, 0), 0xff);
}

#[test]
fn waitpid_reaps_first_zombie_in_list_order() {
    let mut k = booted();
    assert_eq!(sys_fork(&mut k), 1);
    assert_eq!(sys_fork(&mut k), 2);
    assert_eq!(sys_yield(&mut k), 0);
    assert_eq!(k.current, Some(1));
    sys_exit(&mut k, 7);
    assert_eq!(k.current, Some(2));
    sys_exit(&mut k, 8);
    assert_eq!(k.current, Some(0));
    assert_eq!(sys_waitpid(&mut k, 2, DATA + 0x100), 2);
    assert_eq!(sys_trace(&mut k, 0, DATA + 0x100, 0), 8);
    assert_eq!(sys_waitpid(&mut k, -1, DATA + 0x100), 1);
    assert_eq!(sys_trace(&mut k, 0, DATA + 0x100, 0), 7);
}

#[test]
fn waitpid_with_bad_pointer_reaps_nothing() {
    let mut k = booted();
    assert_eq!(sys_fork(&mut k), 1);
    assert_eq!(sys_yield(&mut k), 0);
    sys_exit(&mut k, 3);
    assert_eq!(sys_waitpid(&mut k, -1, 0x8000_0000), -1);
    assert_eq!(k.tasks[0].children, vec![1]);
    assert!(k.tasks[1].live);
    assert_eq!(sys_waitpid(&mut k, -1, DATA), 1);
}

#[test]
fn exit_of_last_task_leaves_processor_free() {
    let mut k = booted();
    sys_exit(&mut k, 0);
    assert_eq!(k.current, None);
    assert_eq!(k.tasks[0].status, TaskStatus::Zombie);
    assert_eq!(k.tasks[0].exit_code, 0);
}

#[test]
fn exit_keeps_children_of_zombie() {
    let mut k = booted();
    assert_eq!(sys_fork(&mut k), 1);
    sys_exit(&mut k, 1);
    assert_eq!(k.current, Some(1));
    assert_eq!(k.tasks[1].parent, Some(0));
    assert_eq!(k.tasks[0].children, vec![1]);
}

#[test]
fn fork_copies_memory() {
    let mut k = booted();
    assert_eq!(sys_trace(&mut k, 1, DATA + 0x200, 0x155), 0);
    assert_eq!(sys_fork(&mut k), 1);
    assert_eq!(sys_trace(&mut k, 1, DATA + 0x200, 9), 0);
    assert_eq!(sys_yield(&mut k), 0);
    assert_eq!(k.current, Some(1));
    assert_eq!(sys_trace(&mut k, 0, DATA + 0x200, 0), 0x55);
    assert_eq!(k.tasks[1].priority, k.tasks[0].priority);
}

#[test]
fn set_priority_rejects_below_two() {
    let mut k = booted();
    assert_eq!(sys_set_priority(&mut k, 1), -1);
    assert_eq!(sys_set_priority(&mut k, 0), -1);
    assert_eq!(sys_set_priority(&mut k, -5), -1);
    assert_eq!(k.tasks[0].priority, DEFAULT_PRIORITY);
    assert_eq!(sys_set_priority(&mut k, 10), 10);
    assert_eq!(k.tasks[0].priority, 10);
    assert_eq!(sys_set_priority(&mut k, 2), 2);
    assert_eq!(k.tasks[0].priority, 2);
}

#[test]
fn higher_priority_runs_in_proportion() {
    let mut k = booted();
    assert_eq!(sys_set_priority(&mut k, 10), 10);
    assert_eq!(sys_fork(&mut k), 1);
    assert_eq!(sys_yield(&mut k), 0);
    if k.current == Some(0) {
        assert_eq!(sys_yield(&mut k), 0);
    }
    assert_eq!(k.current, Some(1));
    assert_eq!(sys_set_priority(&mut k, 2), 2);
    let mut runs = [0usize; 2];
    for _ in 0..6000 {
        assert_eq!(sys_yield(&mut k), 0);
        runs[k.current.unwrap()] += 1;
    }
    assert_eq!(runs[0] + runs[1], 6000);
    assert!(runs[0] >= 4990 && runs[0] <= 5010, "{}", runs[0]);
    assert!(runs[1] >= 990 && runs[1] <= 1010, "{}", runs[1]);
}

#[test]
fn stride_order_wraps_around() {
    assert!(stride_less(1, 2));
    assert!(!stride_less(2, 1));
    assert!(!stride_less(5, 5));
    assert!(stride_less(u64::MAX, 3));
    assert!(!stride_less(3, u64::MAX));
    assert!(stride_less(0, 0x7fff_ffff_ffff_ffff));
    assert!(!stride_less(0, 0x8000_0000_0000_0000));
    assert!(!stride_less(0x8000_0000_0000_0000, 0));
}

#[test]
fn scheduler_picks_smallest_stride_first_in_queue() {
    let mut k = booted();
    assert_eq!(sys_fork(&mut k), 1);
    assert_eq!(sys_fork(&mut k), 2);
    k.tasks[1].stride = 50;
    k.tasks[2].stride = 50;
    k.tasks[0].stride = 70;
    assert_eq!(k.pick(), 0);
    assert_eq!(sys_yield(&mut k), 0);
    assert_eq!(k.current, Some(1));
    assert_eq!(k.ready, vec![2, 0]);
    assert_eq!(k.tasks[1].stride, 50 + BIG_STRIDE / 16);
    k.tasks[0].stride = 10;
    assert_eq!(k.pick(), 1);
}

#[test]
fn stride_advance_wraps() {
    let mut k = booted();
    k.tasks[0].stride = u64::MAX;
    k.tasks[0].priority = 2;
    assert_eq!(sys_yield(&mut k), 0);
    assert_eq!(k.tasks[0].stride, BIG_STRIDE / 2 - 1);
}

#[test]
fn get_time_writes_seconds_and_microseconds() {
    let mut k = booted();
    assert_eq!(sys_get_time(&mut k, DATA + 0xff8, 3_000_257), 0);
    assert_eq!(sys_trace(&mut k, 0, DATA + 0xff8, 0), 3);
    assert_eq!(sys_trace(&mut k, 0, DATA + 0xff9, 0), 0);
    assert_eq!(sys_trace(&mut k, 0, DATA + 0x1000, 0), 1);
    assert_eq!(sys_trace(&mut k, 0, DATA + 0x1001, 0), 1);
    assert_eq!(sys_trace(&mut k, 0, DATA + 0x1002, 0), 0);
}

#[test]
fn get_time_rejects_unmapped_pointer() {
    let mut k = booted();
    assert_eq!(sys_get_time(&mut k, DATA + 2 * PAGE_SIZE - 8, 5), -1);
    assert_eq!(sys_trace(&mut k, 0, DATA + 2 * PAGE_SIZE - 8, 0), 0);
    assert_eq!(sys_get_time(&mut k, 0, 5), -1);
    assert_eq!(sys_get_time(&mut k, usize::MAX - 3, 5), -1);
}

#[test]
fn time_never_goes_back() {
    let a = TimeVal::from_micros(1_999_999);
    let b = TimeVal::from_micros(2_000_000);
    assert_eq!(a, TimeVal { sec: 1, usec: 999_999 });
    assert_eq!(b, TimeVal { sec: 2, usec: 0 });
    assert!((a.sec, a.usec) <= (b.sec, b.usec));
    let c = TimeVal::from_micros(2_000_000);
    assert!((b.sec, b.usec) <= (c.sec, c.usec));
    assert_eq!(
        TimeVal { sec: 0x0102, usec: 7 }.to_bytes(),
        vec![2, 1, 0, 0, 0, 0, 0, 0, 7, 0, 0, 0, 0, 0, 0, 0]
    );
}

#[test]
fn le_bytes_are_lowest_first() {
    let mut out = vec![9u8];
    push_le_bytes(&mut out, 0x0403_0201, 3);
    assert_eq!(out, vec![9, 1, 2, 3]);
    push_le_bytes(&mut out, 5, 0);
    assert_eq!(out, vec![9, 1, 2, 3]);
}

#[test]
fn trace_reads_and_writes_bytes() {
    let mut k = booted();
    assert_eq!(sys_trace(&mut k, 0, DATA, 0), b'i' as isize);
    assert_eq!(sys_trace(&mut k, 1, DATA, 0x241), 0);
    assert_eq!(sys_trace(&mut k, 0, DATA, 0), 0x41);
    assert_eq!(sys_trace(&mut k, 0, 0, 0), -1);
    assert_eq!(sys_trace(&mut k, 1, 0, 1), -1);
    assert_eq!(sys_trace(&mut k, 0, usize::MAX, 0), -1);
    assert_eq!(sys_trace(&mut k, 3, DATA, 0), -1);
}

#[test]
fn trace_respects_rights() {
    let mut k = booted();
    assert_eq!(sys_mmap(&mut k, 0x20000, PAGE_SIZE, 1), 0);
    assert_eq!(sys_mmap(&mut k, 0x30000, PAGE_SIZE, 2), 0);
    assert_eq!(sys_trace(&mut k, 0, 0x20000, 0), 0);
    assert_eq!(sys_trace(&mut k, 1, 0x20000, 1), -1);
    assert_eq!(sys_trace(&mut k, 0, 0x30000, 0), -1);
    assert_eq!(sys_trace(&mut k, 1, 0x30000, 1), 0);
}

#[test]
fn translate_helpers_read_and_write() {
    let mut s = AddressSpace::new();
    assert_eq!(s.mmap(DATA, PAGE_SIZE, 3), 0);
    assert!(safe_translate_byte_write(&mut s, DATA + 1, 0x7f));
    assert_eq!(safe_translate_byte_read(&s, DATA + 1), Some(0x7f));
    assert_eq!(safe_translate_byte_read(&s, DATA + PAGE_SIZE), None);
    assert!(!safe_translate_byte_write(&mut s, DATA + PAGE_SIZE, 1));
}

#[test]
fn mmap_munmap_through_system_calls() {
    let mut k = booted();
    assert_eq!(sys_mmap(&mut k, 0x20000, PAGE_SIZE, 3), 0);
    assert_eq!(sys_trace(&mut k, 0, 0x20000, 0), 0);
    assert_eq!(sys_mmap(&mut k, 0x20000, PAGE_SIZE, 3), -1);
    assert_eq!(sys_mmap(&mut k, DATA + PAGE_SIZE, PAGE_SIZE, 3), -1);
    assert_eq!(sys_munmap(&mut k, 0x20000, 2 * PAGE_SIZE), -1);
    assert_eq!(sys_munmap(&mut k, 0x20000, PAGE_SIZE), 0);
    assert_eq!(sys_trace(&mut k, 0, 0x20000, 0), -1);
    assert_eq!(sys_munmap(&mut k, 0x20000, PAGE_SIZE), -1);
    assert_eq!(k.tasks[0].memory.areas.len(), 1);
}

#[test]
fn sbrk_moves_break_within_heap() {
    let mut k = booted();
    assert_eq!(sys_sbrk(&mut k, 0), 0x40000);
    assert_eq!(sys_sbrk(&mut k, 0x1000), 0x40000);
    assert_eq!(sys_sbrk(&mut k, -0x800), 0x41000);
    assert_eq!(sys_sbrk(&mut k, 0), 0x40800);
    assert_eq!(sys_sbrk(&mut k, -0x801), -1);
    assert_eq!(sys_sbrk(&mut k, 0x7801), -1);
    assert_eq!(sys_sbrk(&mut k, 0x7800), 0x40800);
    assert_eq!(k.tasks[0].program_brk, 0x48000);
}

#[test]
fn exec_replaces_program_and_keeps_identity() {
    let mut k = booted();
    assert_eq!(sys_set_priority(&mut k, 5), 5);
    assert_eq!(sys_fork(&mut k), 1);
    assert_eq!(sys_trace(&mut k, 1, DATA + 0x300, 0x33), 0);
    assert_eq!(sys_sbrk(&mut k, 0x100), 0x40000);
    assert_eq!(sys_exec(&mut k, DATA + 5), 0);
    assert_eq!(k.tasks[0].entry, 0x200);
    assert_eq!(k.tasks[0].priority, 5);
    assert_eq!(k.tasks[0].children, vec![1]);
    assert_eq!(k.tasks[0].program_brk, 0x40000);
    assert_eq!(sys_trace(&mut k, 0, DATA + 0x300, 0), 0);
    assert_eq!(sys_getpid(&k), 0);
}

#[test]
fn exec_of_unknown_image_changes_nothing() {
    let mut k = booted();
    assert_eq!(sys_trace(&mut k, 1, DATA + 0x300, 0x33), 0);
    assert_eq!(sys_exec(&mut k, DATA + 11), -1);
    assert_eq!(sys_exec(&mut k, 0x9000_0000), -1);
    assert_eq!(k.tasks[0].entry, 0x100);
    assert_eq!(sys_trace(&mut k, 0, DATA + 0x300, 0), 0x33);
}

#[test]
fn spawn_creates_child_from_image() {
    let mut k = booted();
    assert_eq!(sys_trace(&mut k, 1, DATA + 0x300, 0x33), 0);
    assert_eq!(sys_spawn(&mut k, DATA + 5), 1);
    assert_eq!(k.tasks[1].entry, 0x200);
    assert_eq!(k.tasks[1].parent, Some(0));
    assert_eq!(k.tasks[1].status, TaskStatus::Ready);
    assert_eq!(k.tasks[1].memory.read_byte(DATA + 0x300), Some(0));
    assert_eq!(k.tasks[0].children, vec![1]);
    assert_eq!(k.ready, vec![1]);
    assert_eq!(sys_spawn(&mut k, DATA + 11), -1);
    assert_eq!(k.tasks.len(), 2);
}

#[test]
fn find_image_takes_first_of_a_name() {
    let mut k = Kernel::new();
    k.register_image(image("a", 1));
    k.register_image(image("b", 2));
    k.register_image(image("b", 3));
    assert_eq!(k.find_image(&b"b".to_vec()), Some(1));
    assert_eq!(k.find_image(&b"c".to_vec()), None);
    assert_eq!(k.find_image(&b"".to_vec()), None);
    assert!(bytes_equal(&vec![1, 2], &vec![1, 2]));
    assert!(!bytes_equal(&vec![1, 2], &vec![1, 3]));
    assert!(!bytes_equal(&vec![1, 2], &vec![1]));
}

#[test]
fn run_next_on_empty_queue_runs_nothing() {
    let mut k = Kernel::new();
    k.run_next();
    assert_eq!(k.current, None);
}

#[test]
fn spin_mutex_yields_on_contention() {
    let mut k = booted();
    assert_eq!(sys_fork(&mut k), 1);
    let mut m = MutexSpin::new();
    assert!(!m.is_locked_by_current(&k));
    assert!(m.lock(&mut k));
    assert_eq!(k.current, Some(0));
    assert!(m.is_locked_by_current(&k));
    assert_eq!(sys_yield(&mut k), 0);
    assert_eq!(k.current, Some(1));
    assert!(!m.lock(&mut k));
    assert_eq!(k.current, Some(0));
    m.unlock(&mut k);
    assert!(!m.locked);
    assert_eq!(m.owner, None);
    assert_eq!(sys_yield(&mut k), 0);
    assert_eq!(k.current, Some(1));
    assert!(m.lock(&mut k));
    assert_eq!(m.owner, Some(1));
}

#[test]
fn spin_mutex_is_held_by_the_task_that_took_it() {
    let mut k = booted();
    assert_eq!(sys_fork(&mut k), 1);
    let mut m = MutexSpin::new();
    assert!(!m.locked);
    assert_eq!(m.owner, None);
    assert!(!m.is_locked_by_current(&k));
    assert!(m.lock(&mut k));
    assert!(m.locked);
    assert_eq!(m.owner, Some(0));
    assert!(m.is_locked_by_current(&k));
    assert_eq!(sys_yield(&mut k), 0);
    assert_eq!(k.current, Some(1));
    assert!(!m.is_locked_by_current(&k));
    assert!(m.locked);
    assert_eq!(m.owner, Some(0));
    assert!(!m.lock(&mut k));
    assert_eq!(m.owner, Some(0));
    assert_eq!(k.current, Some(0));
    assert!(m.is_locked_by_current(&k));
    m.unlock(&mut k);
    assert!(!m.is_locked_by_current(&k));
    assert_eq!(sys_yield(&mut k), 0);
    assert_eq!(k.current, Some(1));
    assert!(!m.is_locked_by_current(&k));
}

#[test]
fn fresh_mutexes_are_held_by_no_task() {
    let mut k = booted();
    assert_eq!(sys_fork(&mut k), 1);
    let s = MutexSpin::new();
    let b = MutexBlocking::new();
    assert!(!s.is_locked_by_current(&k));
    assert!(!b.is_locked_by_current(&k));
    assert_eq!(sys_yield(&mut k), 0);
    assert_eq!(k.current, Some(1));
    assert!(!s.is_locked_by_current(&k));
    assert!(!b.is_locked_by_current(&k));
}

#[test]
fn blocking_mutex_refuses_relock() {
    let mut k = booted();
    let mut m = MutexBlocking::new();
    assert!(m.lock(&mut k));
    assert_eq!(m.inner.owner, Some(0));
    assert!(m.is_locked_by_current(&k));
    assert!(!m.lock(&mut k));
    assert_eq!(k.current, Some(0));
    assert_eq!(k.tasks[0].status, TaskStatus::Running);
    assert!(m.inner.wait_queue.is_empty());
    assert!(m.inner.locked);
    m.unlock(&mut k);
    assert!(!m.inner.locked);
    assert_eq!(m.inner.owner, None);
    assert!(!m.is_locked_by_current(&k));
    assert!(m.lock(&mut k));
}

#[test]
fn blocking_mutex_hands_off_in_fifo_order() {
    let mut k = booted();
    assert_eq!(sys_fork(&mut k), 1);
    assert_eq!(sys_fork(&mut k), 2);
    let mut m = MutexBlocking::new();
    assert!(m.lock(&mut k));
    assert_eq!(sys_yield(&mut k), 0);
    assert_eq!(k.current, Some(1));
    assert!(m.lock(&mut k));
    assert_eq!(k.tasks[1].status, TaskStatus::Blocked);
    assert_eq!(k.current, Some(2));
    assert!(!m.is_locked_by_current(&k));
    assert!(m.lock(&mut k));
    assert_eq!(k.tasks[2].status, TaskStatus::Blocked);
    assert_eq!(k.current, Some(0));
    assert_eq!(m.inner.wait_queue, vec![1, 2]);
    assert_eq!(m.inner.owner, Some(0));
    m.unlock(&mut k);
    assert!(m.inner.locked);
    assert_eq!(m.inner.owner, Some(1));
    assert_eq!(m.inner.wait_queue, vec![2]);
    assert_eq!(k.tasks[1].status, TaskStatus::Ready);
    assert_eq!(k.ready, vec![1]);
    assert_eq!(sys_yield(&mut k), 0);
    assert_eq!(k.current, Some(1));
    assert!(m.is_locked_by_current(&k));
    m.unlock(&mut k);
    assert_eq!(m.inner.owner, Some(2));
    assert!(m.inner.wait_queue.is_empty());
    assert!(m.inner.locked);
    assert_eq!(k.tasks[2].status, TaskStatus::Ready);
    m.unlock(&mut k);
    assert!(!m.inner.locked);
    assert_eq!(m.inner.owner, None);
}

#[test]
fn trace_counts_system_calls() {
    let mut k = booted();
    assert_eq!(sys_trace(&mut k, 2, 169, 0), 0);
    record_syscall(&mut k, 169);
    record_syscall(&mut k, 169);
    record_syscall(&mut k, 93);
    assert_eq!(sys_trace(&mut k, 2, 169, 0), 2);
    assert_eq!(sys_trace(&mut k, 2, 93, 0), 1);
    assert_eq!(sys_trace(&mut k, 2, 511, 0), 0);
    assert_eq!(sys_trace(&mut k, 2, 512, 0), -1);
    record_syscall(&mut k, 512);
    assert_eq!(sys_fork(&mut k), 1);
    assert_eq!(k.tasks[1].syscall_times[169], 0);
    k.tasks[0].syscall_times[7] = isize::MAX as usize;
    record_syscall(&mut k, 7);
    assert_eq!(sys_trace(&mut k, 2, 7, 0), isize::MAX);
}

#[test]
fn sbrk_maps_and_unmaps_heap_pages() {
    let mut k = booted();
    assert_eq!(sys_trace(&mut k, 0, 0x40000, 0), -1);
    assert_eq!(sys_sbrk(&mut k, 1), 0x40000);
    assert_eq!(sys_trace(&mut k, 0, 0x40000, 0), 0);
    assert_eq!(sys_trace(&mut k, 1, 0x40fff, 7), 0);
    assert_eq!(sys_trace(&mut k, 0, 0x41000, 0), -1);
    assert_eq!(sys_sbrk(&mut k, 0x1000), 0x40001);
    assert_eq!(sys_trace(&mut k, 0, 0x41000, 0), 0);
    assert_eq!(sys_trace(&mut k, 0, 0x40fff, 0), 7);
    assert_eq!(sys_sbrk(&mut k, -0x1000), 0x41001);
    assert_eq!(sys_trace(&mut k, 0, 0x41000, 0), -1);
    assert_eq!(sys_trace(&mut k, 0, 0x40fff, 0), 7);
    assert_eq!(sys_sbrk(&mut k, -1), 0x40001);
    assert_eq!(sys_trace(&mut k, 0, 0x40000, 0), -1);
    assert_eq!(k.tasks[0].memory.areas.len(), 1);
    assert_eq!(k.tasks[0].program_brk, 0x40000);
}

#[test]
fn sbrk_fails_where_heap_cannot_grow() {
    let mut k = booted();
    assert_eq!(sys_sbrk(&mut k, 0x1000), 0x40000);
    assert_eq!(sys_mmap(&mut k, 0x42000, PAGE_SIZE, 3), 0);
    assert_eq!(sys_sbrk(&mut k, 0x2000), -1);
    assert_eq!(k.tasks[0].program_brk, 0x41000);
    assert_eq!(sys_sbrk(&mut k, 0x1000), 0x41000);
    assert_eq!(sys_trace(&mut k, 0, 0x41fff, 0), 0);
    assert_eq!(sys_sbrk(&mut k, 1), -1);
    assert_eq!(k.tasks[0].program_brk, 0x42000);
}
