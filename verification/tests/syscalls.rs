use kernel_sim::consts::{NSIG, N_FRAMES, PAGE_SZ, SIGCHLD, SIGKILL};
use kernel_sim::epoll::EpEvent;
use kernel_sim::file::{FHandle, FdOpt, Vfs};
use kernel_sim::file_like::FLike;
use kernel_sim::kernel::Kernel;
use kernel_sim::process::{Task, TaskTable};
use kernel_sim::syscall::{
    SYS_BRK, SYS_CLOCK_GETTIME, SYS_CLOSE, SYS_DUP, SYS_DUP2, SYS_EPOLL_CREATE, SYS_EPOLL_CTL, SYS_EPOLL_WAIT,
    SYS_EXEC, SYS_EXIT, SYS_FCNTL, SYS_FORK, SYS_FUTEX, SYS_GETPGID, SYS_GETPID, SYS_GETPPID, SYS_KILL, SYS_MMAP,
    SYS_MUNMAP, SYS_OPEN, SYS_PIPE, SYS_READ, SYS_SETPGID, SYS_SETSID, SYS_SIGACTION, SYS_SIGPROCMASK, SYS_STAT,
    SYS_WAIT4, SYS_WRITE,
};

fn task_mut(table: &mut TaskTable, id: usize) -> &mut Task {
    &mut table.map.iter_mut().find(|e| e.0 == id).unwrap().1
}

fn kernel_with_root_frames(frames: usize) -> (Kernel, usize) {
    let mut kernel = Kernel::new(frames);
    let root = kernel.proc_init();
    kernel.set_cur(0, Some(root));
    (kernel, root)
}

fn kernel_with_root() -> (Kernel, usize) {
    kernel_with_root_frames(64)
}

fn rw_file(v: &mut Vfs, name: &str) -> FLike {
    FLike::File(FHandle::new(name, FdOpt { rd: true, wr: true, ap: false, nb: false }, false, false, v))
}

fn add_rw(kernel: &mut Kernel, task: usize, name: &str) -> usize {
    let file = rw_file(&mut kernel.vfs, name);
    task_mut(&mut kernel.tasks, task).add_file(file)
}

#[test]
fn audit_sys_close_removes_fd_from_current_task() {
    let (mut kernel, task) = kernel_with_root();
    for idx in 0..4 {
        assert_eq!(add_rw(&mut kernel, task, &format!("fd{idx}")), idx);
    }

    assert_eq!(kernel.dispatch_syscall(SYS_CLOSE, 3, 0, 0, 0, 0, 0), Ok(0));

    assert!(kernel.tasks.find(task).unwrap().get_file(3).is_none());
}

#[test]
fn audit_sys_dup_installs_returned_fd() {
    let (mut kernel, task) = kernel_with_root();
    let old_fd = add_rw(&mut kernel, task, "dup-src");

    let new_fd = kernel.dispatch_syscall(SYS_DUP, old_fd, 0, 0, 0, 0, 0).unwrap();

    assert!(kernel.tasks.find(task).unwrap().get_file(new_fd).is_some());
}

#[test]
fn audit_sys_fork_creates_child_task() {
    let (mut kernel, _task) = kernel_with_root_frames(N_FRAMES);

    let child_pid = kernel.dispatch_syscall(SYS_FORK, 0, 0, 0, 0, 0, 0).unwrap();

    assert!(kernel.tasks.find(child_pid).is_some());
}

#[test]
fn audit_sys_sigaction_allows_catchable_signal() {
    let (mut kernel, _task) = kernel_with_root();

    assert_eq!(kernel.dispatch_syscall(SYS_SIGACTION, SIGCHLD as usize, 0, 0, 0, 0, 0), Ok(0));
}

#[test]
fn audit_sys_kill_rejects_nsig() {
    let (mut kernel, task) = kernel_with_root();

    assert_eq!(kernel.dispatch_syscall(SYS_KILL, task, NSIG as usize, 0, 0, 0, 0), Err("einval"));
}

#[test]
fn audit_sys_futex_wake_zero_wakes_none() {
    let (mut kernel, _task) = kernel_with_root();

    assert_eq!(kernel.dispatch_syscall(SYS_FUTEX, 0x1000, 1, 0, 0, 0, 0), Ok(0));
}

#[test]
fn audit_sys_mmap_huge_length_does_not_panic() {
    let (mut kernel, _task) = kernel_with_root();
    let result = kernel.dispatch_syscall(SYS_MMAP, 0, usize::MAX, 0, 0, 0, 0);

    assert!(result.is_err());
}

#[test]
fn audit_sys_munmap_zero_length_is_rejected() {
    let (mut kernel, _task) = kernel_with_root();

    assert_eq!(kernel.dispatch_syscall(SYS_MUNMAP, PAGE_SZ, 0, 0, 0, 0, 0), Err("einval"));
}

#[test]
fn audit_sys_epoll_wait_buffer_size_overflow_does_not_panic() {
    let (mut kernel, _task) = kernel_with_root();
    let event_sz = std::mem::size_of::<EpEvent>();
    let max_events = usize::MAX / event_sz + 1;
    let result = kernel.dispatch_syscall(SYS_EPOLL_WAIT, 3, 0x1000, max_events, 0, 0, 0);

    assert!(result.is_err());
}

#[test]
fn syscall_unknown_number_is_enosys() {
    let (mut kernel, _task) = kernel_with_root();
    assert_eq!(kernel.dispatch_syscall(999, 0, 0, 0, 0, 0, 0), Err("enosys"));
}

#[test]
fn syscall_read_write_through_a_file() {
    let (mut kernel, task) = kernel_with_root();
    let fd = add_rw(&mut kernel, task, "data");
    assert_eq!(kernel.dispatch_syscall(SYS_WRITE, fd, 0x1000, 5, 0, 0, 0), Ok(5));
    assert_eq!(kernel.vfs.files[0], vec![0u8; 5]);
    assert_eq!(kernel.dispatch_syscall(SYS_READ, fd, 0x1000, 5, 0, 0, 0), Ok(0));
    assert_eq!(kernel.dispatch_syscall(SYS_READ, fd, 0, 5, 0, 0, 0), Err("efault"));
    assert_eq!(kernel.dispatch_syscall(SYS_READ, 9, 0x1000, 5, 0, 0, 0), Ok(5));
    assert_eq!(kernel.dispatch_syscall(SYS_WRITE, fd, 0x1000, 0, 0, 0, 0), Ok(0));
}

#[test]
fn audit_sys_write_cross_page_returns_requested_count() {
    let (mut kernel, _task) = kernel_with_root();

    assert_eq!(kernel.dispatch_syscall(SYS_WRITE, 1, 0x1001, PAGE_SZ, 0, 0, 0), Ok(PAGE_SZ),);
}

#[test]
fn audit_syscall_read_sees_entry_after_fetch_same_key() {
    let mut kernel = Kernel::new(64);
    let fd = 128usize;
    assert!(kernel.cache.fetch(fd, 0).is_some());
    let read = kernel.dispatch_syscall(SYS_READ, fd, 0x1000, 64, 0, 0, 0);
    assert!(read.is_ok());
    let n = read.unwrap();
    assert!(n > 0);
    let chain = kernel.cache.idx(fd);
    kernel.cache.chains[chain].lk.acquire();
    let has = kernel.cache.chains[chain].items.iter().any(|s| s.id == fd);
    kernel.cache.chains[chain].lk.release();
    assert!(has);
}

#[test]
fn audit_syscall_write_marks_modified_on_fetch_chain() {
    let mut kernel = Kernel::new(64);
    let fd = 128usize;
    assert!(kernel.cache.fetch(fd, 0).is_some());
    assert!(kernel.dispatch_syscall(SYS_WRITE, fd, 0x2000, 8, 0, 0, 0).is_ok());
    let chain = kernel.cache.idx(fd);
    kernel.cache.chains[chain].lk.acquire();
    let modified = kernel.cache.chains[chain]
        .items
        .iter()
        .find(|s| s.id == fd)
        .map(|s| s.modified)
        .unwrap_or(false);
    kernel.cache.chains[chain].lk.release();
    assert!(modified);
}

#[test]
fn audit_syscall_read_with_gkl_and_busy_chain_completes() {
    let mut kernel = Kernel::new(64);
    let fd = 17usize;
    let chain_idx = kernel.cache.idx(fd);
    kernel.gkl.enter(7);
    kernel.cache.chains[chain_idx].lk.acquire();
    let r = kernel.dispatch_syscall(SYS_READ, fd, 0x1000, 64, 0, 0, 0);
    kernel.cache.chains[chain_idx].lk.release();
    kernel.gkl.leave();
    assert!(r.is_ok());
    assert!(kernel.cache.chains[chain_idx].items.is_empty());
}

#[test]
fn syscall_read_without_a_task_reads_the_block_through_the_cache() {
    let mut kernel = Kernel::new(64);
    assert_eq!(kernel.dispatch_syscall(SYS_READ, 3, 0x1000, 1000, 0, 0, 0), Ok(512));
    assert_eq!(kernel.cache.total_entries(), 1);
    assert_eq!(kernel.dispatch_syscall(SYS_READ, 3, 0x1000, 100, 0, 0, 0), Ok(100));
    assert_eq!(kernel.cache.total_entries(), 1);
    assert_eq!(kernel.cache.dirty_count(), 0);
    assert_eq!(kernel.dispatch_syscall(SYS_WRITE, 3, 0x1000, 7, 0, 0, 0), Ok(7));
    assert_eq!(kernel.cache.dirty_count(), 1);
    assert_eq!(kernel.dispatch_syscall(SYS_READ, 3, 0, 100, 0, 0, 0), Err("efault"));
}

#[test]
fn syscall_open_installs_anonymous_file() {
    let (mut kernel, task) = kernel_with_root();
    assert_eq!(kernel.dispatch_syscall(SYS_OPEN, 0, 0, 0, 0, 0, 0), Err("efault"));
    let fd = kernel.dispatch_syscall(SYS_OPEN, 0x2000, 2, 0, 0, 0, 0).unwrap();
    assert_eq!(fd, 0);
    match kernel.tasks.find(task).unwrap().get_file(fd).unwrap() {
        FLike::File(h) => {
            assert_eq!(h.path, "anon");
            assert!(kernel.vfs.descs[h.desc].opt.rd && kernel.vfs.descs[h.desc].opt.wr);
        },
        _ => panic!("not a file"),
    }
    kernel.set_cur(0, None);
    assert_eq!(kernel.dispatch_syscall(SYS_OPEN, 0x2000, 0, 0, 0, 0, 0), Ok(3));
}

#[test]
fn syscall_pipe_packs_two_descriptors() {
    let (mut kernel, task) = kernel_with_root();
    let packed = kernel.dispatch_syscall(SYS_PIPE, 0x3000, 0, 0, 0, 0, 0).unwrap();
    assert_eq!(packed, 0 | (1 << 32));
    assert_eq!(kernel.tasks.find(task).unwrap().fd_count(), 2);
    assert_eq!(kernel.dispatch_syscall(SYS_PIPE, 0, 0, 0, 0, 0, 0), Err("efault"));
}

#[test]
fn syscall_dup2_and_stat_and_exec() {
    let (mut kernel, task) = kernel_with_root();
    let fd = add_rw(&mut kernel, task, "a");
    assert_eq!(kernel.dispatch_syscall(SYS_DUP2, fd, 7, 0, 0, 0, 0), Ok(7));
    assert!(kernel.tasks.find(task).unwrap().get_file(7).is_some());
    assert_eq!(kernel.dispatch_syscall(SYS_DUP2, 5, 8, 0, 0, 0, 0), Err("ebadf"));
    assert_eq!(kernel.dispatch_syscall(SYS_DUP, 5, 0, 0, 0, 0, 0), Err("ebadf"));
    assert_eq!(kernel.dispatch_syscall(SYS_STAT, 0, 0x1000, 0, 0, 0, 0), Ok(0));
    assert_eq!(kernel.dispatch_syscall(SYS_STAT, 0, 0, 0, 0, 0, 0), Err("efault"));
    assert_eq!(kernel.dispatch_syscall(SYS_EXEC, 0x1000, 0, 0, 0, 0, 0), Err("enosys"));
    assert_eq!(kernel.dispatch_syscall(SYS_EXEC, 0, 0, 0, 0, 0, 0), Err("efault"));
}

#[test]
fn syscall_ids_and_groups() {
    let (mut kernel, root) = kernel_with_root_frames(N_FRAMES);
    assert_eq!(kernel.dispatch_syscall(SYS_GETPID, 0, 0, 0, 0, 0, 0), Ok(root));
    assert_eq!(kernel.dispatch_syscall(SYS_GETPPID, 0, 0, 0, 0, 0, 0), Ok(0));
    let child = kernel.dispatch_syscall(SYS_FORK, 0, 0, 0, 0, 0, 0).unwrap();
    assert_eq!(kernel.dispatch_syscall(SYS_SETPGID, child, 5, 0, 0, 0, 0), Ok(0));
    assert_eq!(kernel.dispatch_syscall(SYS_GETPGID, child, 0, 0, 0, 0, 0), Ok(5));
    assert_eq!(kernel.dispatch_syscall(SYS_SETPGID, 99, 5, 0, 0, 0, 0), Err("esrch"));
    assert_eq!(kernel.dispatch_syscall(SYS_SETSID, 0, 0, 0, 0, 0, 0), Ok(root));
    assert_eq!(kernel.dispatch_syscall(SYS_SETSID, 0, 0, 0, 0, 0, 0), Err("eperm"));
    kernel.set_cur(0, Some(child));
    assert_eq!(kernel.dispatch_syscall(SYS_GETPPID, 0, 0, 0, 0, 0, 0), Ok(root));
}

#[test]
fn syscall_kill_spares_init_from_sigkill() {
    let (mut kernel, root) = kernel_with_root_frames(N_FRAMES);
    assert_eq!(kernel.dispatch_syscall(SYS_KILL, root, SIGKILL as usize, 0, 0, 0, 0), Err("esrch"));
    let child = kernel.dispatch_syscall(SYS_FORK, 0, 0, 0, 0, 0, 0).unwrap();
    assert_eq!(kernel.dispatch_syscall(SYS_KILL, child, SIGKILL as usize, 0, 0, 0, 0), Ok(0));
    assert_eq!(kernel.tasks.find(child).unwrap().sig_queue, vec![(SIGKILL as i32, -1)]);
    assert_eq!(kernel.dispatch_syscall(SYS_KILL, 77, 0, 0, 0, 0, 0), Err("esrch"));
    assert_eq!(kernel.dispatch_syscall(SYS_KILL, child, 0, 0, 0, 0, 0), Ok(0));
}

#[test]
fn syscall_exit_then_wait4_finds_the_zombie() {
    let (mut kernel, root) = kernel_with_root_frames(N_FRAMES);
    let child = kernel.dispatch_syscall(SYS_FORK, 0, 0, 0, 0, 0, 0).unwrap();
    assert_eq!(kernel.dispatch_syscall(SYS_WAIT4, usize::MAX, 0, 1, 0, 0, 0), Ok(0));
    assert_eq!(kernel.dispatch_syscall(SYS_WAIT4, usize::MAX, 0, 0, 0, 0, 0), Err("echild"));
    kernel.set_cur(0, Some(child));
    assert_eq!(kernel.dispatch_syscall(SYS_EXIT, 3, 0, 0, 0, 0, 0), Ok(0));
    let c = kernel.tasks.find(child).unwrap();
    assert_eq!(c.exit_code, 3);
    assert!(c.done());
    assert_eq!(kernel.tasks.find(root).unwrap().sig_queue, vec![(SIGCHLD as i32, child as isize)]);
    kernel.set_cur(0, Some(root));
    assert_eq!(kernel.dispatch_syscall(SYS_WAIT4, usize::MAX, 0, 0, 0, 0, 0), Ok(child));
    assert_eq!(kernel.dispatch_syscall(SYS_WAIT4, child, 0, 0, 0, 0, 0), Ok(child));
    assert_eq!(kernel.dispatch_syscall(SYS_WAIT4, 0, 0, 0, 0, 0, 0), Ok(child));
    assert_eq!(kernel.dispatch_syscall(SYS_WAIT4, 55, 0, 0, 0, 0, 0), Err("echild"));
}

#[test]
fn syscall_brk_grows_and_takes_frames() {
    let (mut kernel, root) = kernel_with_root_frames(4);
    assert_eq!(kernel.dispatch_syscall(SYS_BRK, 0, 0, 0, 0, 0, 0), Ok(0x0040_0000));
    assert_eq!(kernel.dispatch_syscall(SYS_BRK, 2 * PAGE_SZ - 5, 0, 0, 0, 0, 0), Ok(2 * PAGE_SZ));
    assert_eq!(kernel.pool.free_count(), 2);
    assert_eq!(kernel.tasks.find(root).unwrap().vm_token, 2 * PAGE_SZ);
    assert_eq!(kernel.dispatch_syscall(SYS_BRK, 8 * PAGE_SZ, 0, 0, 0, 0, 0), Err("enomem"));
    assert_eq!(kernel.dispatch_syscall(SYS_BRK, PAGE_SZ, 0, 0, 0, 0, 0), Ok(PAGE_SZ));
    assert_eq!(kernel.pool.free_count(), 2);
}

#[test]
fn syscall_sigprocmask_keeps_unmaskable_signals() {
    let (mut kernel, root) = kernel_with_root();
    let set = (1usize << 9) | (1usize << 3) | 0x1000;
    assert_eq!(kernel.dispatch_syscall(SYS_SIGPROCMASK, 2, set, 0, 0, 0, 0), Ok(0));
    assert_eq!(kernel.tasks.find(root).unwrap().sig_mask, ((1u64 << 3) | 0x1000));
    assert_eq!(kernel.dispatch_syscall(SYS_SIGPROCMASK, 7, set, 0, 0, 0, 0), Err("einval"));
    assert_eq!(kernel.dispatch_syscall(SYS_SIGPROCMASK, 1, 1 << 3, 0, 0, 0, 0), Ok(0));
    assert_eq!(kernel.tasks.find(root).unwrap().sig_mask, 0x1000);
}

#[test]
fn syscall_small_validators() {
    let (mut kernel, _root) = kernel_with_root();
    assert_eq!(kernel.dispatch_syscall(SYS_EPOLL_CREATE, 0, 0, 0, 0, 0, 0), Err("einval"));
    assert_eq!(kernel.dispatch_syscall(SYS_EPOLL_CREATE, 70, 0, 0, 0, 0, 0), Ok(3 + 70 % 61));
    assert_eq!(kernel.dispatch_syscall(SYS_EPOLL_CTL, 3, 1, 4, 0, 0, 0), Err("efault"));
    assert_eq!(kernel.dispatch_syscall(SYS_EPOLL_CTL, 3, 2, 4, 0, 0, 0), Ok(0));
    assert_eq!(kernel.dispatch_syscall(SYS_EPOLL_CTL, 3, 9, 4, 0, 0, 0), Err("einval"));
    assert_eq!(kernel.dispatch_syscall(SYS_CLOCK_GETTIME, 4, 0x1000, 0, 0, 0, 0), Ok(0));
    assert_eq!(kernel.dispatch_syscall(SYS_CLOCK_GETTIME, 2, 0x1000, 0, 0, 0, 0), Err("einval"));
    assert_eq!(kernel.dispatch_syscall(SYS_SIGACTION, SIGKILL as usize, 0, 0, 0, 0, 0), Err("einval"));
    assert_eq!(kernel.dispatch_syscall(SYS_FUTEX, 0x1000, 3, 100, 0, 0x2000, 100), Ok(128));
    assert_eq!(kernel.dispatch_syscall(SYS_FUTEX, 0x1000, 9, 100, 0, 0x2000, 1), Ok(33));
    assert_eq!(kernel.dispatch_syscall(SYS_FUTEX, 0x1000, 5, 0, 0, 0, 0), Err("efault"));
    assert_eq!(kernel.dispatch_syscall(SYS_FUTEX, 0x1000, 7, 0, 0, 0, 0), Err("enosys"));
    assert_eq!(kernel.dispatch_syscall(SYS_FCNTL, 2, 3, 0, 0, 0, 0), Ok(0o4000 | 0o2000));
    assert_eq!(kernel.dispatch_syscall(SYS_FCNTL, 5000, 3, 0, 0, 0, 0), Err("ebadf"));
    assert_eq!(kernel.dispatch_syscall(SYS_FCNTL, 4, 4, 1, 0, 0, 0), Err("einval"));
    assert_eq!(kernel.dispatch_syscall(SYS_FCNTL, 4, 1030, 9, 0, 0, 0), Ok(10));
    assert_eq!(kernel.dispatch_syscall(SYS_MMAP, 0x5000, 10, 3, 0x10, 0, 0), Ok(0x5000));
    assert_eq!(kernel.dispatch_syscall(SYS_MUNMAP, 3, 10, 0, 0, 0, 0), Err("einval"));
}
