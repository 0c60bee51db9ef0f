use kernel_sim::consts::SIGCHLD;
use kernel_sim::file::{FHandle, FdOpt, Vfs};
use kernel_sim::file_like::FLike;
use kernel_sim::kernel::Kernel;
use kernel_sim::process::{Task, TaskTable};
use kernel_sim::sync::KernLock;

fn task_mut(table: &mut TaskTable, id: usize) -> &mut Task {
    &mut table.map.iter_mut().find(|e| e.0 == id).unwrap().1
}

fn rw_file(v: &mut Vfs, name: &str) -> FLike {
    FLike::File(FHandle::new(name, FdOpt { rd: true, wr: true, ap: false, nb: false }, false, false, v))
}

#[test]
fn audit_fork_task_links_child_once() {
    let mut v = Vfs::new();
    let mut table = TaskTable::new();
    let root = table.spawn_root();

    let _child = table.fork_task(&mut v, root);

    assert_eq!(table.find(root).unwrap().n_children(), 1);
}

#[test]
fn audit_reap_removes_child_from_parent_list() {
    let mut v = Vfs::new();
    let mut table = TaskTable::new();
    let root = table.spawn_root();
    let child_id = table.fork_task(&mut v, root);

    table.reap(child_id);

    assert_eq!(table.find(root).unwrap().n_children(), 0);
}

#[test]
fn audit_task_send_sig_coalesces_duplicate_standard_signals() {
    let mut task = Task::make(1, "worker");

    task.send_sig(SIGCHLD as i32, -1);
    task.send_sig(SIGCHLD as i32, -1);

    assert_eq!(task.sig_queue.len(), 1);
}

#[test]
fn audit_task_set_cloexec_updates_file_state() {
    let mut v = Vfs::new();
    let mut task = Task::make(1, "fd-owner");
    let file = FHandle::new("tmp", FdOpt::default(), false, false, &mut v);
    let fd = task.add_file(FLike::File(file));

    assert_eq!(task.set_cloexec(fd, true), Ok(()));

    match task.get_file(fd).unwrap() {
        FLike::File(file) => assert!(file.cloexec),
        _ => unreachable!(),
    }
}

#[test]
fn audit_kernel_tick_preserves_existing_gkl_owner() {
    let mut kernel = Kernel::new(64);
    kernel.gkl.enter(78);

    kernel.tick(78);
    let still_held = kernel.gkl.held();
    let owner = kernel.gkl.owner();
    let level = kernel.gkl.level();
    if still_held {
        kernel.gkl.leave();
    }

    assert!(still_held);
    assert_eq!(owner, 78);
    assert_eq!(level, 1);
}

#[test]
fn task_fd_table_dup_close_and_signals() {
    let mut v = Vfs::new();
    let mut task = Task::make(3, "t");
    for idx in 0..4 {
        let f = rw_file(&mut v, &format!("fd{idx}"));
        assert_eq!(task.add_file(f), idx);
    }
    assert_eq!(task.close_fd(&mut v, 1), Ok(()));
    assert_eq!(task.close_fd(&mut v, 1), Err("ebadf"));
    assert_eq!(task.get_free_fd(), 1);
    assert_eq!(task.dup_fd(&mut v, 0, true), Ok(1));
    assert_eq!(task.dup_fd(&mut v, 9, false), Err("ebadf"));
    assert_eq!(task.dup2_fd(&mut v, 0, 7), Ok(7));
    assert_eq!(task.dup2_fd(&mut v, 7, 7), Ok(7));
    assert_eq!(task.fd_count(), 5);
    assert_eq!(task.get_free_fd_from(4), 4);
    task.sig_mask = 1 << 5;
    task.send_sig(5, -1);
    assert!(!task.has_sig());
    task.send_sig(6, 99);
    assert!(!task.has_sig());
    task.send_sig(6, 3);
    assert!(task.has_sig());
    assert_eq!(task.exit_proc(&mut v, 0x1ff), None);
    assert_eq!(task.info.status, Some(0xff));
    assert!(task.exited());
    assert_eq!(task.fd_count(), 0);
}

#[test]
fn pipe_closed_on_close_fd_and_exit() {
    let mut v = Vfs::new();
    let mut task = Task::make(3, "t");
    let (rd, wr) = kernel_sim::pipe::PipeNode::pair(&mut v);
    let rfd = task.add_file(FLike::Pipe(rd));
    let wfd = task.add_file(FLike::Pipe(wr));
    assert_eq!((rfd, wfd), (0, 1));
    assert_eq!(task.close_fd(&mut v, wfd), Ok(()));
    assert_eq!(v.pipes[0].ends, 1);
    let _ = task.exit_proc(&mut v, 0);
    assert_eq!(v.pipes[0].ends, 0);
}

#[test]
fn table_fork_reap_and_groups() {
    let mut v = Vfs::new();
    let mut table = TaskTable::new();
    let root = table.spawn_root();
    let (rd, wr) = kernel_sim::pipe::PipeNode::pair(&mut v);
    {
        let t = task_mut(&mut table, root);
        t.add_file(FLike::Pipe(rd));
        t.add_file(FLike::Pipe(wr));
        t.pgid = 4;
    }
    let a = table.fork_task(&mut v, root);
    assert_eq!(v.pipes[0].ends, 4);
    let b = table.fork_task(&mut v, a);
    assert_eq!(table.find(b).unwrap().parent, Some(a));
    assert_eq!(table.pgid_group(4), vec![root, a, b]);
    assert_eq!(table.send_signal_group(4, 2), 3);
    assert_eq!(table.find_by_tag("init"), vec![root, a, b]);
    let th = table.clone_thread(a, 0x9000, 0x10, 7);
    assert_eq!(table.process_of_tid(th), Some(a));
    assert!(table.terminate_and_collect(&mut v, a, 3));
    assert_eq!(table.find(b).unwrap().parent, Some(root));
    assert_eq!(table.find(root).unwrap().subtasks, vec![b]);
    assert_eq!(v.pipes[0].ends, 4);
    assert_eq!(table.count(), 3);
    assert_eq!(table.active_tasks(), vec![root, b, th]);
    assert!(table.zombie_tasks().is_empty());
    assert!(!table.terminate_and_collect(&mut v, 99, 0));
}

#[test]
fn kernel_wait_exec_and_pipe() {
    let mut k = Kernel::new(16);
    let root = k.proc_init();
    k.set_cur(0, Some(root));
    assert_eq!(k.cur_task(0), Some(root));
    assert_eq!(k.cur_task(9), None);
    assert!(k.handle_pgfault(0x1000));
    assert_eq!(k.do_wait(root, -1, 0), Err("echild"));
    let child = k.do_fork(root).unwrap();
    assert_eq!(k.do_wait(root, -1, 1), Ok((0, 0)));
    assert_eq!(k.do_wait(root, -1, 0), Err("echild"));
    assert_eq!(k.do_fork(42), Err("esrch"));
    assert_eq!(k.do_pipe(child), Ok((0, 1)));
    assert_eq!(k.do_exec(child, "/bin/sh", vec!["sh".to_string()], Vec::new()), Ok(()));
    assert_eq!(k.tasks.find(child).unwrap().fd_count(), 2);
    assert!(k.tasks.terminate_and_collect(&mut k.vfs, child, 9) || true);
    let c2 = k.do_fork(root).unwrap();
    {
        let t = task_mut(&mut k.tasks, c2);
        t.info.status = Some(0);
        t.exit_code = 5;
    }
    assert_eq!(k.do_wait(root, c2 as isize, 0), Ok((c2, 5)));
    assert!(k.tasks.find(c2).is_none());
    assert_eq!(k.do_wait(99, -1, 0), Err("esrch"));
}

#[test]
fn kernel_pages_tty_and_pressure() {
    let mut k = Kernel::new(4);
    let pages = k.alloc_pages(3);
    assert_eq!(pages, vec![0x8000_0000, 0x8000_1000, 0x8000_2000]);
    assert_eq!(k.memory_pressure(), 75);
    k.free_pages(&[0x8000_1000, 0x8000_0001, 0x10]);
    assert_eq!(k.memory_pressure(), 50);
    k.tty_push(13);
    k.tty_push(b'a');
    assert_eq!(k.tty_pop(), Some(10));
    assert_eq!(k.tty_pop(), Some(b'a'));
    assert_eq!(k.tty_pop(), None);
    assert_eq!(k.cache_stats(), (0, 0));
    k.schedule_tick(0);
    assert_eq!(k.clk.wall, 1);
    assert_eq!(k.get_sem(0, 0, 0), Err("einval"));
    assert_eq!(k.get_shm(0, 2), 0);
    assert_eq!(k.reclaim_zombies(), 0);
    assert_eq!(k.balance_load(), 0);
    let mut g = KernLock::new();
    g.enter(1);
    assert!(g.held());
}
