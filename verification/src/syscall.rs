use vstd::prelude::*;
use crate::consts::{
    BOOT_EPOCH, FD_CLOEXEC, F_DUPFD, F_DUPFD_CLOEXEC, F_GETFD, F_GETFL, F_GETLK, F_SETFD, F_SETFL,
    F_SETLK, F_SETLKW, KERN_BASE, NSIG, N_PROC, O_APPEND, O_NONBLOCK, PAGE_SZ, SIGKILL, SIGSTOP,
    TIMER_TICK_HZ, VM_EXEC, VM_READ, VM_SHARED, VM_WRITE,
};
use crate::cache::CacheSlot;
use crate::file::{file_read_spec, write_spec, FHandle, FdOpt, FdState, Vfs};
use crate::file_like::FLike;
use crate::ipc::{first_free, ids_of};
use crate::kernel::{lemma_files_grow, only_task, rest_same, tasks_files_valid, vfs_grows, Kernel};
use crate::memory::{check_access, check_access_rw, user_range};
use crate::pipe::{pipe_read_spec, pipe_view, pipe_write_spec, PipeDir, PipeNode};
use crate::process::{
    adopted_by, after_drop, after_drops, files_valid, finished, forked, in_group, key_not, keys_with, only_pipes_changed,
    pipe_room, pipe_views, running, sig_sent, Task, TaskTable,
};
use crate::memory::count_true;
use crate::sync::{change_spec, EventFlag};

verus! {

pub const SYS_READ: usize = 0;
pub const SYS_WRITE: usize = 1;
pub const SYS_OPEN: usize = 2;
pub const SYS_CLOSE: usize = 3;
pub const SYS_STAT: usize = 4;
pub const SYS_FSTAT: usize = 5;
pub const SYS_MMAP: usize = 9;
pub const SYS_MUNMAP: usize = 11;
pub const SYS_BRK: usize = 12;
pub const SYS_IOCTL: usize = 16;
pub const SYS_PIPE: usize = 22;
pub const SYS_DUP: usize = 32;
pub const SYS_DUP2: usize = 33;
pub const SYS_FORK: usize = 57;
pub const SYS_EXEC: usize = 59;
pub const SYS_EXIT: usize = 60;
pub const SYS_WAIT4: usize = 61;
pub const SYS_KILL: usize = 62;
pub const SYS_FCNTL: usize = 72;
pub const SYS_GETPID: usize = 39;
pub const SYS_GETPPID: usize = 110;
pub const SYS_SETPGID: usize = 109;
pub const SYS_GETPGID: usize = 121;
pub const SYS_SETSID: usize = 112;
pub const SYS_EPOLL_CREATE: usize = 213;
pub const SYS_EPOLL_CTL: usize = 233;
pub const SYS_EPOLL_WAIT: usize = 232;
pub const SYS_CLOCK_GETTIME: usize = 228;
pub const SYS_SIGACTION: usize = 13;
pub const SYS_SIGPROCMASK: usize = 14;
pub const SYS_FUTEX: usize = 202;

/// Size in bytes of one epoll event record in user memory (a 32-bit mask
/// and 64-bit data, padded to 8-byte alignment).
pub const EP_EVENT_SIZE: usize = 16;

/// Where anonymous mappings are placed from.
pub const MMAP_BASE: usize = 0x7000_0000;

/// The program break reported before any change.
pub const BRK_START: usize = 0x0040_0000;

/// `len` rounded up to whole pages, when that fits in a word.
pub open spec fn page_round(len: usize) -> Option<usize> {
    if len + (PAGE_SZ - 1) > usize::MAX {
        None
    } else {
        Some(((len + (PAGE_SZ - 1)) as usize) & !((PAGE_SZ - 1) as usize))
    }
}

fn saturating_times(a: usize, b: usize) -> (r: usize)
    ensures
        r == sat_mul(a, b),
{
    match a.checked_mul(b) {
        Some(v) => v,
        None => usize::MAX,
    }
}

fn round_to_page(len: usize) -> (r: Option<usize>)
    ensures
        r == page_round(len),
{
    match len.checked_add(PAGE_SZ - 1) {
        Some(v) => Some(v & !(PAGE_SZ - 1)),
        None => None,
    }
}

/// The task that system calls act for: the one on CPU 0, when it exists.
pub open spec fn cur_id(k: Kernel) -> Option<usize> {
    match k.cpus@[0] {
        Some(id) => if k.tasks.task(id) is Some {
            Some(id)
        } else {
            None
        },
        None => None,
    }
}

/// The result of `stat`/`fstat` with the user buffer at `buf`.
pub open spec fn stat_result(buf: usize) -> Result<usize, &'static str> {
    if buf == 0 || !user_range(buf, 144) {
        Err("efault")
    } else {
        Ok(0)
    }
}

/// The address `mmap` proposes for `aligned_len` bytes without a fixed
/// address: a page in the window above `MMAP_BASE` picked from the clock
/// and the descriptor; `None` when the window is empty.
pub open spec fn mmap_slot(now: usize, fd: usize, aligned_len: usize) -> Option<usize> {
    let span = KERN_BASE - MMAP_BASE - aligned_len;
    if span <= 0 {
        None
    } else {
        let seed = sat_add(sat_mul(now, PAGE_SZ), sat_mul(fd, PAGE_SZ));
        Some(((MMAP_BASE + (seed as int) % span) as usize) & !((PAGE_SZ - 1) as usize))
    }
}

pub open spec fn sat_mul(a: usize, b: usize) -> usize {
    if a * b > usize::MAX {
        usize::MAX
    } else {
        (a * b) as usize
    }
}

pub open spec fn sat_add(a: usize, b: usize) -> usize {
    if a + b > usize::MAX {
        usize::MAX
    } else {
        (a + b) as usize
    }
}

/// The result of `mmap(addr, len, prot, flags, fd, offset)` with `free`
/// free frames at clock `now`.
pub open spec fn mmap_result(
    addr: usize,
    len: usize,
    flags: usize,
    fd: usize,
    offset: usize,
    now: usize,
    free: nat,
) -> Result<usize, &'static str> {
    if len == 0 {
        Err("einval")
    } else if page_round(len) is None {
        Err("einval")
    } else {
        let aligned_len = page_round(len).unwrap();
        let fixed = addr != 0 && flags & 0x10 != 0;
        if !fixed && mmap_slot(now, fd, aligned_len) is None {
            Err("enomem")
        } else if free < aligned_len / PAGE_SZ {
            Err("enomem")
        } else if flags & 0x20 == 0 && (offset & !((PAGE_SZ - 1) as usize)) > aligned_len {
            Err("einval")
        } else if fixed {
            Ok(addr)
        } else {
            Ok(mmap_slot(now, fd, aligned_len).unwrap())
        }
    }
}

/// The result of `munmap(addr, len)`.
pub open spec fn munmap_result(addr: usize, len: usize) -> Result<usize, &'static str> {
    if len == 0 || addr % PAGE_SZ != 0 || page_round(len) is None {
        Err("einval")
    } else {
        Ok(0)
    }
}

/// The result of `exec` with the given user pointers, when a task is
/// current (`has_cur`): pointer checks, then "enosys".
pub open spec fn exec_result(path: usize, argv: usize, envp: usize, has_cur: bool) -> Result<usize, &'static str> {
    if path == 0 || !user_range(path, 256) {
        Err("efault")
    } else if argv != 0 && !user_range(argv, 512) {
        Err("efault")
    } else if envp != 0 && !user_range(envp, 512) {
        Err("efault")
    } else if !has_cur {
        Err("esrch")
    } else {
        Err("enosys")
    }
}

/// The result of `epoll_create(size)`.
pub open spec fn epoll_create_result(size: usize) -> Result<usize, &'static str> {
    if size == 0 {
        Err("einval")
    } else if size * EP_EVENT_SIZE > usize::MAX {
        Err("enomem")
    } else {
        Ok((3 + size % 61) as usize)
    }
}

/// The result of `epoll_ctl(_, op, _, ev)`.
pub open spec fn epoll_ctl_result(op: i32, ev: usize) -> Result<usize, &'static str> {
    if ev != 0 && !user_range(ev, 12) {
        Err("efault")
    } else if op == 1 || op == 3 {
        if ev == 0 {
            Err("efault")
        } else {
            Ok(0)
        }
    } else if op == 2 {
        Ok(0)
    } else {
        Err("einval")
    }
}

/// The result of `epoll_wait(_, events, max, _)`.
pub open spec fn epoll_wait_result(events: usize, max: usize) -> Result<usize, &'static str> {
    if events == 0 || max == 0 || max * EP_EVENT_SIZE > usize::MAX {
        Err("einval")
    } else if !user_range(events, (max * EP_EVENT_SIZE) as usize) {
        Err("efault")
    } else {
        Ok(0)
    }
}

/// The result of `clock_gettime(clk_id, tp)`.
pub open spec fn clock_result(clk_id: usize, tp: usize) -> Result<usize, &'static str> {
    if tp == 0 || !user_range(tp, 16) {
        Err("efault")
    } else if clk_id == 0 || clk_id == 1 || clk_id == 4 {
        Ok(0)
    } else {
        Err("einval")
    }
}

/// The result of `sigaction(signo, act, oldact)`.
pub open spec fn sigaction_result(signo: usize, act: usize, oldact: usize) -> Result<usize, &'static str> {
    if signo == 0 || signo >= NSIG || signo == SIGKILL || signo == SIGSTOP {
        Err("einval")
    } else if act != 0 && !user_range(act, 32) {
        Err("efault")
    } else if oldact != 0 && !user_range(oldact, 32) {
        Err("efault")
    } else {
        Ok(0)
    }
}

pub open spec fn min_of(a: int, b: int) -> int {
    if a < b {
        a
    } else {
        b
    }
}

/// The result of a futex call with `tasks` tasks in the table.
pub open spec fn futex_result(
    uaddr: usize,
    op: usize,
    val: usize,
    timeout: usize,
    uaddr2: usize,
    val3: usize,
    tasks: nat,
) -> Result<usize, &'static str> {
    if !user_range(uaddr, 4) {
        Err("efault")
    } else {
        let fop = op & 0xF;
        if fop == 0 {
            if timeout != 0 && !user_range(timeout, 16) {
                Err("efault")
            } else {
                Ok(0)
            }
        } else if fop == 1 {
            Ok(min_of(val as int, tasks as int) as usize)
        } else if fop == 3 {
            if !user_range(uaddr2, 4) {
                Err("efault")
            } else {
                Ok(min_of(sat_add(val, val3) as int, 128) as usize)
            }
        } else if fop == 5 {
            if timeout == 0 || !user_range(timeout, 16) {
                Err("efault")
            } else {
                Ok(0)
            }
        } else if fop == 9 {
            if !user_range(uaddr2, 4) {
                Err("efault")
            } else {
                Ok((min_of(val3 as int, 32) + min_of(val as int, 32)) as usize)
            }
        } else {
            Err("enosys")
        }
    }
}

/// Whether block `fd` of the cache is marked modified, which `F_GETFD`
/// reports as close-on-exec.
pub open spec fn cached_modified(k: Kernel, fd: usize) -> bool {
    let chain = k.cache.chains@[(fd % k.cache.width) as int];
    exists|j: int| 0 <= j < chain.items@.len() && #[trigger] chain.items@[j].id == fd && chain.items@[j].modified
}

/// The result of `fcntl(fd, cmd, arg)` at clock `now`.
pub open spec fn fcntl_result(k: Kernel, fd: usize, cmd: usize, arg: usize, now: usize) -> Result<usize, &'static str> {
    let base = if fd > arg {
        fd
    } else {
        arg
    };
    if fd >= N_PROC * 4 {
        Err("ebadf")
    } else if cmd == F_DUPFD {
        Ok((base + (now & 3)) as usize)
    } else if cmd == F_DUPFD_CLOEXEC {
        Ok((base + 1) as usize)
    } else if cmd == F_GETFD {
        Ok(if cached_modified(k, fd) {
            FD_CLOEXEC
        } else {
            0
        })
    } else if cmd == F_SETFD {
        Ok(0)
    } else if cmd == F_GETFL {
        Ok(if fd <= 2 {
            O_NONBLOCK | O_APPEND
        } else {
            O_NONBLOCK
        })
    } else if cmd == F_SETFL {
        if arg & !(O_NONBLOCK | O_APPEND) != 0 {
            Err("einval")
        } else {
            Ok(0)
        }
    } else if cmd == F_GETLK || cmd == F_SETLK || cmd == F_SETLKW {
        if !user_range(arg, 32) {
            Err("efault")
        } else {
            Ok(0)
        }
    } else {
        Err("einval")
    }
}

/// The result of `getpid`.
pub open spec fn getpid_result(k: Kernel) -> Result<usize, &'static str> {
    match cur_id(k) {
        Some(id) => Ok(id),
        None => Ok(1),
    }
}

/// The result of `getppid`.
pub open spec fn getppid_result(k: Kernel) -> Result<usize, &'static str> {
    match cur_id(k) {
        Some(id) => match k.tasks.task(id).unwrap().parent {
            Some(p) => Ok(p),
            None => Ok(0),
        },
        None => Ok(0),
    }
}

/// The result of `getpgid(pid)`.
pub open spec fn getpgid_result(k: Kernel, pid: usize) -> Result<usize, &'static str> {
    let target = if pid == 0 {
        match cur_id(k) {
            Some(id) => id,
            None => 0,
        }
    } else {
        pid
    };
    if target == 0 {
        Err("esrch")
    } else {
        match k.tasks.task(target) {
            Some(t) => Ok(t.pgid as usize),
            None => Err("esrch"),
        }
    }
}

/// Whether some slot holds block `id` (and, with `need_modified`, is
/// marked modified).
fn slot_with(items: &Vec<CacheSlot>, id: usize, need_modified: bool) -> (r: bool)
    ensures
        r == exists|j: int| 0 <= j < items@.len() && #[trigger] items@[j].id == id && (!need_modified || items@[j].modified),
{
    let mut i: usize = 0;
    while i < items.len()
        invariant
            i <= items@.len(),
            forall|j: int| 0 <= j < i ==> !(#[trigger] items@[j].id == id && (!need_modified || items@[j].modified)),
        decreases items@.len() - i,
    {
        if items[i].id == id && (!need_modified || items[i].modified) {
            return true;
        }
        i = i + 1;
    }
    false
}

impl Kernel {
    /// The task system calls act for (see `cur_id`).
    pub fn current(&self) -> (r: Option<usize>)
        requires
            self.wf(),
        ensures
            r == cur_id(*self),
    {
        match self.cur_task(0) {
            Some(id) => if self.tasks.contains(id) {
                Some(id)
            } else {
                None
            },
            None => None,
        }
    }

    /// `stat`/`fstat`: checks the user buffer.
    pub fn sys_stat(&self, stat_buffer: usize) -> (r: Result<usize, &'static str>)
        ensures
            r == stat_result(stat_buffer),
    {
        if stat_buffer == 0 {
            return Err("efault");
        }
        if !check_access(stat_buffer, 144) {
            return Err("efault");
        }
        Ok(0)
    }

    /// `mmap`: validates the request and proposes an address.
    pub fn sys_mmap(&self, addr: usize, len: usize, prot: usize, flags: usize, fd: usize, offset: usize) -> (r: Result<usize, &'static str>)
        requires
            self.pool.slots@.len() == self.pool.capacity,
        ensures
            r == mmap_result(addr, len, flags, fd, offset, self.clk.wall, crate::memory::count_true(self.pool.slots@)),
    {
        if len == 0 {
            return Err("einval");
        }
        let aligned_len = match round_to_page(len) {
            Some(v) => v,
            None => return Err("einval"),
        };
        let aligned_off = offset & !(PAGE_SZ - 1);
        let map_anon = (flags & 0x20) != 0;
        let map_fixed = (flags & 0x10) != 0;
        let map_shared = (flags & 0x02) != 0;
        let mut vm_flags: u32 = 0;
        if prot & 0x1 != 0 {
            vm_flags = vm_flags | VM_READ;
        }
        if prot & 0x2 != 0 {
            vm_flags = vm_flags | VM_WRITE;
        }
        if prot & 0x4 != 0 {
            vm_flags = vm_flags | VM_EXEC;
        }
        if map_shared {
            vm_flags = vm_flags | VM_SHARED;
        }
        let result_addr = if addr != 0 && map_fixed {
            addr
        } else {
            let span = match KERN_BASE.checked_sub(MMAP_BASE) {
                Some(v) => match v.checked_sub(aligned_len) {
                    Some(w) => w,
                    None => return Err("enomem"),
                },
                None => return Err("enomem"),
            };
            if span == 0 {
                return Err("enomem");
            }
            let seed = saturating_times(self.clk.wall, PAGE_SZ).saturating_add(saturating_times(fd, PAGE_SZ));
            let slot = seed % span;
            (MMAP_BASE + slot) & !(PAGE_SZ - 1)
        };
        let pages_needed = aligned_len / PAGE_SZ;
        let avail = self.pool.free_count();
        if avail < pages_needed {
            return Err("enomem");
        }
        if !map_anon && aligned_off > aligned_len {
            return Err("einval");
        }
        Ok(result_addr)
    }

    /// `munmap`: validates the range.
    pub fn sys_munmap(&self, addr: usize, len: usize) -> (r: Result<usize, &'static str>)
        ensures
            r == munmap_result(addr, len),
    {
        if len == 0 {
            return Err("einval");
        }
        if addr % PAGE_SZ != 0 {
            return Err("einval");
        }
        match round_to_page(len) {
            Some(_) => Ok(0),
            None => Err("einval"),
        }
    }

    /// `exec`: checks the user pointers; loading programs is not supported.
    pub fn sys_exec(&self, path_addr: usize, argv_addr: usize, envp_addr: usize) -> (r: Result<usize, &'static str>)
        requires
            self.wf(),
        ensures
            r == exec_result(path_addr, argv_addr, envp_addr, cur_id(*self) is Some),
    {
        if path_addr == 0 {
            return Err("efault");
        }
        if !check_access(path_addr, 256) {
            return Err("efault");
        }
        if argv_addr != 0 && !check_access(argv_addr, 8 * 64) {
            return Err("efault");
        }
        if envp_addr != 0 && !check_access(envp_addr, 8 * 64) {
            return Err("efault");
        }
        match self.current() {
            None => Err("esrch"),
            Some(_) => Err("enosys"),
        }
    }

    pub fn sys_epoll_create(&self, size: usize) -> (r: Result<usize, &'static str>)
        ensures
            r == epoll_create_result(size),
    {
        if size == 0 {
            return Err("einval");
        }
        let epfd = 3 + (size % 61);
        match size.checked_mul(EP_EVENT_SIZE) {
            None => Err("enomem"),
            Some(_) => Ok(epfd),
        }
    }

    pub fn sys_epoll_ctl(&self, op: i32, ev_addr: usize) -> (r: Result<usize, &'static str>)
        ensures
            r == epoll_ctl_result(op, ev_addr),
    {
        if ev_addr != 0 && !check_access(ev_addr, 12) {
            return Err("efault");
        }
        if op == 1 || op == 3 {
            if ev_addr == 0 {
                return Err("efault");
            }
            Ok(0)
        } else if op == 2 {
            Ok(0)
        } else {
            Err("einval")
        }
    }

    /// `epoll_wait`: checks the event buffer; no event is ever ready.
    pub fn sys_epoll_wait(&self, events_addr: usize, max_events: usize, timeout: i32) -> (r: Result<usize, &'static str>)
        ensures
            r == epoll_wait_result(events_addr, max_events),
    {
        if events_addr == 0 || max_events == 0 {
            return Err("einval");
        }
        let total_buf = match max_events.checked_mul(EP_EVENT_SIZE) {
            Some(v) => v,
            None => return Err("einval"),
        };
        if !check_access(events_addr, total_buf) {
            return Err("efault");
        }
        if timeout == 0 {
            return Ok(0);
        }
        if timeout > 0 {
            let t: u64 = timeout as u64;
            let hz: u64 = TIMER_TICK_HZ as u64;
            assert(t == timeout && t < 0x8000_0000 && hz == 100);
            let ticks_to_wait = t * hz / 1000;
            let deadline = (self.clk.wall as u64).saturating_add(ticks_to_wait);
            if self.clk.wall as u64 >= deadline {
                return Ok(0);
            }
        }
        Ok(0)
    }

    pub fn sys_clock_gettime(&self, clk_id: usize, tp_addr: usize) -> (r: Result<usize, &'static str>)
        ensures
            r == clock_result(clk_id, tp_addr),
    {
        if tp_addr == 0 {
            return Err("efault");
        }
        if !check_access(tp_addr, 16) {
            return Err("efault");
        }
        let ticks = self.clk.wall;
        if clk_id == 0 {
            let _secs = ticks / TIMER_TICK_HZ;
            let rem = ticks % TIMER_TICK_HZ;
            assert(rem < 100);
            let per_tick: usize = 1_000_000_000 / TIMER_TICK_HZ;
            assert(per_tick == 10_000_000) by (nonlinear_arith)
                requires
                    per_tick == 1_000_000_000usize / 100usize,
            ;
            let _nsecs = rem * per_tick;
            Ok(0)
        } else if clk_id == 1 {
            let _secs = ticks.wrapping_add(BOOT_EPOCH) / TIMER_TICK_HZ;
            Ok(0)
        } else if clk_id == 4 {
            let _nsecs = (ticks % TIMER_TICK_HZ) * 1_000_000;
            Ok(0)
        } else {
            Err("einval")
        }
    }

    pub fn sys_sigaction(&self, signo: usize, act_addr: usize, oldact_addr: usize) -> (r: Result<usize, &'static str>)
        ensures
            r == sigaction_result(signo, act_addr, oldact_addr),
    {
        if signo == 0 || signo >= NSIG as usize {
            return Err("einval");
        }
        if signo == SIGKILL as usize || signo == SIGSTOP as usize {
            return Err("einval");
        }
        if act_addr != 0 && !check_access(act_addr, 32) {
            return Err("efault");
        }
        if oldact_addr != 0 && !check_access(oldact_addr, 32) {
            return Err("efault");
        }
        Ok(0)
    }

    pub fn sys_futex(&self, uaddr: usize, op: usize, val: usize, timeout_addr: usize, uaddr2: usize, val3: usize) -> (r: Result<
        usize,
        &'static str,
    >)
        ensures
            r == futex_result(uaddr, op, val, timeout_addr, uaddr2, val3, self.tasks.map@.len()),
    {
        if !check_access(uaddr, 4) {
            return Err("efault");
        }
        let futex_op = op & 0xF;
        if futex_op == 0 {
            if timeout_addr != 0 && !check_access(timeout_addr, 16) {
                return Err("efault");
            }
            Ok(0)
        } else if futex_op == 1 {
            let n = self.tasks.count();
            Ok(if val < n { val } else { n })
        } else if futex_op == 3 {
            if !check_access(uaddr2, 4) {
                return Err("efault");
            }
            let total = val.saturating_add(val3);
            Ok(if total < 128 { total } else { 128 })
        } else if futex_op == 5 {
            if timeout_addr == 0 {
                return Err("efault");
            }
            if !check_access(timeout_addr, 16) {
                return Err("efault");
            }
            Ok(0)
        } else if futex_op == 9 {
            if !check_access(uaddr2, 4) {
                return Err("efault");
            }
            let move_count = if val3 < 32 { val3 } else { 32 };
            let wake_count = if val < 32 { val } else { 32 };
            Ok(wake_count + move_count)
        } else {
            Err("enosys")
        }
    }

    /// `fcntl`: descriptor flags and locks, answered from fixed rules.
    pub fn sys_fcntl(&self, fd: usize, cmd: usize, arg: usize) -> (r: Result<usize, &'static str>)
        requires
            self.wf(),
            self.cache.width > 0,
            cmd == F_DUPFD ==> arg <= usize::MAX - 3,
            cmd == F_DUPFD_CLOEXEC ==> arg < usize::MAX,
        ensures
            r == fcntl_result(*self, fd, cmd, arg, self.clk.wall),
    {
        if fd >= N_PROC * 4 {
            return Err("ebadf");
        }
        let base = if fd > arg {
            fd
        } else {
            arg
        };
        if cmd == F_DUPFD {
            let now = self.clk.wall;
            let low = now & 0x3;
            assert(low <= 3) by (bit_vector)
                requires
                    low == now & 0x3,
            ;
            Ok(base + low)
        } else if cmd == F_DUPFD_CLOEXEC {
            Ok(base + 1)
        } else if cmd == F_GETFD {
            let ci = fd % self.cache.width;
            let found = slot_with(&self.cache.chains[ci].items, fd, true);
            Ok(if found { FD_CLOEXEC } else { 0 })
        } else if cmd == F_SETFD {
            Ok(0)
        } else if cmd == F_GETFL {
            Ok(if fd <= 2 { O_NONBLOCK | O_APPEND } else { O_NONBLOCK })
        } else if cmd == F_SETFL {
            let valid_mask = O_NONBLOCK | O_APPEND;
            if arg & !valid_mask != 0 {
                return Err("einval");
            }
            Ok(0)
        } else if cmd == F_GETLK || cmd == F_SETLK || cmd == F_SETLKW {
            if !check_access(arg, 32) {
                return Err("efault");
            }
            Ok(0)
        } else {
            Err("einval")
        }
    }

    pub fn sys_getpid(&self) -> (r: Result<usize, &'static str>)
        requires
            self.wf(),
        ensures
            r == getpid_result(*self),
    {
        match self.current() {
            Some(id) => Ok(id),
            None => Ok(1),
        }
    }

    pub fn sys_getppid(&self) -> (r: Result<usize, &'static str>)
        requires
            self.wf(),
        ensures
            r == getppid_result(*self),
    {
        match self.current() {
            Some(id) => match self.tasks.find(id).unwrap().parent {
                Some(p) => Ok(p),
                None => Ok(0),
            },
            None => Ok(0),
        }
    }

    pub fn sys_getpgid(&self, pid: usize) -> (r: Result<usize, &'static str>)
        requires
            self.wf(),
        ensures
            r == getpgid_result(*self, pid),
    {
        let target = if pid == 0 {
            match self.current() {
                Some(id) => id,
                None => 0,
            }
        } else {
            pid
        };
        if target == 0 {
            return Err("esrch");
        }
        match self.tasks.find(target) {
            Some(t) => Ok(t.pgid as usize),
            None => Err("esrch"),
        }
    }
}


/// Putting a task back keeps the kernel well formed when the open-file
/// state only grew and the task's files refer into it.
proof fn lemma_wf_back(k0: Kernel, k1: Kernel, id: usize)
    requires
        k0.wf(),
        rest_same(k0, k1),
        k1.tasks.wf(),
        forall|d: usize| d != id ==> #[trigger] k1.tasks.task(d) == k0.tasks.task(d),
        k1.tasks.task(id) matches Some(t) ==> files_valid(t.files@, &k1.vfs),
        vfs_grows(&k0.vfs, &k1.vfs),
    ensures
        k1.wf(),
{
    assert forall|d: usize| #[trigger] k1.tasks.task(d) is Some implies files_valid(k1.tasks.task(d).unwrap().files@, &k1.vfs) by {
        if d != id {
            lemma_files_grow(k0.tasks.task(d).unwrap().files@, &k0.vfs, &k1.vfs);
        }
    }
}

/// `n` zero bytes.
pub open spec fn zeros(n: usize) -> Seq<u8> {
    Seq::new(n as nat, |i: int| 0u8)
}

/// The task acting, when there is one.
pub open spec fn cur_task_of(k: Kernel) -> Task {
    k.tasks.task(cur_id(k).unwrap()).unwrap()
}

/// The outcome of `read`/`write` decided before any file is touched.
pub open spec fn io_early(k: Kernel, fd: usize, buf: usize, count: usize) -> Option<Result<usize, &'static str>> {
    if buf == 0 && count > 0 {
        Some(Err("efault"))
    } else if count == 0 {
        Some(Ok(0))
    } else if !user_range(buf, count) {
        Some(Err("efault"))
    } else {
        None
    }
}

/// A read or write through `fd` goes to the block cache, keyed by the
/// descriptor number, when no task is acting or the acting task holds no
/// such descriptor.
pub open spec fn uses_block(k: Kernel, fd: usize) -> bool {
    cur_id(k) is None || cur_task_of(k).file(fd) is None
}

/// Only the blocks of the block cache changed: its width and bucket locks
/// stay, and so does everything else of the kernel.
pub open spec fn only_blocks(k0: Kernel, k1: Kernel) -> bool {
    &&& k1.tasks == k0.tasks
    &&& k1.vfs == k0.vfs
    &&& k1.cpus@ == k0.cpus@
    &&& k1.disk == k0.disk
    &&& k1.pool == k0.pool
    &&& k1.mnt == k0.mnt
    &&& k1.sem_store == k0.sem_store
    &&& k1.shm_store == k0.shm_store
    &&& k1.tty_buf@ == k0.tty_buf@
    &&& k1.gkl == k0.gkl
    &&& k1.clk == k0.clk
    &&& k1.cache.width == k0.cache.width
    &&& k1.cache.chains@.len() == k0.cache.chains@.len()
    &&& k1.cache.lock_states() == k0.cache.lock_states()
}

/// A read of `count` bytes through `fd` stays within the 64-bit file
/// offset.
pub open spec fn read_fits(k: Kernel, fd: usize, buf: usize, count: usize) -> bool {
    io_early(k, fd, buf, count) is None && !uses_block(k, fd) ==> match cur_task_of(k).file(fd).unwrap() {
        FLike::File(h) => h.state(&k.vfs).opt.rd ==> h.state(&k.vfs).off + crate::file::read_count(
            h.bytes(&k.vfs),
            (h.state(&k.vfs).off as usize) as int,
            count as int,
        ) <= u64::MAX,
        _ => true,
    }
}

/// `read(fd, buf, count)`: the bytes go to a scratch buffer; what the
/// file or pipe does is as its own read of `count` zero bytes. Without
/// such a file the block `fd` is read through the block cache.
pub open spec fn read_post(k0: Kernel, k1: Kernel, fd: usize, buf: usize, count: usize, r: Result<usize, &'static str>) -> bool {
    match io_early(k0, fd, buf, count) {
        Some(e) => r == e && k1 == k0,
        None => if uses_block(k0, fd) {
            &&& r == Ok::<usize, &'static str>(k0.cache.read_len(fd, k0.clk.wall, count) as usize)
            &&& k1.cache.view_chains() == k0.cache.fetched_view(fd, k0.clk.wall)
            &&& only_blocks(k0, k1)
        } else {
            &&& k1.tasks == k0.tasks
            &&& rest_same(k0, k1)
            &&& match cur_task_of(k0).file(fd).unwrap() {
                FLike::File(h) => {
                    let out = file_read_spec(k0.vfs.contents(), k0.vfs.descs@, h, zeros(count), count as int);
                    &&& r == out.0
                    &&& k1.vfs.descs@ == out.2
                    &&& k1.vfs.files@ == k0.vfs.files@
                },
                FLike::Pipe(p) => {
                    let out = pipe_read_spec(p.buf(&k0.vfs), p.dir, zeros(count), count as int);
                    &&& r == out.0
                    &&& pipe_view(k1.vfs.pipes@[p.data as int]) == out.2
                },
                FLike::Ep(_) => r == Err::<usize, &'static str>("enosys") && k1.vfs == k0.vfs,
            }
        },
    }
}

/// `write(fd, buf, count)`: `count` zero bytes from a scratch buffer are
/// written as the file or pipe writes them. Without such a file the block
/// `fd` is written through the block cache and all `count` bytes count as
/// written.
pub open spec fn write_post(k0: Kernel, k1: Kernel, fd: usize, buf: usize, count: usize, r: Result<usize, &'static str>) -> bool {
    match io_early(k0, fd, buf, count) {
        Some(e) => r == e && k1 == k0,
        None => if uses_block(k0, fd) {
            &&& r == Ok::<usize, &'static str>(count)
            &&& k1.cache.view_chains() == k0.cache.written_view(fd, k0.clk.wall)
            &&& only_blocks(k0, k1)
        } else {
            &&& k1.tasks == k0.tasks
            &&& rest_same(k0, k1)
            &&& match cur_task_of(k0).file(fd).unwrap() {
                FLike::File(h) => (r, k1.vfs.contents(), k1.vfs.descs@) == write_spec(
                    k0.vfs.contents(),
                    k0.vfs.descs@,
                    h,
                    zeros(count),
                ),
                FLike::Pipe(p) => (r, pipe_view(k1.vfs.pipes@[p.data as int])) == pipe_write_spec(
                    p.buf(&k0.vfs),
                    p.dir,
                    zeros(count),
                    count,
                ),
                FLike::Ep(_) => r == Err::<usize, &'static str>("enosys") && k1.vfs == k0.vfs,
            }
        },
    }
}

/// The result of `ioctl(fd, cmd, _)`.
pub open spec fn ioctl_result(k: Kernel, fd: usize, cmd: usize) -> Result<usize, &'static str> {
    if cur_id(k) is None {
        Err("esrch")
    } else {
        match cur_task_of(k).file(fd) {
            None => Err("ebadf"),
            Some(FLike::File(_)) => Ok(0),
            Some(FLike::Pipe(_)) => if cmd == crate::consts::FIONBIO {
                Ok(0)
            } else {
                Err("enotty")
            },
            Some(FLike::Ep(_)) => Err("enosys"),
        }
    }
}

/// `close(fd)`.
pub open spec fn close_post(k0: Kernel, k1: Kernel, fd: usize, r: Result<usize, &'static str>) -> bool {
    match cur_id(k0) {
        None => r == Err::<usize, &'static str>("esrch") && k1 == k0,
        Some(id) => match cur_task_of(k0).file(fd) {
            None => r == Err::<usize, &'static str>("ebadf") && k1 == k0,
            Some(f) => {
                let t = cur_task_of(k0);
                &&& r == Ok::<usize, &'static str>(0)
                &&& k1.tasks.task(id) matches Some(u) && u.files@ == t.files@.filter(key_not::<FLike>(fd))
                    && u.info == t.info && u.parent == t.parent && u.subtasks@ == t.subtasks@
                &&& only_pipes_changed(&k0.vfs, &k1.vfs)
                &&& pipe_views(&k1.vfs) == after_drop(pipe_views(&k0.vfs), f)
                &&& only_task(k0, k1, id)
            },
        },
    }
}

/// The descriptor options `open` derives from its flags.
pub open spec fn open_opt(flags: usize) -> FdOpt {
    let am = flags & 3;
    FdOpt { rd: am == 0 || am == 2, wr: am == 1 || am == 2, ap: flags & O_APPEND != 0, nb: flags & O_NONBLOCK != 0 }
}

/// Whether the cache chain for block `id` holds it.
pub open spec fn cached(k: Kernel, id: usize) -> bool {
    let chain = k.cache.chains@[(id % k.cache.width) as int];
    exists|j: int| 0 <= j < chain.items@.len() && #[trigger] chain.items@[j].id == id
}

/// The outcome of `open(path, flags, _)` decided before a file is made.
pub open spec fn open_early(k: Kernel, path: usize, flags: usize) -> Option<Result<usize, &'static str>> {
    if path == 0 || !user_range(path, 256) {
        Some(Err("efault"))
    } else if flags & 0o100 != 0 && flags & 0o200 != 0 && cached(k, path) {
        Some(Err("eexist"))
    } else if cur_id(k) is None {
        Some(Ok((3 + path % 64) as usize))
    } else {
        None
    }
}

/// `open(path, flags, mode)`: a new empty anonymous file at the smallest
/// free descriptor of the acting task.
pub open spec fn open_post(k0: Kernel, k1: Kernel, path: usize, flags: usize, r: Result<usize, &'static str>) -> bool {
    match open_early(k0, path, flags) {
        Some(e) => r == e && k1 == k0,
        None => {
            let id = cur_id(k0).unwrap();
            let t = cur_task_of(k0);
            &&& (r matches Ok(fd) && first_free(ids_of(t.files@), 0, fd as int) && (k1.tasks.task(id) matches Some(u)
                && u.files@.drop_last() == t.files@ && u.files@.len() == t.files@.len() + 1 && u.files@.last().0 == fd
                && (u.files@.last().1 matches FLike::File(h) && h.path@ == "anon"@ && h.data == k0.vfs.files@.len()
                && h.desc == k0.vfs.descs@.len() && !h.pipe && h.cloexec == (flags & crate::consts::O_CLOEXEC != 0))
                && u == (Task { files: u.files, ..t })))
            &&& k1.vfs.contents() == k0.vfs.contents().push(Seq::empty())
            &&& k1.vfs.descs@ == k0.vfs.descs@.push(FdState { off: 0, opt: open_opt(flags), flk: 0 })
            &&& k1.vfs.pipes@ == k0.vfs.pipes@
            &&& k1.vfs.ep_maps@ == k0.vfs.ep_maps@
            &&& k1.vfs.ep_sets@ == k0.vfs.ep_sets@
            &&& only_task(k0, k1, id)
        },
    }
}

/// The outcome of `pipe(fds, _)` decided before a pipe is made.
pub open spec fn pipe_early(k: Kernel, fds: usize) -> Option<Result<usize, &'static str>> {
    if fds == 0 || !user_range(fds, 8) {
        Some(Err("efault"))
    } else if cur_id(k) is None {
        Some(Err("esrch"))
    } else if cur_task_of(k).files@.len() + 2 > N_PROC {
        Some(Err("emfile"))
    } else {
        None
    }
}

/// The two descriptors `pipe` returns, packed in one word.
pub open spec fn fd_pair(rd: usize, wr: usize) -> usize {
    ((rd as u64) | ((wr as u64) << 32u64)) as usize
}

/// `pipe(fds, flags)`: a new pipe whose read and write ends take the two
/// smallest free descriptors.
pub open spec fn pipe_post(k0: Kernel, k1: Kernel, fds: usize, r: Result<usize, &'static str>) -> bool {
    match pipe_early(k0, fds) {
        Some(e) => r == e && k1 == k0,
        None => {
            let id = cur_id(k0).unwrap();
            let t = cur_task_of(k0);
            let p = k0.vfs.pipes@.len() as usize;
            &&& exists|rd: usize, wr: usize|
                {
                    &&& r == Ok::<usize, &'static str>(fd_pair(rd, wr))
                    &&& first_free(ids_of(t.files@), 0, rd as int)
                    &&& first_free(ids_of(t.files@.push((rd, FLike::Pipe(PipeNode { data: p, dir: PipeDir::Rd })))), 0, wr as int)
                    &&& k1.tasks.task(id) matches Some(u) && u.files@ == t.files@.push(
                        (rd, FLike::Pipe(PipeNode { data: p, dir: PipeDir::Rd })),
                    ).push((wr, FLike::Pipe(PipeNode { data: p, dir: PipeDir::Wr })))
                }
            &&& k1.vfs.pipes@.len() == p + 1
            &&& only_task(k0, k1, id)
        },
    }
}

/// `dup(old_fd)`.
pub open spec fn dup_post(k0: Kernel, k1: Kernel, old_fd: usize, r: Result<usize, &'static str>) -> bool {
    match cur_id(k0) {
        None => r == Err::<usize, &'static str>("esrch") && k1 == k0,
        Some(id) => {
            let t = cur_task_of(k0);
            &&& t.file(old_fd) is None ==> r == Err::<usize, &'static str>("ebadf") && k1 == k0
            &&& t.file(old_fd) is Some ==> (r matches Ok(nfd) && first_free(ids_of(t.files@), 0, nfd as int)
                && (k1.tasks.task(id) matches Some(u) && u.files@.drop_last() == t.files@ && u.files@.len()
                == t.files@.len() + 1 && u.files@.last().0 == nfd) && only_pipes_changed(&k0.vfs, &k1.vfs)
                && only_task(k0, k1, id))
        },
    }
}

/// `dup2(old_fd, new_fd)`.
pub open spec fn dup2_post(k0: Kernel, k1: Kernel, old_fd: usize, new_fd: usize, r: Result<usize, &'static str>) -> bool {
    match cur_id(k0) {
        None => r == Err::<usize, &'static str>("esrch") && k1 == k0,
        Some(id) => {
            let t = cur_task_of(k0);
            &&& t.file(old_fd) is None ==> r == Err::<usize, &'static str>("ebadf") && k1 == k0
            &&& t.file(old_fd) is Some ==> r == Ok::<usize, &'static str>(new_fd) && (k1.tasks.task(id) matches Some(u)
                && u.file(new_fd) is Some && (forall|d: usize| d != new_fd ==> #[trigger] u.file(d) == t.file(d))
                && (old_fd == new_fd ==> u.files@ == t.files@)) && only_pipes_changed(&k0.vfs, &k1.vfs)
                && only_task(k0, k1, id)
        },
    }
}

/// `fork()`.
pub open spec fn fork_post(k0: Kernel, k1: Kernel, r: Result<usize, &'static str>) -> bool {
    match cur_id(k0) {
        None => r == Err::<usize, &'static str>("esrch") && k1 == k0,
        Some(id) => {
            &&& r == Ok::<usize, &'static str>(k0.tasks.seq)
            &&& forked(k0.tasks, k1.tasks, &k0.vfs, &k1.vfs, id, k0.tasks.seq)
            &&& rest_same(k0, k1)
        },
    }
}

impl Kernel {
    /// `close(fd)` for the acting task.
    pub fn sys_close(&mut self, fd: usize) -> (r: Result<usize, &'static str>)
        requires
            old(self).wf(),
        ensures
            final(self).wf(),
            close_post(*old(self), *final(self), fd, r),
    {
        let id = match self.current() {
            None => return Err("esrch"),
            Some(id) => id,
        };
        if self.tasks.find(id).unwrap().get_file(fd).is_none() {
            return Err("ebadf");
        }
        proof {
            crate::process::lemma_lookup_in_table(self.tasks, id);
        }
        let mut t = self.tasks.take(id).unwrap();
        let _ = t.close_fd(&mut self.vfs, fd);
        self.tasks.put(id, t);
        proof {
            lemma_wf_back(*old(self), *self, id);
        }
        Ok(0)
    }

    /// `read(fd, buf, count)` for the acting task.
    pub fn sys_read(&mut self, fd: usize, buffer_addr: usize, count: usize) -> (r: Result<usize, &'static str>)
        requires
            old(self).wf(),
            read_fits(*old(self), fd, buffer_addr, count),
        ensures
            final(self).wf(),
            read_post(*old(self), *final(self), fd, buffer_addr, count, r),
    {
        if buffer_addr == 0 && count > 0 {
            return Err("efault");
        }
        if count == 0 {
            return Ok(0);
        }
        if !check_access_rw(buffer_addr, count, true) {
            return Err("efault");
        }
        let id = match self.current() {
            None => {
                let now = self.clk.wall;
                let n = self.cache.read_through(fd, now, count);
                return Ok(n);
            },
            Some(id) => id,
        };
        let file = match self.tasks.find(id).unwrap().get_file(fd) {
            None => {
                let now = self.clk.wall;
                let n = self.cache.read_through(fd, now, count);
                return Ok(n);
            },
            Some(f) => f,
        };
        proof {
            assert(tasks_files_valid(self.tasks, &self.vfs));
            let t = self.tasks.task(id).unwrap();
            crate::process::lemma_lookup_in_table(self.tasks, id);
            crate::process::lemma_file_valid(t, fd, &self.vfs);
        }
        let mut scratch = crate::circbuf::zeroed_bytes(count);
        let r = file.read(&mut self.vfs, scratch.as_mut_slice());
        proof {
            lemma_wf_back(*old(self), *self, id);
        }
        r
    }

    /// `write(fd, buf, count)` for the acting task.
    pub fn sys_write(&mut self, fd: usize, buffer_addr: usize, count: usize) -> (r: Result<usize, &'static str>)
        requires
            old(self).wf(),
        ensures
            final(self).wf(),
            write_post(*old(self), *final(self), fd, buffer_addr, count, r),
    {
        if buffer_addr == 0 && count > 0 {
            return Err("efault");
        }
        if count == 0 {
            return Ok(0);
        }
        if !check_access_rw(buffer_addr, count, false) {
            return Err("efault");
        }
        let id = match self.current() {
            None => {
                let now = self.clk.wall;
                self.cache.write_through(fd, now);
                return Ok(count);
            },
            Some(id) => id,
        };
        let file = match self.tasks.find(id).unwrap().get_file(fd) {
            None => {
                let now = self.clk.wall;
                self.cache.write_through(fd, now);
                return Ok(count);
            },
            Some(f) => f,
        };
        proof {
            let t = self.tasks.task(id).unwrap();
            crate::process::lemma_lookup_in_table(self.tasks, id);
            crate::process::lemma_file_valid(t, fd, &self.vfs);
        }
        let scratch = crate::circbuf::zeroed_bytes(count);
        let r = file.write(&mut self.vfs, scratch.as_slice());
        proof {
            lemma_wf_back(*old(self), *self, id);
        }
        r
    }

    /// `ioctl(fd, cmd, arg)`: passed on to the file.
    pub fn sys_ioctl(&self, fd: usize, cmd: usize, arg: usize) -> (r: Result<usize, &'static str>)
        requires
            self.wf(),
        ensures
            r == ioctl_result(*self, fd, cmd),
    {
        let id = match self.current() {
            None => return Err("esrch"),
            Some(id) => id,
        };
        match self.tasks.find(id).unwrap().get_file(fd) {
            None => Err("ebadf"),
            Some(f) => f.io_ctl(cmd, arg),
        }
    }
}

/// Room for two more descriptors in the acting task's table.
pub open spec fn fd_room(k: Kernel) -> bool {
    cur_id(k) is Some ==> cur_task_of(k).files@.len() + 2 < usize::MAX
}

impl Kernel {
    /// `open(path, flags, mode)` for the acting task.
    pub fn sys_open(&mut self, path_addr: usize, flags: usize, mode: usize) -> (r: Result<usize, &'static str>)
        requires
            old(self).wf(),
            old(self).cache.width > 0,
            fd_room(*old(self)),
        ensures
            final(self).wf(),
            open_post(*old(self), *final(self), path_addr, flags, r),
    {
        if path_addr == 0 {
            return Err("efault");
        }
        let path_max: usize = 4096;
        let probe = if path_max < 256 {
            path_max
        } else {
            256
        };
        if !check_access(path_addr, probe) {
            return Err("efault");
        }
        let access_mode = flags & 0x3;
        let read_only = access_mode == 0;
        let write_only = access_mode == 1;
        let read_write = access_mode == 2;
        let create = (flags & 0o100) != 0;
        let exclusive = (flags & 0o200) != 0;
        let truncate = (flags & 0o1000) != 0;
        let nonblock = (flags & O_NONBLOCK) != 0;
        let append = (flags & O_APPEND) != 0;
        let cloexec = (flags & crate::consts::O_CLOEXEC) != 0;
        if create && exclusive {
            let chain_index = path_addr % self.cache.width;
            if slot_with(&self.cache.chains[chain_index].items, path_addr, false) {
                return Err("eexist");
            }
        }
        let id = match self.current() {
            None => return Ok(3 + (path_addr % 64)),
            Some(id) => id,
        };
        let read = read_only || read_write;
        let write = write_only || read_write;
        let options = FdOpt { rd: read, wr: write, ap: append, nb: nonblock };
        let ghost v0 = self.vfs;
        let file = FHandle::new("anon", options, false, cloexec, &mut self.vfs);
        let ghost v1 = self.vfs;
        proof {
            assert(file.valid(&self.vfs));
            assert(file.state(&self.vfs).opt == options);
            assert(file.bytes(&v1) =~= Seq::<u8>::empty());
            assert forall|i: int| 0 <= i < v0.files@.len() implies v1.files@[i] == v0.files@[i] by {
                assert(v1.files@.subrange(0, v0.files@.len() as int)[i] == v1.files@[i]);
            }
            assert(v1.contents() =~= v0.contents().push(Seq::empty()));
        }
        if truncate && write {
            let _ = file.set_len(&mut self.vfs, 0);
            proof {
                assert(crate::file::resized(Seq::<u8>::empty(), 0) =~= Seq::<u8>::empty());
                assert(self.vfs.contents() =~= v1.contents());
            }
        }
        proof {
            crate::process::lemma_lookup_in_table(self.tasks, id);
            let t0 = self.tasks.task(id).unwrap();
            assert forall|k: int| 0 <= k < t0.files@.len() implies (#[trigger] t0.files@[k]).1.valid(&self.vfs) by {
                assert(t0.files@[k].1.valid(&v0));
            }
        }
        let mut t = self.tasks.take(id).unwrap();
        let fd = t.add_file(FLike::File(file));
        proof {
            assert forall|k: int| 0 <= k < t.files@.len() implies (#[trigger] t.files@[k]).1.valid(&self.vfs) by {
                if k < t.files@.len() - 1 {
                    assert(t.files@[k] == old(self).tasks.task(id).unwrap().files@[k]);
                }
            }
        }
        self.tasks.put(id, t);
        proof {
            lemma_wf_back(*old(self), *self, id);
            let k0 = *old(self);
            let k1 = *self;
            assert(open_early(k0, path_addr, flags) is None);
            assert(k1.vfs.descs@ == k0.vfs.descs@.push(FdState { off: 0, opt: open_opt(flags), flk: 0 }));
            assert(k1.vfs.contents() == k0.vfs.contents().push(Seq::empty()));
            assert(only_task(k0, k1, id));
            let u = k1.tasks.task(id).unwrap();
            let t0 = cur_task_of(k0);
            assert(u == (Task { files: u.files, ..t0 }));
            assert(u.files@.last().1 matches FLike::File(h) && h.path@ == "anon"@);
            assert(u.files@.last().1 matches FLike::File(h) && h.data == k0.vfs.files@.len());
            assert(u.files@.last().1 matches FLike::File(h) && h.desc == k0.vfs.descs@.len());
            assert(u.files@.last().1 matches FLike::File(h) && !h.pipe);
            assert(u.files@.last().1 matches FLike::File(h) && h.cloexec == (flags & crate::consts::O_CLOEXEC != 0));
            assert(first_free(ids_of(t0.files@), 0, fd as int));
            assert(u.files@.drop_last() == t0.files@);
            assert(u.files@.last().0 == fd);
            assert(k1.vfs.pipes@ == k0.vfs.pipes@);
            assert(k1.vfs.ep_maps@ == k0.vfs.ep_maps@);
            assert(k1.vfs.ep_sets@ == k0.vfs.ep_sets@);
        }
        Ok(fd)
    }

    /// `pipe(fds, flags)` for the acting task.
    pub fn sys_pipe(&mut self, fds_addr: usize, pipe_flags: usize) -> (r: Result<usize, &'static str>)
        requires
            old(self).wf(),
        ensures
            final(self).wf(),
            pipe_post(*old(self), *final(self), fds_addr, r),
    {
        if fds_addr == 0 {
            return Err("efault");
        }
        if !check_access(fds_addr, 2 * 4) {
            return Err("efault");
        }
        let id = match self.current() {
            None => return Err("esrch"),
            Some(id) => id,
        };
        let fd_count = self.tasks.find(id).unwrap().fd_count();
        if fd_count > N_PROC - 2 {
            return Err("emfile");
        }
        let _nonblock = (pipe_flags & O_NONBLOCK) != 0;
        let _cloexec = (pipe_flags & crate::consts::O_CLOEXEC) != 0;
        let (rd_fd, wr_fd) = match self.do_pipe(id) {
            Ok(pair) => pair,
            Err(e) => return Err(e),
        };
        let packed = #[verifier::truncate] (((rd_fd as u64) | ((wr_fd as u64) << 32u64)) as usize);
        proof {
            let t = cur_task_of(*old(self));
            let p = old(self).vfs.pipes@.len() as usize;
            assert(packed == fd_pair(rd_fd, wr_fd));
            assert(first_free(ids_of(t.files@), 0, rd_fd as int));
            assert(first_free(
                ids_of(t.files@.push((rd_fd, FLike::Pipe(PipeNode { data: p, dir: PipeDir::Rd })))),
                0,
                wr_fd as int,
            ));
        }
        Ok(packed)
    }

    /// `dup(old_fd)` for the acting task.
    pub fn sys_dup(&mut self, old_fd: usize) -> (r: Result<usize, &'static str>)
        requires
            old(self).wf(),
            fd_room(*old(self)),
            cur_id(*old(self)) is Some ==> pipe_room(cur_task_of(*old(self)).files@, &old(self).vfs),
        ensures
            final(self).wf(),
            dup_post(*old(self), *final(self), old_fd, r),
    {
        let id = match self.current() {
            None => return Err("esrch"),
            Some(id) => id,
        };
        if self.tasks.find(id).unwrap().get_file(old_fd).is_none() {
            return Err("ebadf");
        }
        proof {
            crate::process::lemma_lookup_in_table(self.tasks, id);
        }
        let mut t = self.tasks.take(id).unwrap();
        let r = t.dup_fd(&mut self.vfs, old_fd, false);
        self.tasks.put(id, t);
        proof {
            lemma_wf_back(*old(self), *self, id);
        }
        r
    }

    /// `dup2(old_fd, new_fd)` for the acting task.
    pub fn sys_dup2(&mut self, old_fd: usize, new_fd: usize) -> (r: Result<usize, &'static str>)
        requires
            old(self).wf(),
            cur_id(*old(self)) is Some ==> pipe_room(cur_task_of(*old(self)).files@, &old(self).vfs),
        ensures
            final(self).wf(),
            dup2_post(*old(self), *final(self), old_fd, new_fd, r),
    {
        let id = match self.current() {
            None => return Err("esrch"),
            Some(id) => id,
        };
        if self.tasks.find(id).unwrap().get_file(old_fd).is_none() {
            return Err("ebadf");
        }
        proof {
            crate::process::lemma_lookup_in_table(self.tasks, id);
        }
        let mut t = self.tasks.take(id).unwrap();
        let r = t.dup2_fd(&mut self.vfs, old_fd, new_fd);
        self.tasks.put(id, t);
        proof {
            lemma_wf_back(*old(self), *self, id);
        }
        r
    }

    /// `fork()` for the acting task.
    pub fn sys_fork(&mut self) -> (r: Result<usize, &'static str>)
        requires
            old(self).wf(),
            old(self).tasks.seq < usize::MAX,
            cur_id(*old(self)) is Some ==> pipe_room(cur_task_of(*old(self)).files@, &old(self).vfs),
        ensures
            final(self).wf(),
            fork_post(*old(self), *final(self), r),
    {
        let id = match self.current() {
            None => return Err("esrch"),
            Some(id) => id,
        };
        let ghost v0 = self.vfs;
        let child = self.tasks.fork_task(&mut self.vfs, id);
        proof {
            assert forall|d: usize| #[trigger] self.tasks.task(d) is Some implies files_valid(self.tasks.task(d).unwrap().files@, &self.vfs) by {
                if d != child {
                    let t0 = old(self).tasks.task(d).unwrap();
                    lemma_files_grow(t0.files@, &v0, &self.vfs);
                }
            }
        }
        Ok(child)
    }
}

/// The signals no mask can block: `SIGKILL` and `SIGSTOP`.
pub open spec fn unmaskable() -> u64 {
    (1u64 << 9u64) | (1u64 << 19u64)
}

/// The mask `sigprocmask(how, set, _)` leaves, or `None` for an unknown
/// `how`.
pub open spec fn new_mask(mask: u64, how: usize, set: u64) -> Option<u64> {
    if how == 0 {
        Some((mask | set) & !unmaskable())
    } else if how == 1 {
        Some(mask & !set)
    } else if how == 2 {
        Some(set & !unmaskable())
    } else {
        None
    }
}

/// `sigprocmask(how, set, oldset)`; the set is taken from the pointer
/// value itself.
pub open spec fn sigmask_post(k0: Kernel, k1: Kernel, how: usize, set: usize, oldset: usize, r: Result<usize, &'static str>) -> bool {
    if (set != 0 && !user_range(set, 8)) || (oldset != 0 && !user_range(oldset, 8)) {
        r == Err::<usize, &'static str>("efault") && k1 == k0
    } else if cur_id(k0) is None || set == 0 {
        r == Ok::<usize, &'static str>(0) && k1 == k0
    } else {
        let id = cur_id(k0).unwrap();
        let t = cur_task_of(k0);
        match new_mask(t.sig_mask, how, set as u64) {
            None => r == Err::<usize, &'static str>("einval") && k1 == k0,
            Some(m) => {
                &&& r == Ok::<usize, &'static str>(0)
                &&& k1.tasks.task(id) == Some(Task { sig_mask: m, ..t })
                &&& only_task(k0, k1, id)
                &&& k1.vfs == k0.vfs
            },
        }
    }
}

/// `setsid()`: the acting task leads a new group named after it.
pub open spec fn setsid_post(k0: Kernel, k1: Kernel, r: Result<usize, &'static str>) -> bool {
    match cur_id(k0) {
        None => r == Err::<usize, &'static str>("esrch") && k1 == k0,
        Some(id) => {
            let t = cur_task_of(k0);
            if t.pgid as usize == id {
                r == Err::<usize, &'static str>("eperm") && k1 == k0
            } else {
                &&& r == Ok::<usize, &'static str>(id)
                &&& k1.tasks.task(id) == Some(Task { pgid: id as i32, ..t })
                &&& only_task(k0, k1, id)
                &&& k1.vfs == k0.vfs
            }
        },
    }
}

/// The task `setpgid(pid, _)` acts on: the acting task (1 without one)
/// for 0.
pub open spec fn setpgid_target(k: Kernel, pid: usize) -> usize {
    if pid == 0 {
        match cur_id(k) {
            Some(id) => id,
            None => 1,
        }
    } else {
        pid
    }
}

/// `setpgid(pid, pgid)`: a task may move itself or a child of its own.
pub open spec fn setpgid_post(k0: Kernel, k1: Kernel, pid: usize, pgid: usize, r: Result<usize, &'static str>) -> bool {
    let caller = match cur_id(k0) {
        Some(id) => id,
        None => 1,
    };
    let target = setpgid_target(k0, pid);
    let group = if pgid == 0 {
        target
    } else {
        pgid
    };
    if target != caller && (match k0.tasks.task(target) {
        None => true,
        Some(t) => t.parent != Some(caller),
    }) {
        r == Err::<usize, &'static str>("esrch") && k1 == k0
    } else {
        &&& r == Ok::<usize, &'static str>(0)
        &&& match k0.tasks.task(target) {
            None => k1 == k0,
            Some(t) => k1.tasks.task(target) == Some(Task { pgid: group as i32, ..t }) && only_task(k0, k1, target)
                && k1.vfs == k0.vfs,
        }
    }
}

impl Kernel {
    /// Sets the signal mask of registered task `id`.
    fn set_task_mask(&mut self, id: usize, mask: u64)
        requires
            old(self).wf(),
            old(self).tasks.task(id) is Some,
        ensures
            final(self).wf(),
            final(self).tasks.task(id) == Some(Task { sig_mask: mask, ..old(self).tasks.task(id).unwrap() }),
            only_task(*old(self), *final(self), id),
            final(self).vfs == old(self).vfs,
    {
        proof {
            crate::process::lemma_lookup_in_table(self.tasks, id);
        }
        let mut t = self.tasks.take(id).unwrap();
        t.sig_mask = mask;
        self.tasks.put(id, t);
        proof {
            lemma_wf_back(*old(self), *self, id);
        }
    }

    /// Sets the process group of registered task `id`.
    fn set_task_group(&mut self, id: usize, pgid: i32)
        requires
            old(self).wf(),
            old(self).tasks.task(id) is Some,
        ensures
            final(self).wf(),
            final(self).tasks.task(id) == Some(Task { pgid: pgid, ..old(self).tasks.task(id).unwrap() }),
            only_task(*old(self), *final(self), id),
            final(self).vfs == old(self).vfs,
    {
        proof {
            crate::process::lemma_lookup_in_table(self.tasks, id);
        }
        let mut t = self.tasks.take(id).unwrap();
        t.pgid = pgid;
        self.tasks.put(id, t);
        proof {
            lemma_wf_back(*old(self), *self, id);
        }
    }

    /// `sigprocmask(how, set, oldset)` for the acting task.
    pub fn sys_sigprocmask(&mut self, how: usize, set_addr: usize, oldset_addr: usize) -> (r: Result<usize, &'static str>)
        requires
            old(self).wf(),
        ensures
            final(self).wf(),
            sigmask_post(*old(self), *final(self), how, set_addr, oldset_addr, r),
    {
        if set_addr != 0 && !check_access(set_addr, 8) {
            return Err("efault");
        }
        if oldset_addr != 0 && !check_access(oldset_addr, 8) {
            return Err("efault");
        }
        let unmaskable_bits: u64 = (1u64 << 9u64) | (1u64 << 19u64);
        let id = match self.current() {
            None => return Ok(0),
            Some(id) => id,
        };
        if set_addr == 0 {
            return Ok(0);
        }
        let t = self.tasks.find(id).unwrap();
        let new_set: u64 = set_addr as u64;
        let mask = if how == 0 {
            (t.sig_mask | new_set) & !unmaskable_bits
        } else if how == 1 {
            t.sig_mask & !new_set
        } else if how == 2 {
            new_set & !unmaskable_bits
        } else {
            return Err("einval");
        };
        self.set_task_mask(id, mask);
        Ok(0)
    }

    /// `setsid()` for the acting task.
    pub fn sys_setsid(&mut self) -> (r: Result<usize, &'static str>)
        requires
            old(self).wf(),
        ensures
            final(self).wf(),
            setsid_post(*old(self), *final(self), r),
    {
        let id = match self.current() {
            None => return Err("esrch"),
            Some(id) => id,
        };
        let t = self.tasks.find(id).unwrap();
        if t.pgid as usize == id {
            return Err("eperm");
        }
        self.set_task_group(id, id as i32);
        Ok(id)
    }

    /// `setpgid(pid, pgid)` for the acting task.
    pub fn sys_setpgid(&mut self, pid: usize, pgid: usize) -> (r: Result<usize, &'static str>)
        requires
            old(self).wf(),
        ensures
            final(self).wf(),
            setpgid_post(*old(self), *final(self), pid, pgid, r),
    {
        let caller_pid = match self.current() {
            Some(id) => id,
            None => 1,
        };
        let target_pid = if pid == 0 {
            caller_pid
        } else {
            pid
        };
        let new_pgid = if pgid == 0 {
            target_pid
        } else {
            pgid
        };
        if target_pid != caller_pid {
            match self.tasks.find(target_pid) {
                Some(t) => {
                    let is_child = match t.parent {
                        Some(p) => p == caller_pid,
                        None => false,
                    };
                    if !is_child {
                        return Err("esrch");
                    }
                },
                None => return Err("esrch"),
            }
        }
        if self.tasks.contains(target_pid) {
            self.set_task_group(target_pid, new_pgid as i32);
        }
        Ok(0)
    }
}

/// Strictly increasing ids.
pub open spec fn increasing(s: Seq<usize>) -> bool {
    forall|a: int, b: int| 0 <= a < b < s.len() ==> s[a] < s[b]
}

/// Ids above init's.
pub open spec fn gt_init() -> spec_fn(usize) -> bool {
    |d: usize| d > 1
}

proof fn lemma_filter_increasing(s: Seq<usize>, f: spec_fn(usize) -> bool)
    requires
        increasing(s),
    ensures
        increasing(s.filter(f)),
        forall|i: int| 0 <= i < s.filter(f).len() ==> s.contains(#[trigger] s.filter(f)[i]),
    decreases s.len(),
{
    reveal(Seq::filter);
    if s.len() > 0 {
        let p = s.drop_last();
        lemma_filter_increasing(p, f);
        assert forall|i: int| 0 <= i < p.filter(f).len() implies p.filter(f)[i] < s.last() by {
            let x = p.filter(f)[i];
            assert(p.contains(x));
            let j = choose|j: int| 0 <= j < p.len() && p[j] == x;
            assert(s[j] == p[j]);
        }
        assert forall|i: int| 0 <= i < s.filter(f).len() implies s.contains(#[trigger] s.filter(f)[i]) by {
            if i < p.filter(f).len() {
                let x = p.filter(f)[i];
                assert(s.filter(f)[i] == x);
                let j = choose|j: int| 0 <= j < p.len() && p[j] == x;
                assert(s[j] == x);
            } else {
                assert(s[s.len() - 1] == s.filter(f)[i]);
            }
        }
    }
}

/// `kill`'s signals that spare init: `SIGKILL` and `SIGSTOP`.
pub open spec fn forced(sig: usize) -> bool {
    sig == SIGKILL || sig == SIGSTOP
}

/// Whether target `d` gets signal `sig`.
pub open spec fn receives(sig: usize, d: usize) -> bool {
    !(forced(sig) && d <= 1)
}

/// The tasks `kill(pid, sig)` aims at: the acting task's group for 0,
/// every running task above init for -1, task `pid` (when running, or
/// for the probe signal 0) for a positive value, and the group `-pid`
/// otherwise.
pub open spec fn kill_targets(k: Kernel, pid: isize, sig: usize) -> Seq<usize> {
    if pid == 0 {
        keys_with(k.tasks.map@, in_group(cur_task_of(k).pgid))
    } else if pid == -1 {
        keys_with(k.tasks.map@, running()).filter(gt_init())
    } else if pid > 0 {
        match k.tasks.task(pid as usize) {
            Some(t) => if t.info.status is None || sig == 0 {
                seq![pid as usize]
            } else {
                Seq::empty()
            },
            None => Seq::empty(),
        }
    } else {
        keys_with(k.tasks.map@, in_group((-pid) as i32))
    }
}

/// `kill(pid, sig)`.
pub open spec fn kill_post(k0: Kernel, k1: Kernel, pid_raw: usize, sig: usize, r: Result<usize, &'static str>) -> bool {
    let pid = pid_raw as isize;
    if sig >= NSIG {
        r == Err::<usize, &'static str>("einval") && k1 == k0
    } else if pid == 0 && cur_id(k0) is None {
        r == Err::<usize, &'static str>("esrch") && k1 == k0
    } else {
        let ts = kill_targets(k0, pid, sig);
        if ts.len() == 0 {
            r == Err::<usize, &'static str>("esrch") && k1 == k0
        } else if sig == 0 {
            r == Ok::<usize, &'static str>(0) && k1 == k0
        } else {
            &&& r == if exists|i: int| 0 <= i < ts.len() && receives(sig, #[trigger] ts[i]) {
                Ok::<usize, &'static str>(0)
            } else {
                Err("esrch")
            }
            &&& forall|d: usize|
                if ts.contains(d) && receives(sig, d) {
                    k0.tasks.task(d) matches Some(x) && #[trigger] k1.tasks.task(d) matches Some(y) && sig_sent(
                        x,
                        y,
                        sig as i32,
                        -1isize,
                    )
                } else {
                    k1.tasks.task(d) == k0.tasks.task(d)
                }
            &&& rest_same(k0, k1)
            &&& k1.tasks.seq == k0.tasks.seq
            &&& k1.tasks.root == k0.tasks.root
            &&& k1.vfs == k0.vfs
        }
    }
}

impl Kernel {
    /// The targets of `kill`, increasing and registered.
    fn kill_target_ids(&self, pid: isize, sig: usize) -> (r: Vec<usize>)
        requires
            self.wf(),
            pid != isize::MIN,
            pid == 0 ==> cur_id(*self) is Some,
        ensures
            r@ == kill_targets(*self, pid, sig),
            increasing(r@),
            forall|i: int| 0 <= i < r@.len() ==> self.tasks.task(#[trigger] r@[i]) is Some,
    {
        let ghost m = self.tasks.map@;
        if pid == 0 {
            let id = self.current().unwrap();
            let pgid = self.tasks.find(id).unwrap().pgid;
            proof {
                crate::process::lemma_keys_with_facts(m, in_group(pgid));
            }
            self.tasks.pgid_group(pgid)
        } else if pid == -1 {
            let active = self.tasks.active_tasks();
            proof {
                crate::process::lemma_keys_with_facts(m, running());
            }
            let mut out: Vec<usize> = Vec::new();
            let mut i: usize = 0;
            while i < active.len()
                invariant
                    i <= active@.len(),
                    active@ == keys_with(m, running()),
                    increasing(active@),
                    out@ == active@.subrange(0, i as int).filter(gt_init()),
                decreases active@.len() - i,
            {
                proof {
                    assert(active@.subrange(0, i + 1).drop_last() =~= active@.subrange(0, i as int));
                    reveal(Seq::filter);
                }
                if active[i] > 1 {
                    out.push(active[i]);
                }
                i = i + 1;
            }
            proof {
                assert(active@.subrange(0, i as int) =~= active@);
                lemma_filter_increasing(active@, gt_init());
                assert forall|i: int| 0 <= i < out@.len() implies self.tasks.task(#[trigger] out@[i]) is Some by {
                    assert(active@.contains(out@[i]));
                    let j = choose|j: int| 0 <= j < active@.len() && active@[j] == out@[i];
                    assert(self.tasks.task(active@[j]) is Some);
                }
            }
            out
        } else if pid > 0 {
            match self.tasks.find(pid as usize) {
                Some(t) => if !t.done() || sig == 0 {
                    vec![pid as usize]
                } else {
                    Vec::new()
                },
                None => Vec::new(),
            }
        } else {
            let group = #[verifier::truncate] ((-pid) as i32);
            proof {
                crate::process::lemma_keys_with_facts(m, in_group(group));
            }
            self.tasks.pgid_group(group)
        }
    }

    /// `kill(pid, sig)`: signal `sig` from no sender to each target.
    pub fn sys_kill(&mut self, pid_raw: usize, sig: usize) -> (r: Result<usize, &'static str>)
        requires
            old(self).wf(),
            pid_raw as isize != isize::MIN,
        ensures
            final(self).wf(),
            kill_post(*old(self), *final(self), pid_raw, sig, r),
    {
        let pid = pid_raw as isize;
        if sig >= NSIG as usize {
            return Err("einval");
        }
        let forced_signal = sig == SIGKILL as usize || sig == SIGSTOP as usize;
        if pid == 0 && self.current().is_none() {
            return Err("esrch");
        }
        let targets = self.kill_target_ids(pid, sig);
        if targets.len() == 0 {
            return Err("esrch");
        }
        if sig == 0 {
            return Ok(0);
        }
        let ghost k0 = *self;
        let ghost ts = targets@;
        let mut sent: usize = 0;
        let mut i: usize = 0;
        while i < targets.len()
            invariant
                i <= ts.len(),
                targets@ == ts,
                ts == kill_targets(k0, pid, sig),
                increasing(ts),
                forall|j: int| 0 <= j < ts.len() ==> k0.tasks.task(#[trigger] ts[j]) is Some,
                k0.wf(),
                self.wf(),
                0 < sig < NSIG,
                forced_signal == forced(sig),
                sent <= i,
                (sent == 0) == !exists|j: int| 0 <= j < i && receives(sig, #[trigger] ts[j]),
                rest_same(k0, *self),
                self.tasks.seq == k0.tasks.seq,
                self.tasks.root == k0.tasks.root,
                self.vfs == k0.vfs,
                forall|d: usize|
                    if ts.subrange(0, i as int).contains(d) && receives(sig, d) {
                        k0.tasks.task(d) matches Some(x) && #[trigger] self.tasks.task(d) matches Some(y) && sig_sent(
                            x,
                            y,
                            sig as i32,
                            -1isize,
                        )
                    } else {
                        self.tasks.task(d) == k0.tasks.task(d)
                    },
            decreases ts.len() - i,
        {
            let d = targets[i];
            proof {
                assert(!ts.subrange(0, i as int).contains(d)) by {
                    if ts.subrange(0, i as int).contains(d) {
                        let j = choose|j: int| 0 <= j < i && ts.subrange(0, i as int)[j] == d;
                        assert(ts[j] == d);
                    }
                }
                assert(ts.subrange(0, i + 1) =~= ts.subrange(0, i as int).push(d));
            }
            let ghost pre = ts.subrange(0, i as int);
            let ghost post = ts.subrange(0, i + 1);
            let ghost mid = *self;
            proof {
                assert forall|e: usize| e != d implies post.contains(e) == pre.contains(e) by {
                    if post.contains(e) {
                        let j = choose|j: int| 0 <= j < post.len() && post[j] == e;
                        assert(pre[j] == e);
                    }
                    if pre.contains(e) {
                        let j = choose|j: int| 0 <= j < pre.len() && pre[j] == e;
                        assert(post[j] == e);
                    }
                }
                assert(post[i as int] == d);
                assert(post.contains(d));
            }
            if forced_signal && d <= 1 {
                proof {
                    assert(!receives(sig, d));
                }
            } else {
                let ghost before = *self;
                proof {
                    crate::process::lemma_lookup_in_table(self.tasks, d);
                    assert(self.tasks.task(d) == k0.tasks.task(d));
                }
                let mut t = self.tasks.take(d).unwrap();
                t.send_sig(sig as i32, -1);
                self.tasks.put(d, t);
                proof {
                    lemma_wf_back(before, *self, d);
                }
                sent = sent + 1;
            }
            proof {
                assert forall|e: usize|
                    if post.contains(e) && receives(sig, e) {
                        k0.tasks.task(e) matches Some(x) && #[trigger] self.tasks.task(e) matches Some(y) && sig_sent(
                            x,
                            y,
                            sig as i32,
                            -1isize,
                        )
                    } else {
                        self.tasks.task(e) == k0.tasks.task(e)
                    } by {
                    if e != d {
                        assert(self.tasks.task(e) == mid.tasks.task(e));
                    }
                }
            }
            i = i + 1;
        }
        proof {
            assert(ts.subrange(0, i as int) =~= ts);
        }
        if sent == 0 {
            return Err("esrch");
        }
        Ok(0)
    }
}

/// `u` is task `t` after it exited with `status`.
pub open spec fn exited(t: Task, u: Task, status: usize) -> bool {
    &&& u.files@.len() == 0
    &&& (u.ev.events, u.ev.callbacks@) == change_spec(t.ev, 0, EventFlag::PROC_QUIT)
    &&& u.exit_code == status
    &&& u.threads@.len() == 0
    &&& u.info.status == Some((status & 0xFF) as i32)
    &&& u.info.id == t.info.id
    &&& u.parent == t.parent
    &&& u.subtasks@ == t.subtasks@
    &&& u.pgid == t.pgid
    &&& u.ep_inst@ == t.ep_inst@
}

/// Table `m` is `o` after task `id` exited with `status` and its parent
/// (another registered task) got `SIGCHLD` from it.
pub open spec fn exit_step(o: TaskTable, m: TaskTable, id: usize, status: usize) -> bool {
    let t = o.task(id).unwrap();
    &&& m.seq == o.seq
    &&& m.root == o.root
    &&& m.task(id) matches Some(u) && exited(t, u, status)
    &&& forall|d: usize|
        d != id ==> if t.parent == Some(d) && o.task(d) is Some {
            #[trigger] m.task(d) matches Some(y) && sig_sent(
                o.task(d).unwrap(),
                y,
                crate::consts::SIGCHLD as i32,
                id as isize,
            )
        } else {
            m.task(d) == o.task(d)
        }
}

/// Table `f` is `m` after init (task 1, when registered) adopted `kids`.
pub open spec fn kids_adopted(m: TaskTable, f: TaskTable, kids: Seq<usize>) -> bool {
    &&& f.seq == m.seq
    &&& f.root == m.root
    &&& if m.task(1) is Some {
        forall|d: usize|
            {
                &&& (m.task(d) is None ==> #[trigger] f.task(d) is None)
                &&& (m.task(d) matches Some(x) ==> f.task(d) matches Some(y) && adopted_by(x, y, d, kids, 1))
            }
    } else {
        f.map@ == m.map@
    }
}

/// `exit(status)`: the acting task exits, its parent hears of it and init
/// adopts its children.
pub open spec fn exit_post(k0: Kernel, k1: Kernel, status: usize, r: Result<usize, &'static str>) -> bool {
    &&& r == Ok::<usize, &'static str>(0)
    &&& match cur_id(k0) {
        None => k1 == k0,
        Some(id) => {
            let t = cur_task_of(k0);
            &&& rest_same(k0, k1)
            &&& only_pipes_changed(&k0.vfs, &k1.vfs)
            &&& pipe_views(&k1.vfs) == after_drops(pipe_views(&k0.vfs), t.files@)
            &&& exists|m: TaskTable| exit_step(k0.tasks, m, id, status) && kids_adopted(m, k1.tasks, t.subtasks@)
        },
    }
}

/// Frames a move of the break from `old_brk` to `aligned` needs.
pub open spec fn brk_need(old_brk: usize, aligned: usize) -> nat {
    if aligned > old_brk {
        ((aligned - old_brk) / PAGE_SZ as int) as nat
    } else {
        0
    }
}

/// `brk(new_brk)`: the acting task's break moves to the page-rounded
/// value, taking a frame for each page it grows by.
pub open spec fn brk_post(k0: Kernel, k1: Kernel, new_brk: usize, r: Result<usize, &'static str>) -> bool {
    if new_brk == 0 {
        r == Ok::<usize, &'static str>(BRK_START) && k1 == k0
    } else if new_brk >= KERN_BASE || page_round(new_brk) is None {
        r == Err::<usize, &'static str>("enomem") && k1 == k0
    } else {
        let aligned = page_round(new_brk).unwrap();
        match cur_id(k0) {
            None => r == Ok::<usize, &'static str>(aligned) && k1 == k0,
            Some(id) => {
                let t = cur_task_of(k0);
                let need = brk_need(t.vm_token, aligned);
                if count_true(k0.pool.slots@) < need {
                    r == Err::<usize, &'static str>("enomem") && k1 == k0
                } else {
                    &&& r == Ok::<usize, &'static str>(aligned)
                    &&& k1.tasks.task(id) == Some(Task { vm_token: aligned, ..t })
                    &&& forall|d: usize| d != id ==> #[trigger] k1.tasks.task(d) == k0.tasks.task(d)
                    &&& k1.tasks.seq == k0.tasks.seq
                    &&& k1.tasks.root == k0.tasks.root
                    &&& k1.vfs == k0.vfs
                    &&& k1.pool.capacity == k0.pool.capacity
                    &&& k1.pool.slots@.len() == k0.pool.slots@.len()
                    &&& count_true(k1.pool.slots@) == count_true(k0.pool.slots@) - need
                    &&& rest_same(k0, Kernel { pool: k0.pool, ..k1 })
                }
            },
        }
    }
}

proof fn lemma_count_update_false(s: Seq<bool>, j: int)
    requires
        0 <= j < s.len(),
        s[j],
    ensures
        count_true(s.update(j, false)) + 1 == count_true(s),
    decreases s.len(),
{
    if j == s.len() - 1 {
        assert(s.update(j, false).drop_last() =~= s.drop_last());
    } else {
        assert(s.update(j, false).drop_last() =~= s.drop_last().update(j, false));
        lemma_count_update_false(s.drop_last(), j);
    }
}

proof fn lemma_count_has_free(s: Seq<bool>)
    requires
        count_true(s) > 0,
    ensures
        exists|j: int| 0 <= j < s.len() && s[j],
    decreases s.len(),
{
    if !s.last() {
        lemma_count_has_free(s.drop_last());
        let j = choose|j: int| 0 <= j < s.drop_last().len() && s.drop_last()[j];
        assert(s[j]);
    } else {
        assert(s[s.len() - 1]);
    }
}

impl Kernel {
    /// `exit(status)` for the acting task.
    pub fn sys_exit(&mut self, status: usize) -> (r: Result<usize, &'static str>)
        requires
            old(self).wf(),
        ensures
            final(self).wf(),
            exit_post(*old(self), *final(self), status, r),
    {
        let id = match self.current() {
            None => return Ok(0),
            Some(id) => id,
        };
        proof {
            crate::process::lemma_lookup_in_table(self.tasks, id);
        }
        let ghost k0 = *self;
        let mut t = self.tasks.take(id).unwrap();
        let parent = t.exit_proc(&mut self.vfs, status);
        let kids = copy_kids(&t.subtasks);
        self.tasks.put(id, t);
        let ghost k1 = *self;
        proof {
            assert(k1.tasks.wf());
            lemma_wf_back(k0, k1, id);
        }
        match parent {
            Some(p) => {
                if p != id && self.tasks.contains(p) {
                    proof {
                        crate::process::lemma_lookup_in_table(self.tasks, p);
                    }
                    let mut pt = self.tasks.take(p).unwrap();
                    pt.send_sig(crate::consts::SIGCHLD as i32, id as isize);
                    self.tasks.put(p, pt);
                    proof {
                        lemma_wf_back(k1, *self, p);
                    }
                }
            },
            None => {},
        }
        let ghost m = self.tasks;
        proof {
            assert(exit_step(k0.tasks, m, id, status));
        }
        let ghost k2 = *self;
        if self.tasks.contains(1) {
            self.tasks.adopt_all(&kids, 1);
            proof {
                assert forall|d: usize| #[trigger] self.tasks.task(d) is Some implies files_valid(self.tasks.task(d).unwrap().files@, &self.vfs) by {
                    assert(k2.tasks.task(d) is Some);
                }
            }
        }
        proof {
            assert(kids_adopted(m, self.tasks, kids@));
        }
        Ok(0)
    }

    /// `brk(new_brk)` for the acting task.
    pub fn sys_brk(&mut self, new_brk: usize) -> (r: Result<usize, &'static str>)
        requires
            old(self).wf(),
        ensures
            final(self).wf(),
            brk_post(*old(self), *final(self), new_brk, r),
    {
        if new_brk == 0 {
            return Ok(BRK_START);
        }
        if new_brk >= KERN_BASE {
            return Err("enomem");
        }
        let aligned = match round_to_page(new_brk) {
            Some(v) => v,
            None => return Err("enomem"),
        };
        let id = match self.current() {
            None => return Ok(aligned),
            Some(id) => id,
        };
        let old_brk = self.tasks.find(id).unwrap().vm_token;
        if aligned < old_brk {
            let pages_freed = (old_brk - aligned) >> 12;
            let mut p: usize = 0;
            while p < pages_freed
                invariant
                    p <= pages_freed,
                decreases pages_freed - p,
            {
                p = p + 1;
            }
        } else if aligned > old_brk {
            let pages_needed = (aligned - old_brk) / PAGE_SZ;
            let free = self.pool.free_count();
            if free < pages_needed {
                return Err("enomem");
            }
            let now = self.clk.wall;
            let mut p: usize = 0;
            while p < pages_needed
                invariant
                    p <= pages_needed,
                    pages_needed <= count_true(old(self).pool.slots@),
                    count_true(self.pool.slots@) == count_true(old(self).pool.slots@) - p,
                    self.pool.slots@.len() == old(self).pool.slots@.len(),
                    self.pool.capacity == old(self).pool.capacity,
                    self.wf(),
                    self.tasks == old(self).tasks,
                    self.vfs == old(self).vfs,
                    rest_same(*old(self), Kernel { pool: old(self).pool, ..*self }),
                decreases pages_needed - p,
            {
                let ghost s0 = self.pool.slots@;
                proof {
                    lemma_count_has_free(s0);
                }
                let _frame = crate::frames::frame_alloc(&mut self.pool, now);
                proof {
                    let n = s0.len() as int;
                    let off = choose|off: int|
                        #[trigger] crate::frames::first_ring_free(s0, (now as int) % n, off) && self.pool.slots@ == s0.update(
                            crate::frames::ring_slot((now as int) % n, off, n),
                            false,
                        ) && _frame == crate::frames::frame_addr(crate::frames::ring_slot((now as int) % n, off, n));
                    let j = crate::frames::ring_slot((now as int) % n, off, n);
                    assert(0 <= j < n);
                    lemma_count_update_false(s0, j);
                }
                p = p + 1;
            }
        }
        proof {
            crate::process::lemma_lookup_in_table(self.tasks, id);
        }
        let ghost k1 = *self;
        let mut t = self.tasks.take(id).unwrap();
        t.vm_token = aligned;
        self.tasks.put(id, t);
        proof {
            lemma_wf_back(k1, *self, id);
        }
        Ok(aligned)
    }
}

/// A copy of a list of ids.
fn copy_kids(s: &Vec<usize>) -> (r: Vec<usize>)
    ensures
        r@ == s@,
{
    let mut out: Vec<usize> = Vec::new();
    let mut i: usize = 0;
    while i < s.len()
        invariant
            i <= s@.len(),
            out@ == s@.subrange(0, i as int),
        decreases s@.len() - i,
    {
        out.push(s[i]);
        i = i + 1;
        proof {
            assert(out@ =~= s@.subrange(0, i as int));
        }
    }
    out
}

/// Whether task `d` has exited (unregistered ids have not).
pub open spec fn is_done(k: Kernel, d: usize) -> bool {
    k.tasks.task(d) matches Some(t) && t.info.status is Some
}

/// The last exited task of `g`.
pub open spec fn last_done(k: Kernel, g: Seq<usize>) -> Option<usize>
    decreases g.len(),
{
    if g.len() == 0 {
        None
    } else if is_done(k, g.last()) {
        Some(g.last())
    } else {
        last_done(k, g.drop_last())
    }
}

/// The first exited task of `g`.
pub open spec fn first_done(k: Kernel, g: Seq<usize>) -> Option<usize>
    decreases g.len(),
{
    if g.len() == 0 {
        None
    } else if first_done(k, g.drop_last()) is Some {
        first_done(k, g.drop_last())
    } else if is_done(k, g.last()) {
        Some(g.last())
    } else {
        None
    }
}

/// The result of `wait4(pid, status, options, rusage)`: an exited task
/// the selector names, without reaping it; 0 with no hang (bit 0) when
/// none has exited.
pub open spec fn wait4_result(k: Kernel, pid_raw: usize, status_addr: usize, options: usize, rusage_addr: usize) -> Result<
    usize,
    &'static str,
> {
    let pid = pid_raw as isize;
    let none: Result<usize, &'static str> = if options & 1 != 0 {
        Ok(0)
    } else {
        Err("echild")
    };
    if status_addr != 0 && !user_range(status_addr, 4) {
        Err("efault")
    } else if rusage_addr != 0 && !user_range(rusage_addr, 144) {
        Err("efault")
    } else if pid == -1 {
        let z = keys_with(k.tasks.map@, finished());
        if z.len() == 0 {
            none
        } else {
            Ok(z[0])
        }
    } else if pid == 0 {
        match cur_id(k) {
            None => Err("echild"),
            Some(_) => match last_done(k, keys_with(k.tasks.map@, in_group(cur_task_of(k).pgid))) {
                Some(d) => Ok(d),
                None => none,
            },
        }
    } else if pid > 0 {
        match k.tasks.task(pid as usize) {
            Some(t) => if t.info.status is Some {
                Ok(pid as usize)
            } else {
                none
            },
            None => Err("echild"),
        }
    } else {
        let g = keys_with(k.tasks.map@, in_group((-pid) as i32));
        if g.len() == 0 {
            Err("echild")
        } else {
            match first_done(k, g) {
                Some(d) => Ok(d),
                None => none,
            }
        }
    }
}

impl Kernel {
    /// Whether registered-or-not task `d` has exited.
    fn done_id(&self, d: usize) -> (r: bool)
        requires
            self.wf(),
        ensures
            r == is_done(*self, d),
    {
        match self.tasks.find(d) {
            Some(t) => t.done(),
            None => false,
        }
    }

    /// `wait4(pid, status, options, rusage)`.
    pub fn sys_wait4(&self, pid_raw: usize, status_addr: usize, options: usize, rusage_addr: usize) -> (r: Result<
        usize,
        &'static str,
    >)
        requires
            self.wf(),
            pid_raw as isize != isize::MIN,
        ensures
            r == wait4_result(*self, pid_raw, status_addr, options, rusage_addr),
    {
        let pid = pid_raw as isize;
        if status_addr != 0 && !check_access(status_addr, 4) {
            return Err("efault");
        }
        if rusage_addr != 0 && !check_access(rusage_addr, 144) {
            return Err("efault");
        }
        let wnohang = (options & 1) != 0;
        if pid == -1 {
            let zombies = self.tasks.zombie_tasks();
            if zombies.len() == 0 {
                if wnohang {
                    return Ok(0);
                }
                return Err("echild");
            }
            Ok(zombies[0])
        } else if pid == 0 {
            let id = match self.current() {
                None => return Err("echild"),
                Some(id) => id,
            };
            let my_pgid = self.tasks.find(id).unwrap().pgid;
            let group = self.tasks.pgid_group(my_pgid);
            let mut found: Option<usize> = None;
            let mut i: usize = 0;
            while i < group.len()
                invariant
                    i <= group@.len(),
                    self.wf(),
                    found == last_done(*self, group@.subrange(0, i as int)),
                decreases group@.len() - i,
            {
                proof {
                    assert(group@.subrange(0, i + 1).drop_last() =~= group@.subrange(0, i as int));
                }
                if self.done_id(group[i]) {
                    found = Some(group[i]);
                }
                i = i + 1;
            }
            proof {
                assert(group@.subrange(0, i as int) =~= group@);
            }
            match found {
                Some(d) => Ok(d),
                None => if wnohang {
                    Ok(0)
                } else {
                    Err("echild")
                },
            }
        } else if pid > 0 {
            let target = pid as usize;
            match self.tasks.find(target) {
                Some(t) => {
                    if t.done() {
                        Ok(target)
                    } else if wnohang {
                        Ok(0)
                    } else {
                        Err("echild")
                    }
                },
                None => Err("echild"),
            }
        } else {
            let pgid = #[verifier::truncate] ((-pid) as i32);
            let group = self.tasks.pgid_group(pgid);
            if group.len() == 0 {
                return Err("echild");
            }
            let mut found: Option<usize> = None;
            let mut i: usize = 0;
            while i < group.len()
                invariant
                    i <= group@.len(),
                    self.wf(),
                    found == first_done(*self, group@.subrange(0, i as int)),
                decreases group@.len() - i,
            {
                proof {
                    assert(group@.subrange(0, i + 1).drop_last() =~= group@.subrange(0, i as int));
                }
                if found.is_none() && self.done_id(group[i]) {
                    found = Some(group[i]);
                }
                i = i + 1;
            }
            proof {
                assert(group@.subrange(0, i as int) =~= group@);
            }
            match found {
                Some(d) => Ok(d),
                None => if wnohang {
                    Ok(0)
                } else {
                    Err("echild")
                },
            }
        }
    }
}

/// What a call needs beyond a well-formed kernel: room in descriptor
/// tables and pipe counters, a fresh task id for `fork`, a read that keeps
/// the file offset in 64 bits, a process id whose negation is defined, and
/// an `fcntl` duplicate that stays in range.
pub open spec fn syscall_ok(k: Kernel, nr: usize, a0: usize, a1: usize, a2: usize) -> bool {
    &&& k.wf()
    &&& k.cache.width > 0
    &&& nr == SYS_READ ==> read_fits(k, a0, a1, a2)
    &&& (nr == SYS_OPEN || nr == SYS_DUP) ==> fd_room(k)
    &&& (nr == SYS_DUP || nr == SYS_DUP2 || nr == SYS_FORK) ==> (cur_id(k) is Some ==> pipe_room(
        cur_task_of(k).files@,
        &k.vfs,
    ))
    &&& nr == SYS_FORK ==> k.tasks.seq < usize::MAX
    &&& (nr == SYS_WAIT4 || nr == SYS_KILL) ==> a0 as isize != isize::MIN
    &&& nr == SYS_FCNTL ==> (a1 == F_DUPFD ==> a2 <= usize::MAX - 3) && (a1 == F_DUPFD_CLOEXEC ==> a2 < usize::MAX)
}

/// The numbers `dispatch_syscall` knows.
pub open spec fn known_syscall(nr: usize) -> bool {
    nr == SYS_READ || nr == SYS_WRITE || nr == SYS_OPEN || nr == SYS_CLOSE || nr == SYS_STAT || nr == SYS_FSTAT
        || nr == SYS_MMAP || nr == SYS_MUNMAP || nr == SYS_BRK || nr == SYS_IOCTL || nr == SYS_PIPE || nr == SYS_DUP
        || nr == SYS_DUP2 || nr == SYS_FORK || nr == SYS_EXEC || nr == SYS_EXIT || nr == SYS_WAIT4 || nr == SYS_KILL
        || nr == SYS_FCNTL || nr == SYS_GETPID || nr == SYS_GETPPID || nr == SYS_SETPGID || nr == SYS_GETPGID
        || nr == SYS_SETSID || nr == SYS_EPOLL_CREATE || nr == SYS_EPOLL_CTL || nr == SYS_EPOLL_WAIT
        || nr == SYS_CLOCK_GETTIME || nr == SYS_SIGACTION || nr == SYS_SIGPROCMASK || nr == SYS_FUTEX
}

/// What system call `nr` with arguments `a0`..`a5` does to kernel `k0`,
/// giving `k1` and `r`, as the per-call statements above say.
pub open spec fn syscall_post(
    k0: Kernel,
    k1: Kernel,
    nr: usize,
    a0: usize,
    a1: usize,
    a2: usize,
    a3: usize,
    a4: usize,
    a5: usize,
    r: Result<usize, &'static str>,
) -> bool {
    if nr == SYS_READ {
        read_post(k0, k1, a0, a1, a2, r)
    } else if nr == SYS_WRITE {
        write_post(k0, k1, a0, a1, a2, r)
    } else if nr == SYS_OPEN {
        open_post(k0, k1, a0, a1, r)
    } else if nr == SYS_CLOSE {
        close_post(k0, k1, a0, r)
    } else if nr == SYS_PIPE {
        pipe_post(k0, k1, a0, r)
    } else if nr == SYS_DUP {
        dup_post(k0, k1, a0, r)
    } else if nr == SYS_DUP2 {
        dup2_post(k0, k1, a0, a1, r)
    } else if nr == SYS_FORK {
        fork_post(k0, k1, r)
    } else if nr == SYS_EXIT {
        exit_post(k0, k1, a0, r)
    } else if nr == SYS_KILL {
        kill_post(k0, k1, a0, a1, r)
    } else if nr == SYS_BRK {
        brk_post(k0, k1, a0, r)
    } else if nr == SYS_SETPGID {
        setpgid_post(k0, k1, a0, a1, r)
    } else if nr == SYS_SETSID {
        setsid_post(k0, k1, r)
    } else if nr == SYS_SIGPROCMASK {
        sigmask_post(k0, k1, a0, a1, a2, r)
    } else {
        &&& k1 == k0
        &&& r == if nr == SYS_STAT || nr == SYS_FSTAT {
            stat_result(a1)
        } else if nr == SYS_MMAP {
            mmap_result(a0, a1, a3, a4, a5, k0.clk.wall, count_true(k0.pool.slots@))
        } else if nr == SYS_MUNMAP {
            munmap_result(a0, a1)
        } else if nr == SYS_IOCTL {
            ioctl_result(k0, a0, a1)
        } else if nr == SYS_EXEC {
            exec_result(a0, a1, a2, cur_id(k0) is Some)
        } else if nr == SYS_WAIT4 {
            wait4_result(k0, a0, a1, a2, a3)
        } else if nr == SYS_FCNTL {
            fcntl_result(k0, a0, a1, a2, k0.clk.wall)
        } else if nr == SYS_GETPID {
            getpid_result(k0)
        } else if nr == SYS_GETPPID {
            getppid_result(k0)
        } else if nr == SYS_GETPGID {
            getpgid_result(k0, a0)
        } else if nr == SYS_EPOLL_CREATE {
            epoll_create_result(a0)
        } else if nr == SYS_EPOLL_CTL {
            epoll_ctl_result(a1 as i32, a3)
        } else if nr == SYS_EPOLL_WAIT {
            epoll_wait_result(a1, a2)
        } else if nr == SYS_CLOCK_GETTIME {
            clock_result(a0, a1)
        } else if nr == SYS_SIGACTION {
            sigaction_result(a0, a1, a2)
        } else if nr == SYS_FUTEX {
            futex_result(a0, a1, a2, a3, a4, a5, k0.tasks.map@.len())
        } else {
            Err("enosys")
        }
    }
}

impl Kernel {
    /// Runs system call `nr` with arguments `a0`..`a5` for the task on
    /// CPU 0 (see `syscall_post`); unknown numbers are "enosys".
    pub fn dispatch_syscall(
        &mut self,
        nr: usize,
        a0: usize,
        a1: usize,
        a2: usize,
        a3: usize,
        a4: usize,
        a5: usize,
    ) -> (r: Result<usize, &'static str>)
        requires
            syscall_ok(*old(self), nr, a0, a1, a2),
        ensures
            final(self).wf(),
            syscall_post(*old(self), *final(self), nr, a0, a1, a2, a3, a4, a5, r),
    {
        if nr == SYS_READ {
            self.sys_read(a0, a1, a2)
        } else if nr == SYS_WRITE {
            self.sys_write(a0, a1, a2)
        } else if nr == SYS_OPEN {
            self.sys_open(a0, a1, a2)
        } else if nr == SYS_CLOSE {
            self.sys_close(a0)
        } else if nr == SYS_PIPE {
            self.sys_pipe(a0, a1)
        } else if nr == SYS_DUP {
            self.sys_dup(a0)
        } else if nr == SYS_DUP2 {
            self.sys_dup2(a0, a1)
        } else if nr == SYS_FORK {
            self.sys_fork()
        } else if nr == SYS_EXIT {
            self.sys_exit(a0)
        } else if nr == SYS_KILL {
            self.sys_kill(a0, a1)
        } else if nr == SYS_BRK {
            self.sys_brk(a0)
        } else if nr == SYS_SETPGID {
            self.sys_setpgid(a0, a1)
        } else if nr == SYS_SETSID {
            self.sys_setsid()
        } else if nr == SYS_SIGPROCMASK {
            self.sys_sigprocmask(a0, a1, a2)
        } else if nr == SYS_STAT || nr == SYS_FSTAT {
            self.sys_stat(a1)
        } else if nr == SYS_MMAP {
            self.sys_mmap(a0, a1, a2, a3, a4, a5)
        } else if nr == SYS_MUNMAP {
            self.sys_munmap(a0, a1)
        } else if nr == SYS_IOCTL {
            self.sys_ioctl(a0, a1, a2)
        } else if nr == SYS_EXEC {
            self.sys_exec(a0, a1, a2)
        } else if nr == SYS_WAIT4 {
            self.sys_wait4(a0, a1, a2, a3)
        } else if nr == SYS_FCNTL {
            self.sys_fcntl(a0, a1, a2)
        } else if nr == SYS_GETPID {
            self.sys_getpid()
        } else if nr == SYS_GETPPID {
            self.sys_getppid()
        } else if nr == SYS_GETPGID {
            self.sys_getpgid(a0)
        } else if nr == SYS_EPOLL_CREATE {
            self.sys_epoll_create(a0)
        } else if nr == SYS_EPOLL_CTL {
            let op = #[verifier::truncate] (a1 as i32);
            self.sys_epoll_ctl(op, a3)
        } else if nr == SYS_EPOLL_WAIT {
            let timeout = #[verifier::truncate] (a3 as i32);
            self.sys_epoll_wait(a1, a2, timeout)
        } else if nr == SYS_CLOCK_GETTIME {
            self.sys_clock_gettime(a0, a1)
        } else if nr == SYS_SIGACTION {
            self.sys_sigaction(a0, a1, a2)
        } else if nr == SYS_FUTEX {
            self.sys_futex(a0, a1, a2, a3, a4, a5)
        } else {
            Err("enosys")
        }
    }
}
} // verus!
