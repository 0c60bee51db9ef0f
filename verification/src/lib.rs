//! A single-threaded, verified model of a small teaching kernel: memory
//! regions and frame allocators, capability and signal sets, locks, ring
//! buffers, caches, mount tables, file handles and pipes, scheduling
//! queues, ELF segment loading, user memory requests and the byte-level
//! helpers they rely on.

pub mod consts;
pub mod util;

pub mod memory;
pub mod vm;
pub mod caps;
pub mod sync;
pub mod timer;
pub mod circbuf;
pub mod frames;
pub mod slab;
pub mod buddy;
pub mod net;
pub mod sched;
pub mod trap;
pub mod task;
pub mod disk;
pub mod cache;
pub mod mount;
pub mod epoll;
pub mod file;
pub mod pipe;
pub mod file_like;
pub mod pseudo;
pub mod ipc;
pub mod elf;
pub mod usermem;
pub mod inode_pipe;
pub mod handler;
pub mod condvar;
pub mod futex;
pub mod syncq;
pub mod channel;
pub mod waitq;
pub mod process;
pub mod kernel;
pub mod syscall;
pub mod initstack;
