//! System-call numbers.
use vstd::prelude::*;

verus! {

pub const SYS_FORK: usize = 0;

pub const SYS_EXIT: usize = 1;

pub const SYS_WAITPID: usize = 2;

pub const SYS_GETPID: usize = 3;

pub const SYS_GETPPID: usize = 4;

/// Create thread (CLONE_VM | CLONE_FILES | CLONE_SIGHAND).
pub const SYS_CLONE: usize = 5;

pub const SYS_GETTID: usize = 6;

/// Join() semantics.
pub const SYS_JOIN: usize = 7;

pub const SYS_YIELD: usize = 8;

pub const SYS_MUTEX_LOCK: usize = 9;

/// Non-blocking trylock().
pub const SYS_MUTEX_TRYLOCK: usize = 10;

pub const SYS_MUTEX_UNLOCK: usize = 11;

pub const SYS_CONDVAR_WAIT: usize = 12;

pub const SYS_CONDVAR_SIGNAL: usize = 13;

pub const SYS_CONDVAR_BROADCAST: usize = 14;

/// Generic trylock exposed for IPC handles.
pub const SYS_TRYLOCK: usize = 15;

/// Stable resource handle lookup.
pub const SYS_GETRESOURCE: usize = 16;

/// Grow/shrink heap (demand-paged).
pub const SYS_BRK: usize = 17;

/// Change VmArea flags.
pub const SYS_MPROTECT: usize = 18;

pub const SYS_READ: usize = 19;

pub const SYS_WRITE: usize = 20;

pub const SYS_IOCTL: usize = 21;

/// Open a character or block device by name.
pub const SYS_OPEN_DEV: usize = 22;

pub const SYS_CLOSE_DEV: usize = 23;

pub const SYS_OPEN: usize = 24;

pub const SYS_CLOSE: usize = 25;

pub const SYS_SEEK: usize = 26;

pub const SYS_CREATE: usize = 27;

pub const SYS_DELETE: usize = 28;

pub const SYS_TRUNCATE: usize = 29;

pub const SYS_RENAME: usize = 30;

pub const SYS_MKDIR: usize = 31;

/// Recursive delete.
pub const SYS_RMDIR: usize = 32;

/// Read directory entries.
pub const SYS_GETDENTS: usize = 33;

/// File metadata.
pub const SYS_STAT: usize = 34;

/// Rwx permission bits.
pub const SYS_CHMOD: usize = 35;

/// Uid/gid ownership.
pub const SYS_CHOWN: usize = 36;

/// Mandatory exclusive lock.
pub const SYS_FLOCK: usize = 37;

pub const SYS_FUNLOCK: usize = 38;

/// Make file immutably shared.
pub const SYS_MARK_SHARED: usize = 39;

/// Fixed-size indirect message passing.
pub const SYS_MSG_SEND: usize = 40;

pub const SYS_MSG_RECV: usize = 41;

/// Shared memory, POSIX-like.
pub const SYS_SHM_OPEN: usize = 42;

pub const SYS_SHM_CLOSE: usize = 43;

/// Unidirectional pipe.
pub const SYS_PIPE_CREATE: usize = 44;

pub const SYS_PIPE_READ: usize = 45;

pub const SYS_PIPE_WRITE: usize = 46;

pub const SYS_PIPE_CLOSE: usize = 47;

/// Authenticate against auth.db.
pub const SYS_LOGIN: usize = 48;

pub const SYS_LOGOUT: usize = 49;

/// Access(i,j) on the Access Matrix.
pub const SYS_ACCESS: usize = 50;

/// Copy/owner/control operations.
pub const SYS_GRANT: usize = 51;

pub const SYS_REVOKE: usize = 52;

/// Send signal to task (deferred cancellation).
pub const SYS_KILL: usize = 53;

/// Return from signal handler.
pub const SYS_SIGRETURN: usize = 54;

/// Register signal handler.
pub const SYS_SIGNAL: usize = 55;

pub const SYSCALL_COUNT: usize = 56;

} // verus!
