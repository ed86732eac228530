//! The system-call layer's decisions: error numbers, argument checks, the encodings handed
//! back to user space, and the calls on kernel objects reached by handle. Reading and writing
//! user memory, and the calls that switch address spaces, are the entry stub's part.
use vstd::prelude::*;
use vstd::string::*;
use crate::fs::overlay::matches_password;
use crate::fs::stat::{stat_bytes, Stat, STAT_SIZE};
use crate::fs::vfs::{
    chmod_outcome, close_outcome, create_outcome, delete_outcome, getdents_outcome, mark_shared_outcome, mkdir_outcome,
    open_outcome, read_outcome, rename_outcome, rmdir_outcome, seek_outcome, stat_outcome, write_outcome, FsError,
    LogicalFs,
};
use crate::process::pid::Pid;
use crate::memory::vmm::{areas_steppable, Vmm};
use crate::ipc::channel::IpcError;
use crate::ipc::pipe::Pipe;
use crate::ipc::shm::{registered_size, SharedMem, ShmRegistry};
use crate::ipc::table::{cond_waiting, object_recv_post, object_send_post, Cond, IpcObject, IpcTable};
use crate::process::pid::Tid;
use crate::process::table::{with_state, BTreeTaskRegistry};
use crate::process::task::{Task, TaskState};
use crate::scheduler::{woken, woken_all, woken_queues};
use crate::scheduler::mlfq::{MlfqScheduler, NUM_QUEUES};
use crate::sync::handle_table::handle_index;
use crate::sync::resource::QueuedResource;
use crate::sync::resource_table::ResourceTable;
use crate::syscall::numbers::{SYS_OPEN, SYS_CLOSE, SYS_READ, SYS_WRITE, SYS_SEEK, SYS_CREATE, SYS_DELETE, SYS_RENAME, SYS_MKDIR, SYS_RMDIR, SYS_CHMOD, SYS_MARK_SHARED, SYS_GETDENTS, SYS_STAT, SYS_LOGIN};
use crate::syscall::numbers::{SYS_PIPE_CREATE, SYS_PIPE_CLOSE, SYS_PIPE_READ, SYS_PIPE_WRITE, SYS_MSG_SEND, SYS_MSG_RECV, SYS_SHM_CLOSE};
use crate::syscall::numbers::{SYS_GETRESOURCE, SYS_MUTEX_LOCK, SYS_MUTEX_TRYLOCK, SYS_TRYLOCK, SYS_MUTEX_UNLOCK, SYS_CONDVAR_WAIT, SYS_CONDVAR_SIGNAL, SYS_CONDVAR_BROADCAST};

verus! {

pub const ENOSYS: isize = -38;

pub const EBADF: isize = -9;

pub const EFAULT: isize = -14;

pub const EAGAIN: isize = -11;

/// The `SYS_CLONE` flag asking for a thread that shares the caller's memory, the only kind of
/// clone the kernel makes.
pub const CLONE_VM: u64 = 0x100;

/// What `SYS_CLONE` answers before any thread is made: `ENOSYS` when the flags lack
/// `CLONE_VM`, `EBADF` when the caller's task is not found; `None` when the thread is made.
pub fn clone_refusal(flags: u64, caller_found: bool) -> (r: Option<isize>)
    ensures
        r == (if flags & CLONE_VM == 0 {
            Some(ENOSYS)
        } else if !caller_found {
            Some(EBADF)
        } else {
            None
        }),
{
    if flags & CLONE_VM == 0 {
        Some(ENOSYS)
    } else if !caller_found {
        Some(EBADF)
    } else {
        None
    }
}

/// What `SYS_FORK` answers before any copy is made, given the caller's address space if its
/// task is found: `EBADF` when it is not, `EFAULT` when one of its areas ends within a page of
/// the top of the address space (its pages cannot be walked); `None` when the copy is made.
pub fn fork_refusal(parent: Option<&Vmm>) -> (r: Option<isize>)
    ensures
        r == (match parent {
            None => Some(EBADF),
            Some(v) => if areas_steppable(v.area_seq()) {
                None
            } else {
                Some(EFAULT)
            },
        }),
{
    match parent {
        None => Some(EBADF),
        Some(v) => if v.steppable() {
            None
        } else {
            Some(EFAULT)
        },
    }
}

pub const EPIPE: isize = -32;

pub const EMSGSIZE: isize = -90;

pub const ENOENT: isize = -2;

pub const EACCES: isize = -13;

pub const EEXIST: isize = -17;

pub const ENOTDIR: isize = -20;

pub const EISDIR: isize = -21;

pub const EBUSY: isize = -16;

pub const EROFS: isize = -30;

pub const ENODEV: isize = -19;

/// The error number of a file-system error.
pub open spec fn fs_errno(e: FsError) -> isize {
    match e {
        FsError::NotFound => ENOENT,
        FsError::AlreadyExists => EEXIST,
        FsError::PermissionDenied => EACCES,
        FsError::Locked => EBUSY,
        FsError::IsShared => EROFS,
        FsError::NotOpen => EBADF,
        FsError::InvalidPath => EFAULT,
        FsError::NotADirectory => ENOTDIR,
        FsError::IsADirectory => EISDIR,
        FsError::NotMounted => ENODEV,
    }
}

pub fn fs_err(e: FsError) -> (r: isize)
    ensures
        r == fs_errno(e),
{
    match e {
        FsError::NotFound => ENOENT,
        FsError::AlreadyExists => EEXIST,
        FsError::PermissionDenied => EACCES,
        FsError::Locked => EBUSY,
        FsError::IsShared => EROFS,
        FsError::NotOpen => EBADF,
        FsError::InvalidPath => EFAULT,
        FsError::NotADirectory => ENOTDIR,
        FsError::IsADirectory => EISDIR,
        FsError::NotMounted => ENODEV,
    }
}

/// The error number of an IPC error.
pub open spec fn ipc_errno(e: IpcError) -> isize {
    match e {
        IpcError::Closed => EPIPE,
        IpcError::WouldBlock => EAGAIN,
        IpcError::TooLarge => EMSGSIZE,
    }
}

pub fn ipc_err(e: IpcError) -> (r: isize)
    ensures
        r == ipc_errno(e),
{
    match e {
        IpcError::Closed => EPIPE,
        IpcError::WouldBlock => EAGAIN,
        IpcError::TooLarge => EMSGSIZE,
    }
}

/// Whether a user buffer argument is acceptable: a null pointer only with length zero.
pub fn buffer_ok(ptr: usize, len: usize) -> (r: bool)
    ensures
        r == !(len > 0 && ptr == 0),
{
    !(len > 0 && ptr == 0)
}

/// Whether a user string argument may be read: a non-null pointer and a length.
pub fn user_str_ok(ptr: usize, len: usize) -> (r: bool)
    ensures
        r == (ptr != 0 && len != 0),
{
    ptr != 0 && len != 0
}

/// The owner, group and world rights read from the low byte of a mode: bits 6 and 7,
/// bits 3 to 5, and bits 0 to 2 (the mode is cut to a byte first, so the owner keeps two bits).
pub fn chmod_modes(mode: usize) -> (r: (u8, u8, u8))
    ensures
        r.0 == ((mode as u8) >> 6u8) & 7u8,
        r.1 == ((mode as u8) >> 3u8) & 7u8,
        r.2 == (mode as u8) & 7u8,
        r.0 < 8 && r.1 < 8 && r.2 < 8,
{
    let bits = mode as u8;
    let owner = (bits >> 6u8) & 0b111u8;
    let group = (bits >> 3u8) & 0b111u8;
    let world = bits & 0b111u8;
    assert(owner < 8 && group < 8 && world < 8) by (bit_vector)
        requires
            owner == (bits >> 6u8) & 7u8,
            group == (bits >> 3u8) & 7u8,
            world == bits & 7u8,
    ;
    (owner, group, world)
}

/// Bytes of a directory-entry name kept in a record.
pub const NAME_MAX: usize = 64;

/// A directory-entry record: the name, zero-padded, then 1 for a directory, 0 for a file.
pub const RECORD_SIZE: usize = 65;

/// The record of an entry whose name has the bytes `name`.
pub open spec fn dent_record(name: Seq<u8>, is_dir: bool) -> Seq<u8> {
    let n = if name.len() < NAME_MAX { name.len() as int } else { NAME_MAX as int };
    name.subrange(0, n) + Seq::new((NAME_MAX - n) as nat, |i: int| 0u8) + seq![if is_dir { 1u8 } else { 0u8 }]
}

/// The records of the first `n` entries, one after the other.
pub open spec fn dent_records(entries: Seq<(Seq<u8>, bool)>, n: int) -> Seq<u8>
    decreases n,
{
    if n <= 0 {
        Seq::empty()
    } else {
        dent_records(entries, n - 1) + dent_record(entries[n - 1].0, entries[n - 1].1)
    }
}

/// The directory listing as user space receives it in a buffer of `buf_len` bytes: as many
/// whole records as fit, and how many that is.
pub fn getdents_records(entries: &Vec<(String, bool)>, buf_len: usize) -> (r: (Vec<u8>, usize))
    ensures
        ({
            let view = Seq::new(entries@.len(), |i: int| (vstd::utf8::encode_utf8(entries@[i].0@), entries@[i].1));
            let cap = buf_len as int / RECORD_SIZE as int;
            let n = if entries@.len() < cap { entries@.len() as int } else { cap };
            &&& r.1 == n
            &&& r.0@ == dent_records(view, n)
            &&& r.0@.len() == n * RECORD_SIZE
        }),
{
    let ghost view = Seq::new(entries@.len(), |i: int| (vstd::utf8::encode_utf8(entries@[i].0@), entries@[i].1));
    let capacity = buf_len / RECORD_SIZE;
    let n = if entries.len() < capacity { entries.len() } else { capacity };
    let mut out: Vec<u8> = Vec::new();
    let mut i: usize = 0;
    while i < n
        invariant
            i <= n,
            n <= entries@.len(),
            n <= capacity,
            capacity == buf_len / RECORD_SIZE,
            view == Seq::new(entries@.len(), |i: int| (vstd::utf8::encode_utf8(entries@[i].0@), entries@[i].1)),
            out@ == dent_records(view, i as int),
            out@.len() == i * RECORD_SIZE,
        decreases n - i,
    {
        let name = entries[i].0.as_str().as_bytes();
        let is_dir = entries[i].1;
        let copy_len = if name.len() < NAME_MAX { name.len() } else { NAME_MAX };
        let ghost before = out@;
        let mut k: usize = 0;
        while k < NAME_MAX
            invariant
                k <= NAME_MAX,
                copy_len <= name@.len(),
                copy_len == (if name@.len() < NAME_MAX { name@.len() as int } else { NAME_MAX as int }),
                out@.len() == before.len() + k,
                forall|j: int| 0 <= j < before.len() ==> out@[j] == before[j],
                forall|j: int| 0 <= j < k ==> #[trigger] out@[before.len() + j] == (if j < copy_len { name@[j] } else { 0u8 }),
            decreases NAME_MAX - k,
        {
            if k < copy_len {
                out.push(name[k]);
            } else {
                out.push(0);
            }
            k = k + 1;
        }
        out.push(if is_dir { 1u8 } else { 0u8 });
        proof {
            let rec = dent_record(view[i as int].0, is_dir);
            assert(view[i as int].0 == name@);
            assert forall|j: int| 0 <= j < out@.len() implies out@[j] == (before + rec)[j] by {
                if j >= before.len() && j < before.len() + NAME_MAX {
                    assert(out@[before.len() + (j - before.len())] == (if j - before.len() < copy_len { name@[j - before.len()] } else { 0u8 }));
                }
            }
            assert(out@ =~= before + rec);
        }
        i = i + 1;
    }
    (out, n)
}

/// What a lock or condition-variable call on a handle comes to: a return value, or that the
/// calling thread is blocked and must repeat the call once scheduled again.
#[derive(Debug, Clone, Copy, PartialEq, Eq, Structural)]
pub enum SysOutcome {
    Value(isize),
    Blocked,
}

/// The system calls on user-visible locks: create one, lock, try to lock, unlock, wait on its
/// condition, signal, broadcast. A handle that names no lock gives `EBADF`.
pub fn resource_syscall(
    nr: usize,
    handle: u64,
    resources: &mut ResourceTable,
    sched: &mut MlfqScheduler,
    table: &mut BTreeTaskRegistry,
) -> (r: SysOutcome)
    requires
        old(table).wf(),
        old(sched).wf(old(table)),
        old(sched).current() is Some,
        old(resources).next() < u64::MAX,
    ensures
        final(table).wf(),
        final(sched).wf(final(table)),
        nr == SYS_GETRESOURCE ==> r == SysOutcome::Value(old(resources).next() as isize) && final(resources).next()
            == old(resources).next() + 1,
        (nr == SYS_MUTEX_LOCK || nr == SYS_MUTEX_TRYLOCK || nr == SYS_TRYLOCK || nr == SYS_MUTEX_UNLOCK || nr
            == SYS_CONDVAR_WAIT || nr == SYS_CONDVAR_SIGNAL || nr == SYS_CONDVAR_BROADCAST) ==> {
            let i = handle_index(old(resources).entries(), handle);
            if i < 0 {
                r == SysOutcome::Value(EBADF)
            } else {
                let locked = old(resources).entries()[i].1.is_locked();
                if nr == SYS_MUTEX_TRYLOCK || nr == SYS_TRYLOCK {
                    r == SysOutcome::Value(if locked { EAGAIN } else { 0 })
                } else if nr == SYS_MUTEX_LOCK {
                    r == (if locked { SysOutcome::Blocked } else { SysOutcome::Value(0) })
                } else {
                    r == SysOutcome::Value(0)
                }
            }
        },
        !(nr == SYS_GETRESOURCE || nr == SYS_MUTEX_LOCK || nr == SYS_MUTEX_TRYLOCK || nr == SYS_TRYLOCK || nr
            == SYS_MUTEX_UNLOCK || nr == SYS_CONDVAR_WAIT || nr == SYS_CONDVAR_SIGNAL || nr == SYS_CONDVAR_BROADCAST)
            ==> r == SysOutcome::Value(ENOSYS),
        nr == SYS_GETRESOURCE ==> final(resources).entries().len() == old(resources).entries().len() + 1
            && final(resources).entries().subrange(0, old(resources).entries().len() as int) == old(resources).entries()
            && final(resources).entries().last().0 == old(resources).next() && !final(resources).entries().last().1.is_locked()
            && final(resources).entries().last().1.lock_waiters().len() == 0
            && final(resources).entries().last().1.cond_waiting().len() == 0
            && final(table).tasks() == old(table).tasks() && *final(sched) == *old(sched),
        nr != SYS_GETRESOURCE ==> final(resources).next() == old(resources).next(),
        nr != SYS_GETRESOURCE && handle_index(old(resources).entries(), handle) < 0 ==> final(resources).entries()
            == old(resources).entries() && final(table).tasks() == old(table).tasks() && *final(sched) == *old(sched),
        (nr == SYS_MUTEX_LOCK || nr == SYS_MUTEX_TRYLOCK || nr == SYS_TRYLOCK || nr == SYS_MUTEX_UNLOCK || nr
            == SYS_CONDVAR_WAIT || nr == SYS_CONDVAR_SIGNAL || nr == SYS_CONDVAR_BROADCAST) && handle_index(
            old(resources).entries(),
            handle,
        ) >= 0 ==> {
            let i = handle_index(old(resources).entries(), handle);
            let a = old(resources).entries()[i].1;
            let b = final(resources).entries()[i].1;
            let cur = old(sched).current().unwrap();
            &&& final(resources).entries() == old(resources).entries().update(i, (old(resources).entries()[i].0, b))
            &&& (nr == SYS_MUTEX_TRYLOCK || nr == SYS_TRYLOCK) ==> b.is_locked() && b.lock_waiters() == a.lock_waiters()
                && b.cond_waiting() == a.cond_waiting() && final(table).tasks() == old(table).tasks() && *final(sched)
                == *old(sched)
            &&& nr == SYS_MUTEX_LOCK ==> b.is_locked() && b.cond_waiting() == a.cond_waiting() && *final(sched)
                == *old(sched) && if a.is_locked() {
                b.lock_waiters() == a.lock_waiters().push(cur) && final(table).tasks() == with_state(
                    old(table).tasks(),
                    cur,
                    TaskState::Blocked,
                )
            } else {
                b.lock_waiters() == a.lock_waiters() && final(table).tasks() == old(table).tasks()
            }
            &&& nr == SYS_MUTEX_UNLOCK ==> !b.is_locked() && b.cond_waiting() == a.cond_waiting() && if a.lock_waiters().len()
                == 0 {
                b.lock_waiters() == a.lock_waiters() && final(table).tasks() == old(table).tasks() && final(sched).queues()
                    == old(sched).queues()
            } else {
                &&& b.lock_waiters() == a.lock_waiters().subrange(1, a.lock_waiters().len() as int)
                &&& final(table).tasks() == woken(old(table).tasks(), a.lock_waiters()[0])
                &&& final(sched).queues() == woken_queues(old(sched).queues(), old(table).tasks(), a.lock_waiters()[0])
            }
            &&& nr == SYS_CONDVAR_WAIT ==> !b.is_locked() && b.cond_waiting() == a.cond_waiting().push(cur)
            &&& nr == SYS_CONDVAR_SIGNAL ==> b.is_locked() == a.is_locked() && b.lock_waiters() == a.lock_waiters() && if a.cond_waiting().len()
                == 0 {
                b.cond_waiting() == a.cond_waiting() && final(table).tasks() == old(table).tasks() && final(sched).queues()
                    == old(sched).queues()
            } else {
                &&& b.cond_waiting() == a.cond_waiting().subrange(1, a.cond_waiting().len() as int)
                &&& final(table).tasks() == woken(old(table).tasks(), a.cond_waiting()[0])
                &&& final(sched).queues() == woken_queues(old(sched).queues(), old(table).tasks(), a.cond_waiting()[0])
            }
            &&& nr == SYS_CONDVAR_BROADCAST ==> b.is_locked() == a.is_locked() && b.lock_waiters() == a.lock_waiters()
                && b.cond_waiting() == Seq::<Tid>::empty() && (final(table).tasks(), final(sched).queues()) == woken_all(
                old(table).tasks(),
                old(sched).queues(),
                a.cond_waiting(),
            )
        },
{
    if nr == SYS_GETRESOURCE {
        let h = resources.insert(QueuedResource::new());
        proof {
            assert(h <= u64::MAX);
        }
        return SysOutcome::Value(h as isize);
    }
    if !(nr == SYS_MUTEX_LOCK || nr == SYS_MUTEX_TRYLOCK || nr == SYS_TRYLOCK || nr == SYS_MUTEX_UNLOCK || nr
        == SYS_CONDVAR_WAIT || nr == SYS_CONDVAR_SIGNAL || nr == SYS_CONDVAR_BROADCAST) {
        return SysOutcome::Value(ENOSYS);
    }
    let i = match resources.index_of(handle) {
        Some(i) => i,
        None => return SysOutcome::Value(EBADF),
    };
    let res = resources.entry_mut(i);
    if nr == SYS_MUTEX_TRYLOCK || nr == SYS_TRYLOCK {
        if res.try_lock_step() {
            SysOutcome::Value(0)
        } else {
            SysOutcome::Value(EAGAIN)
        }
    } else if nr == SYS_MUTEX_LOCK {
        if res.lock_step(sched, table) {
            SysOutcome::Value(0)
        } else {
            SysOutcome::Blocked
        }
    } else if nr == SYS_MUTEX_UNLOCK {
        res.unlock_step(sched, table);
        SysOutcome::Value(0)
    } else if nr == SYS_CONDVAR_WAIT {
        res.wait_step(sched, table);
        SysOutcome::Value(0)
    } else if nr == SYS_CONDVAR_SIGNAL {
        res.signal_step(sched, table);
        SysOutcome::Value(0)
    } else {
        res.broadcast_step(sched, table);
        SysOutcome::Value(0)
    }
}

/// What a read or receive returns to user space: the byte count, or the error's number.
pub open spec fn recv_return(res: Result<usize, IpcError>) -> isize {
    match res {
        Ok(n) => n as isize,
        Err(e) => ipc_errno(e),
    }
}

/// What a write or send returns to user space: 0 once the object took the data, or the
/// error's number.
pub open spec fn send_return(res: Result<usize, IpcError>) -> isize {
    match res {
        Ok(n) => 0,
        Err(e) => ipc_errno(e),
    }
}

/// The system calls on IPC objects by handle: create a pipe, close a pipe, read or receive
/// into `buf`, write or send `buf`, close shared memory. A handle that names no object gives
/// `EBADF`; a table that has handed out its last handle refuses a new pipe with `EAGAIN`. A
/// number that is none of these calls is `ENOSYS` and changes nothing.
pub fn ipc_syscall(nr: usize, handle: u64, buf: &mut [u8], ipc: &mut IpcTable) -> (r: isize)
    requires
        old(ipc).wf(),
    ensures
        final(ipc).wf(),
        final(ipc).next() >= old(ipc).next(),
        final(buf)@.len() == old(buf)@.len(),
        !(nr == SYS_PIPE_READ || nr == SYS_MSG_RECV) ==> final(buf)@ == old(buf)@,
        nr == SYS_PIPE_CREATE ==> if old(ipc).next() == u64::MAX {
            r == EAGAIN && final(ipc).objects() == old(ipc).objects() && final(ipc).next() == old(ipc).next()
        } else {
            let h = old(ipc).next();
            &&& r == h as isize
            &&& final(ipc).next() == h + 1
            &&& final(ipc).objects() == old(ipc).objects().insert(h, final(ipc).objects()[h])
            &&& final(ipc).objects()[h] matches IpcObject::Pipe(p) && p.contents().len() == 0 && !p.is_closed()
        },
        nr == SYS_PIPE_CLOSE ==> r == (if old(ipc).objects().contains_key(handle) {
            0
        } else {
            EBADF
        }) && final(ipc).objects() == old(ipc).objects().remove(handle) && final(ipc).next() == old(ipc).next(),
        nr == SYS_SHM_CLOSE ==> r == 0 && final(ipc).objects() == old(ipc).objects().remove(handle)
            && final(ipc).next() == old(ipc).next(),
        (nr == SYS_PIPE_READ || nr == SYS_MSG_RECV) ==> if old(ipc).objects().contains_key(handle) {
            &&& final(ipc).next() == old(ipc).next()
            &&& final(ipc).objects() == old(ipc).objects().insert(handle, final(ipc).objects()[handle])
            &&& exists|res: Result<usize, IpcError>|
                #[trigger] object_recv_post(
                    old(ipc).objects()[handle],
                    final(ipc).objects()[handle],
                    old(buf)@,
                    final(buf)@,
                    res,
                ) && r == recv_return(res)
        } else {
            r == EBADF && final(ipc).objects() == old(ipc).objects() && final(ipc).next() == old(ipc).next()
                && final(buf)@ == old(buf)@
        },
        (nr == SYS_PIPE_WRITE || nr == SYS_MSG_SEND) ==> if old(ipc).objects().contains_key(handle) {
            &&& final(ipc).next() == old(ipc).next()
            &&& final(ipc).objects() == old(ipc).objects().insert(handle, final(ipc).objects()[handle])
            &&& exists|res: Result<usize, IpcError>|
                #[trigger] object_send_post(old(ipc).objects()[handle], final(ipc).objects()[handle], old(buf)@, res)
                    && r == send_return(res)
        } else {
            r == EBADF && final(ipc).objects() == old(ipc).objects() && final(ipc).next() == old(ipc).next()
        },
        !(nr == SYS_PIPE_CREATE || nr == SYS_PIPE_CLOSE || nr == SYS_SHM_CLOSE || nr == SYS_PIPE_READ || nr
            == SYS_MSG_RECV || nr == SYS_PIPE_WRITE || nr == SYS_MSG_SEND) ==> r == ENOSYS && final(ipc).objects()
            == old(ipc).objects() && final(ipc).next() == old(ipc).next(),
{
    if nr == SYS_PIPE_CREATE {
        if ipc.next_handle() == u64::MAX {
            return EAGAIN;
        }
        let h = ipc.insert(IpcObject::Pipe(Pipe::new()));
        return h as isize;
    }
    if nr == SYS_PIPE_CLOSE {
        return if ipc.close(handle) {
            0
        } else {
            EBADF
        };
    }
    if nr == SYS_SHM_CLOSE {
        ipc.remove(handle);
        return 0;
    }
    if nr == SYS_PIPE_READ || nr == SYS_MSG_RECV {
        let got = ipc.recv(handle, buf);
        return match got {
            None => EBADF,
            Some(res) => {
                let r = match res {
                    Ok(n) => n as isize,
                    Err(e) => ipc_err(e),
                };
                assert(r == recv_return(res));
                r
            },
        };
    }
    if nr == SYS_PIPE_WRITE || nr == SYS_MSG_SEND {
        let got = ipc.send(handle, buf);
        return match got {
            None => EBADF,
            Some(res) => {
                let r = match res {
                    Ok(_) => 0,
                    Err(e) => ipc_err(e),
                };
                assert(r == send_return(res));
                r
            },
        };
    }
    ENOSYS
}

/// What a blocking IPC call comes to: a value for user space, or that the calling thread now
/// waits on the object after the object took this many bytes of what it was given; the caller
/// schedules and repeats the call with the rest.
#[derive(Debug, Clone, Copy, PartialEq, Eq, Structural)]
pub enum IpcOutcome {
    Value(isize),
    Blocked(usize),
}

/// Waking the first thread waiting on `which` of `o` (if any): that queue afterwards, and the
/// tasks and run queues.
pub open spec fn signal_result(o: IpcObject, which: Cond, ta: Seq<Task>, qa: Seq<Seq<Tid>>) -> (Seq<Tid>, Seq<Task>, Seq<Seq<Tid>>) {
    let w = cond_waiting(o, which);
    if w.len() == 0 {
        (w, ta, qa)
    } else {
        (w.subrange(1, w.len() as int), woken(ta, w[0]), woken_queues(qa, ta, w[0]))
    }
}

/// The waiting queues of `f` are those of `o`, and tasks and run queues are unchanged.
pub open spec fn untouched(o: IpcObject, f: IpcObject, ta: Seq<Task>, tb: Seq<Task>, qa: Seq<Seq<Tid>>, qb: Seq<Seq<Tid>>) -> bool {
    &&& cond_waiting(f, Cond::NotEmpty) == cond_waiting(o, Cond::NotEmpty)
    &&& cond_waiting(f, Cond::NotFull) == cond_waiting(o, Cond::NotFull)
    &&& tb == ta
    &&& qb == qa
}

/// After a receive with result `res` on `o` (giving `f`): a receive that took bytes from a
/// stream wakes the first writer waiting for room and returns the count; one that found an
/// open stream empty makes the running thread `cur` (if any) wait for data; an error is its
/// number; nothing else changes.
pub open spec fn recv_outcome(
    o: IpcObject,
    f: IpcObject,
    res: Result<usize, IpcError>,
    cur: Option<Tid>,
    ta: Seq<Task>,
    tb: Seq<Task>,
    qa: Seq<Seq<Tid>>,
    qb: Seq<Seq<Tid>>,
    r: IpcOutcome,
) -> bool {
    let stream = !(o is Shared);
    match res {
        Ok(n) => {
            &&& r == IpcOutcome::Value(n as isize)
            &&& if stream && n > 0 {
                let (w, t, q) = signal_result(o, Cond::NotFull, ta, qa);
                &&& cond_waiting(f, Cond::NotFull) == w
                &&& cond_waiting(f, Cond::NotEmpty) == cond_waiting(o, Cond::NotEmpty)
                &&& tb == t
                &&& qb == q
            } else {
                untouched(o, f, ta, tb, qa, qb)
            }
        },
        Err(e) => if stream && e == IpcError::WouldBlock && cur is Some {
            &&& r == IpcOutcome::Blocked(0)
            &&& cond_waiting(f, Cond::NotEmpty) == cond_waiting(o, Cond::NotEmpty).push(cur.unwrap())
            &&& cond_waiting(f, Cond::NotFull) == cond_waiting(o, Cond::NotFull)
            &&& tb == with_state(ta, cur.unwrap(), TaskState::Blocked)
            &&& qb == qa
        } else {
            r == IpcOutcome::Value(ipc_errno(e)) && untouched(o, f, ta, tb, qa, qb)
        },
    }
}

/// After a send of `len` bytes with result `res` on `o` (giving `f`): bytes taken by a stream
/// wake the first reader waiting for data; a send that went through whole returns 0; one that
/// was taken only in part, or not at all because the stream is full, makes the running thread
/// `cur` wait for room (no running thread: `EAGAIN`) and reports what was taken; an error is its
/// number.
pub open spec fn send_outcome(
    o: IpcObject,
    f: IpcObject,
    len: nat,
    res: Result<usize, IpcError>,
    cur: Option<Tid>,
    ta: Seq<Task>,
    tb: Seq<Task>,
    qa: Seq<Seq<Tid>>,
    qb: Seq<Seq<Tid>>,
    r: IpcOutcome,
) -> bool {
    let stream = !(o is Shared);
    match res {
        Ok(n) => {
            let (w, t, q) = if stream && n > 0 {
                signal_result(o, Cond::NotEmpty, ta, qa)
            } else {
                (cond_waiting(o, Cond::NotEmpty), ta, qa)
            };
            &&& cond_waiting(f, Cond::NotEmpty) == w
            &&& qb == q
            &&& if n >= len {
                &&& r == IpcOutcome::Value(0)
                &&& cond_waiting(f, Cond::NotFull) == cond_waiting(o, Cond::NotFull)
                &&& tb == t
            } else if stream && cur is Some {
                &&& r == IpcOutcome::Blocked(n)
                &&& cond_waiting(f, Cond::NotFull) == cond_waiting(o, Cond::NotFull).push(cur.unwrap())
                &&& tb == with_state(t, cur.unwrap(), TaskState::Blocked)
            } else {
                &&& r == IpcOutcome::Value(EAGAIN)
                &&& cond_waiting(f, Cond::NotFull) == cond_waiting(o, Cond::NotFull)
                &&& tb == t
            }
        },
        Err(e) => if stream && e == IpcError::WouldBlock && cur is Some {
            &&& r == IpcOutcome::Blocked(0)
            &&& cond_waiting(f, Cond::NotFull) == cond_waiting(o, Cond::NotFull).push(cur.unwrap())
            &&& cond_waiting(f, Cond::NotEmpty) == cond_waiting(o, Cond::NotEmpty)
            &&& tb == with_state(ta, cur.unwrap(), TaskState::Blocked)
            &&& qb == qa
        } else {
            r == IpcOutcome::Value(ipc_errno(e)) && untouched(o, f, ta, tb, qa, qb)
        },
    }
}

/// The IPC system calls with their waiting: a read or receive from an empty stream, and a
/// write or send that does not go through whole, put the running thread on the object's
/// queue (`Blocked`); a transfer wakes the first thread waiting on the other side; closing a
/// pipe wakes everyone waiting on it. A handle that names no object gives `EBADF`; every other
/// call is `ipc_syscall`.
pub fn ipc_call(
    nr: usize,
    handle: u64,
    buf: &mut [u8],
    ipc: &mut IpcTable,
    sched: &mut MlfqScheduler,
    table: &mut BTreeTaskRegistry,
) -> (r: IpcOutcome)
    requires
        old(ipc).wf(),
        old(sched).wf(old(table)),
    ensures
        final(ipc).wf(),
        final(sched).wf(final(table)),
        final(buf)@.len() == old(buf)@.len(),
        final(sched).current() == old(sched).current(),
        !(nr == SYS_PIPE_READ || nr == SYS_MSG_RECV) ==> final(buf)@ == old(buf)@,
        (nr == SYS_PIPE_READ || nr == SYS_MSG_RECV || nr == SYS_PIPE_WRITE || nr == SYS_MSG_SEND) ==> final(ipc).next()
            == old(ipc).next() && if old(ipc).objects().contains_key(handle) {
            let o = old(ipc).objects()[handle];
            let f = final(ipc).objects()[handle];
            let (ta, tb, qa, qb) = (old(table).tasks(), final(table).tasks(), old(sched).queues(), final(sched).queues());
            &&& final(ipc).objects() == old(ipc).objects().insert(handle, f)
            &&& (nr == SYS_PIPE_READ || nr == SYS_MSG_RECV) ==> exists|res: Result<usize, IpcError>|
                #[trigger] object_recv_post(o, f, old(buf)@, final(buf)@, res) && recv_outcome(
                    o,
                    f,
                    res,
                    old(sched).current(),
                    ta,
                    tb,
                    qa,
                    qb,
                    r,
                )
            &&& (nr == SYS_PIPE_WRITE || nr == SYS_MSG_SEND) ==> exists|res: Result<usize, IpcError>|
                #[trigger] object_send_post(o, f, old(buf)@, res) && send_outcome(
                    o,
                    f,
                    old(buf)@.len(),
                    res,
                    old(sched).current(),
                    ta,
                    tb,
                    qa,
                    qb,
                    r,
                )
        } else {
            &&& r == IpcOutcome::Value(EBADF)
            &&& final(ipc).objects() == old(ipc).objects()
            &&& final(table).tasks() == old(table).tasks()
            &&& final(sched).queues() == old(sched).queues()
            &&& final(buf)@ == old(buf)@
        },
        nr == SYS_PIPE_CLOSE ==> {
            let o = old(ipc).objects()[handle];
            let found = old(ipc).objects().contains_key(handle);
            let (t1, q1) = woken_all(old(table).tasks(), old(sched).queues(), cond_waiting(o, Cond::NotEmpty));
            &&& r == IpcOutcome::Value(if found { 0 } else { EBADF })
            &&& final(ipc).objects() == old(ipc).objects().remove(handle)
            &&& final(ipc).next() == old(ipc).next()
            &&& if found {
                (final(table).tasks(), final(sched).queues()) == woken_all(t1, q1, cond_waiting(o, Cond::NotFull))
            } else {
                final(table).tasks() == old(table).tasks() && final(sched).queues() == old(sched).queues()
            }
        },
        !(nr == SYS_PIPE_READ || nr == SYS_MSG_RECV || nr == SYS_PIPE_WRITE || nr == SYS_MSG_SEND || nr
            == SYS_PIPE_CLOSE) ==> final(table).tasks() == old(table).tasks() && *final(sched) == *old(sched),
        nr == SYS_PIPE_CREATE ==> if old(ipc).next() == u64::MAX {
            r == IpcOutcome::Value(EAGAIN) && final(ipc).objects() == old(ipc).objects() && final(ipc).next() == old(
                ipc,
            ).next()
        } else {
            let h = old(ipc).next();
            &&& r == IpcOutcome::Value(h as isize)
            &&& final(ipc).next() == h + 1
            &&& final(ipc).objects() == old(ipc).objects().insert(h, final(ipc).objects()[h])
            &&& final(ipc).objects()[h] matches IpcObject::Pipe(p) && p.contents().len() == 0 && !p.is_closed()
        },
        nr == SYS_SHM_CLOSE ==> r == IpcOutcome::Value(0) && final(ipc).objects() == old(ipc).objects().remove(handle)
            && final(ipc).next() == old(ipc).next(),
        !(nr == SYS_PIPE_READ || nr == SYS_MSG_RECV || nr == SYS_PIPE_WRITE || nr == SYS_MSG_SEND || nr
            == SYS_PIPE_CLOSE || nr == SYS_PIPE_CREATE || nr == SYS_SHM_CLOSE) ==> r == IpcOutcome::Value(ENOSYS)
            && final(ipc).objects() == old(ipc).objects() && final(ipc).next() == old(ipc).next(),
{
    let ghost ta = table.tasks();
    let ghost qa = sched.queues();
    if nr == SYS_PIPE_READ || nr == SYS_MSG_RECV {
        let stream = ipc.is_stream(handle);
        let got = ipc.recv(handle, buf);
        let ghost mid = ipc.objects()[handle];
        return match got {
            None => IpcOutcome::Value(EBADF),
            Some(Ok(n)) => {
                if stream && n > 0 {
                    ipc.cond_signal(handle, Cond::NotFull, sched, table);
                }
                proof {
                    assert(object_recv_post(old(ipc).objects()[handle], ipc.objects()[handle], old(buf)@, buf@, Ok::<usize, IpcError>(n)));
                }
                IpcOutcome::Value(n as isize)
            },
            Some(Err(e)) => {
                if stream && e == IpcError::WouldBlock && sched.running().is_some() {
                    ipc.cond_wait(handle, Cond::NotEmpty, sched, table);
                    proof {
                        assert(object_recv_post(old(ipc).objects()[handle], ipc.objects()[handle], old(buf)@, buf@, Err::<usize, IpcError>(e)));
                    }
                    IpcOutcome::Blocked(0)
                } else {
                    let v = ipc_err(e);
                    proof {
                        assert(object_recv_post(old(ipc).objects()[handle], ipc.objects()[handle], old(buf)@, buf@, Err::<usize, IpcError>(e)));
                    }
                    IpcOutcome::Value(v)
                }
            },
        };
    }
    if nr == SYS_PIPE_WRITE || nr == SYS_MSG_SEND {
        let stream = ipc.is_stream(handle);
        let got = ipc.send(handle, buf);
        return match got {
            None => IpcOutcome::Value(EBADF),
            Some(Ok(n)) => {
                if stream && n > 0 {
                    ipc.cond_signal(handle, Cond::NotEmpty, sched, table);
                }
                if n >= buf.len() {
                    proof {
                        assert(object_send_post(old(ipc).objects()[handle], ipc.objects()[handle], old(buf)@, Ok::<usize, IpcError>(n)));
                    }
                    IpcOutcome::Value(0)
                } else if stream && sched.running().is_some() {
                    ipc.cond_wait(handle, Cond::NotFull, sched, table);
                    proof {
                        assert(object_send_post(old(ipc).objects()[handle], ipc.objects()[handle], old(buf)@, Ok::<usize, IpcError>(n)));
                    }
                    IpcOutcome::Blocked(n)
                } else {
                    proof {
                        assert(object_send_post(old(ipc).objects()[handle], ipc.objects()[handle], old(buf)@, Ok::<usize, IpcError>(n)));
                    }
                    IpcOutcome::Value(EAGAIN)
                }
            },
            Some(Err(e)) => {
                if stream && e == IpcError::WouldBlock && sched.running().is_some() {
                    ipc.cond_wait(handle, Cond::NotFull, sched, table);
                    proof {
                        assert(object_send_post(old(ipc).objects()[handle], ipc.objects()[handle], old(buf)@, Err::<usize, IpcError>(e)));
                    }
                    IpcOutcome::Blocked(0)
                } else {
                    let v = ipc_err(e);
                    proof {
                        assert(object_send_post(old(ipc).objects()[handle], ipc.objects()[handle], old(buf)@, Err::<usize, IpcError>(e)));
                    }
                    IpcOutcome::Value(v)
                }
            },
        };
    }
    if nr == SYS_PIPE_CLOSE {
        let found = ipc.close_waking(handle, sched, table);
        return IpcOutcome::Value(if found { 0 } else { EBADF });
    }
    IpcOutcome::Value(ipc_syscall(nr, handle, buf, ipc))
}

/// Opens the shared-memory region `name`: a new handle to a zeroed region of the size the name
/// was first opened with (`size` on its first open, when it is registered). A table that has
/// handed out its last handle refuses with `EAGAIN` and registers nothing.
pub fn shm_open(name: String, size: usize, registry: &mut ShmRegistry, ipc: &mut IpcTable) -> (r: isize)
    requires
        old(ipc).wf(),
    ensures
        final(ipc).wf(),
        old(ipc).next() == u64::MAX ==> r == EAGAIN && final(ipc).objects() == old(ipc).objects() && final(ipc).next()
            == old(ipc).next() && final(registry).entries() == old(registry).entries(),
        old(ipc).next() < u64::MAX ==> {
            let h = old(ipc).next();
            let kept = registered_size(old(registry).entries(), name@);
            let sz = match kept {
                Some(s) => s,
                None => size,
            };
            &&& r == h as isize
            &&& final(ipc).next() == h + 1
            &&& final(ipc).objects() == old(ipc).objects().insert(h, final(ipc).objects()[h])
            &&& final(ipc).objects()[h] matches IpcObject::Shared(m) && m.name@ == name@ && m.data@ == Seq::new(
                sz as nat,
                |i: int| 0u8,
            )
            &&& final(registry).entries() == match kept {
                Some(s) => old(registry).entries(),
                None => old(registry).entries().push((name@, size)),
            }
        },
{
    if ipc.next_handle() == u64::MAX {
        return EAGAIN;
    }
    let sz = registry.size_for(&name, size);
    let h = ipc.insert(IpcObject::Shared(SharedMem::new(name, sz)));
    h as isize
}

/// What a call that hands back a descriptor returns to user space.
pub open spec fn fd_return(res: Result<u64, FsError>) -> isize {
    match res {
        Ok(fd) => fd as isize,
        Err(e) => fs_errno(e),
    }
}

/// What a call that moves bytes returns to user space.
pub open spec fn count_return(res: Result<usize, FsError>) -> isize {
    match res {
        Ok(n) => n as isize,
        Err(e) => fs_errno(e),
    }
}

/// What a call with nothing to hand back returns to user space.
pub open spec fn unit_return(res: Result<(), FsError>) -> isize {
    match res {
        Ok(_) => 0,
        Err(e) => fs_errno(e),
    }
}

/// The names of a listing as bytes, with their kinds.
pub open spec fn listing_bytes(v: Seq<(String, bool)>) -> Seq<(Seq<u8>, bool)> {
    Seq::new(v.len(), |i: int| (vstd::utf8::encode_utf8(v[i].0@), v[i].1))
}

/// What a listing leaves in a buffer holding `out0` (`out1` after) and returns: as many whole
/// records as fit, then the buffer's old bytes, and the number of records; or the error's
/// number, the buffer untouched.
pub open spec fn getdents_return(res: Result<Vec<(String, bool)>, FsError>, out0: Seq<u8>, out1: Seq<u8>, r: isize) -> bool {
    match res {
        Ok(v) => {
            let cap = out0.len() as int / RECORD_SIZE as int;
            let n = if v@.len() < cap { v@.len() as int } else { cap };
            &&& r == n as isize
            &&& out1 == dent_records(listing_bytes(v@), n) + out0.subrange(n * RECORD_SIZE, out0.len() as int)
        },
        Err(e) => r == fs_errno(e) && out1 == out0,
    }
}

/// What a metadata query leaves in a buffer holding `out0` (`out1` after) and returns: the
/// record at the front and 0, or the error's number, the buffer untouched.
pub open spec fn stat_return(res: Result<Stat, FsError>, out0: Seq<u8>, out1: Seq<u8>, r: isize) -> bool {
    match res {
        Ok(st) => r == 0 && out1 == stat_bytes(st) + out0.subrange(STAT_SIZE as int, out0.len() as int),
        Err(e) => r == fs_errno(e) && out1 == out0,
    }
}

/// The file-system calls of process `pid`, running as `uid`/`gid`. `path` and `path2` are the
/// string arguments as read from user space (`None` where the pointer or length was refused or
/// the bytes are not UTF-8); `buf` is the call's user buffer and `buf_ok` whether its pointer
/// and length were acceptable; `a0`, `a1`, `a2` are the first three integer arguments. A refused
/// argument gives `EFAULT` and changes nothing; an open or create that would overflow the file's
/// open count or the process's descriptors gives `EAGAIN`; every other outcome, and the value
/// returned for it, is that of the `LogicalFs` operation the call names.
pub fn file_syscall(
    nr: usize,
    fs: &mut LogicalFs,
    pid: Pid,
    uid: u32,
    gid: u32,
    path: Option<&str>,
    path2: Option<&str>,
    buf_ok: bool,
    buf: &mut [u8],
    a0: u64,
    a1: u64,
    a2: usize,
) -> (r: isize)
    requires
        old(fs).wf(),
    ensures
        final(fs).wf(),
        final(buf)@.len() == old(buf)@.len(),
        !(nr == SYS_READ || nr == SYS_GETDENTS || nr == SYS_STAT) ==> final(buf)@ == old(buf)@,
        nr == SYS_OPEN ==> match path {
            None => r == EFAULT && *final(fs) == *old(fs),
            Some(p) => if !old(fs).open_room(p@, pid) {
                r == EAGAIN && *final(fs) == *old(fs)
            } else {
                exists|res: Result<u64, FsError>|
                    #[trigger] open_outcome(*old(fs), *final(fs), p@, pid, uid, gid, res) && r == fd_return(res)
            },
        },
        nr == SYS_CREATE ==> match path {
            None => r == EFAULT && *final(fs) == *old(fs),
            Some(p) => if !old(fs).open_room(p@, pid) {
                r == EAGAIN && *final(fs) == *old(fs)
            } else {
                exists|res: Result<u64, FsError>|
                    #[trigger] create_outcome(*old(fs), *final(fs), p@, pid, res) && r == fd_return(res)
            },
        },
        nr == SYS_CLOSE ==> exists|res: Result<(), FsError>|
            #[trigger] close_outcome(*old(fs), *final(fs), a0, pid, res) && r == unit_return(res),
        nr == SYS_SEEK ==> exists|res: Result<(), FsError>|
            #[trigger] seek_outcome(*old(fs), *final(fs), a0, pid, a1, res) && r == unit_return(res),
        nr == SYS_READ ==> if !buf_ok {
            r == EFAULT && *final(fs) == *old(fs) && final(buf)@ == old(buf)@
        } else {
            exists|res: Result<usize, FsError>|
                #[trigger] read_outcome(*old(fs), *final(fs), a0, pid, uid, gid, old(buf)@, final(buf)@, res) && r
                    == count_return(res)
        },
        nr == SYS_WRITE ==> if !buf_ok {
            r == EFAULT && *final(fs) == *old(fs)
        } else {
            exists|res: Result<usize, FsError>|
                #[trigger] write_outcome(*old(fs), *final(fs), a0, pid, uid, gid, old(buf)@, res) && r == count_return(
                    res,
                )
        },
        nr == SYS_DELETE ==> match path {
            None => r == EFAULT && *final(fs) == *old(fs),
            Some(p) => exists|res: Result<(), FsError>|
                #[trigger] delete_outcome(*old(fs), *final(fs), p@, res) && r == unit_return(res),
        },
        nr == SYS_RENAME ==> match (path, path2) {
            (Some(p), Some(q)) => exists|res: Result<(), FsError>|
                #[trigger] rename_outcome(*old(fs), *final(fs), p@, q@, res) && r == unit_return(res),
            _ => r == EFAULT && *final(fs) == *old(fs),
        },
        nr == SYS_MKDIR ==> match path {
            None => r == EFAULT && *final(fs) == *old(fs),
            Some(p) => exists|res: Result<(), FsError>|
                #[trigger] mkdir_outcome(*old(fs), *final(fs), p@, res) && r == unit_return(res),
        },
        nr == SYS_RMDIR ==> match path {
            None => r == EFAULT && *final(fs) == *old(fs),
            Some(p) => exists|res: Result<(), FsError>|
                #[trigger] rmdir_outcome(*old(fs), *final(fs), p@, res) && r == unit_return(res),
        },
        nr == SYS_MARK_SHARED ==> match path {
            None => r == EFAULT && *final(fs) == *old(fs),
            Some(p) => exists|res: Result<(), FsError>|
                #[trigger] mark_shared_outcome(*old(fs), *final(fs), p@, res) && r == unit_return(res),
        },
        nr == SYS_CHMOD ==> match path {
            None => r == EFAULT && *final(fs) == *old(fs),
            Some(p) => r == 0 && chmod_outcome(
                *old(fs),
                *final(fs),
                p@,
                ((a2 as u8) >> 6u8) & 7u8,
                ((a2 as u8) >> 3u8) & 7u8,
                (a2 as u8) & 7u8,
                Ok::<(), FsError>(()),
            ),
        },
        nr == SYS_GETDENTS ==> match path {
            None => r == EFAULT && *final(fs) == *old(fs) && final(buf)@ == old(buf)@,
            Some(p) => if !buf_ok {
                r == EFAULT && *final(fs) == *old(fs) && final(buf)@ == old(buf)@
            } else {
                exists|res: Result<Vec<(String, bool)>, FsError>|
                    #[trigger] getdents_outcome(*old(fs), *final(fs), p@, res) && getdents_return(
                        res,
                        old(buf)@,
                        final(buf)@,
                        r,
                    )
            },
        },
        nr == SYS_STAT ==> match path {
            None => r == EFAULT && *final(fs) == *old(fs) && final(buf)@ == old(buf)@,
            Some(p) => if !buf_ok || old(buf)@.len() < STAT_SIZE {
                r == EFAULT && *final(fs) == *old(fs) && final(buf)@ == old(buf)@
            } else {
                exists|res: Result<Stat, FsError>|
                    #[trigger] stat_outcome(*old(fs), *final(fs), p@, res) && stat_return(res, old(buf)@, final(buf)@, r)
            },
        },
        nr == SYS_LOGIN ==> *final(fs) == *old(fs) && if !buf_ok {
            r == EFAULT
        } else {
            let db = old(fs).auth_db().view_map();
            r == (if db.contains_key(a0 as u32) && matches_password(db[a0 as u32], old(buf)@) {
                0
            } else {
                EACCES
            })
        },
        !(nr == SYS_OPEN || nr == SYS_CREATE || nr == SYS_CLOSE || nr == SYS_SEEK || nr == SYS_READ || nr == SYS_WRITE
            || nr == SYS_DELETE || nr == SYS_RENAME || nr == SYS_MKDIR || nr == SYS_RMDIR || nr == SYS_MARK_SHARED || nr
            == SYS_CHMOD || nr == SYS_GETDENTS || nr == SYS_STAT || nr == SYS_LOGIN) ==> r == ENOSYS && *final(fs)
            == *old(fs),
{
    if nr == SYS_OPEN || nr == SYS_CREATE {
        let p = match path {
            None => return EFAULT,
            Some(p) => p,
        };
        if !fs.has_open_room(p, pid) {
            return EAGAIN;
        }
        let res = if nr == SYS_OPEN {
            fs.open(p, pid, uid, gid)
        } else {
            fs.create(p, pid)
        };
        return match res {
            Ok(fd) => fd as isize,
            Err(e) => fs_err(e),
        };
    }
    if nr == SYS_CLOSE || nr == SYS_SEEK {
        let res = if nr == SYS_CLOSE {
            fs.close(a0, pid)
        } else {
            fs.seek(a0, pid, a1)
        };
        return match res {
            Ok(_) => 0,
            Err(e) => fs_err(e),
        };
    }
    if nr == SYS_READ || nr == SYS_WRITE {
        if !buf_ok {
            return EFAULT;
        }
        let res = if nr == SYS_READ {
            fs.read(a0, pid, uid, gid, buf)
        } else {
            fs.write(a0, pid, uid, gid, buf)
        };
        return match res {
            Ok(n) => n as isize,
            Err(e) => fs_err(e),
        };
    }
    if nr == SYS_RENAME {
        return match (path, path2) {
            (Some(p), Some(q)) => match fs.rename(p, q) {
                Ok(_) => 0,
                Err(e) => fs_err(e),
            },
            _ => EFAULT,
        };
    }
    if nr == SYS_DELETE || nr == SYS_MKDIR || nr == SYS_RMDIR || nr == SYS_MARK_SHARED || nr == SYS_CHMOD {
        let p = match path {
            None => return EFAULT,
            Some(p) => p,
        };
        let res = if nr == SYS_DELETE {
            fs.delete(p)
        } else if nr == SYS_MKDIR {
            fs.mkdir(p)
        } else if nr == SYS_RMDIR {
            fs.rmdir(p)
        } else if nr == SYS_MARK_SHARED {
            fs.mark_shared(p)
        } else {
            let (owner, group, world) = chmod_modes(a2);
            fs.chmod(p, owner, group, world)
        };
        return match res {
            Ok(_) => 0,
            Err(e) => fs_err(e),
        };
    }
    if nr == SYS_GETDENTS {
        let p = match path {
            None => return EFAULT,
            Some(p) => p,
        };
        if !buf_ok {
            return EFAULT;
        }
        let res = fs.getdents(p);
        return match res {
            Ok(entries) => {
                let (records, n) = getdents_records(&entries, buf.len());
                copy_front(buf, &records);
                n as isize
            },
            Err(e) => fs_err(e),
        };
    }
    if nr == SYS_STAT {
        let p = match path {
            None => return EFAULT,
            Some(p) => p,
        };
        if !buf_ok || buf.len() < STAT_SIZE {
            return EFAULT;
        }
        let res = fs.stat(p);
        return match res {
            Ok(st) => {
                let bytes = st.to_user_bytes();
                copy_front(buf, &bytes);
                0
            },
            Err(e) => fs_err(e),
        };
    }
    if nr == SYS_LOGIN {
        if !buf_ok {
            return EFAULT;
        }
        return if fs.verify_password(a0 as u32, buf) {
            0
        } else {
            EACCES
        };
    }
    ENOSYS
}

/// Copies `src` over the front of `dst`.
fn copy_front(dst: &mut [u8], src: &Vec<u8>)
    requires
        src@.len() <= old(dst)@.len(),
    ensures
        final(dst)@ == src@ + old(dst)@.subrange(src@.len() as int, old(dst)@.len() as int),
{
    let n = src.len();
    let mut i: usize = 0;
    while i < n
        invariant
            i <= n,
            n == src@.len(),
            n <= old(dst)@.len(),
            dst@.len() == old(dst)@.len(),
            forall|k: int| 0 <= k < i ==> #[trigger] dst@[k] == src@[k],
            forall|k: int| i <= k < dst@.len() ==> #[trigger] dst@[k] == old(dst)@[k],
        decreases n - i,
    {
        dst[i] = src[i];
        i = i + 1;
    }
    assert(dst@ =~= src@ + old(dst)@.subrange(n as int, old(dst)@.len() as int));
}

} // verus!
