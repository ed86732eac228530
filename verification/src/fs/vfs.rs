//! The logical file system: the rules the kernel applies around the FAT volume.
//!
//! It owns the mounted volume's image, the file control blocks, the descriptor tables and the
//! metadata overlay. Each operation that touches the volume makes its checks first, in the
//! order the call makes them (the `_begin` steps), then asks the volume (see `volume`), then
//! does its bookkeeping with what the volume answered (the `_end` steps, and `open_found` and
//! `stat_of`, which take the answer as an argument).
use vstd::prelude::*;
use vstd::string::*;
use crate::fs::fcb::{string_views, Fcb, FcbTable, fcb_paths, is_fresh_fcb, unique_paths, lemma_update_keeps_unique, lemma_push_keeps_unique};
use crate::fs::fd_table::{FdEntry, FdRegistry, FIRST_FILE_FD};
use crate::fs::overlay::{AuthDb, PermEntry, PermsDb, Rwx, path_index, lemma_path_index, matches_password};
use crate::fs::stat::Stat;
use crate::fs::volume::{
    Probe, fat_create, fat_list, fat_mkdir, fat_probe, fat_read, fat_remove, fat_rename, fat_write, volume_create, volume_list,
    volume_mkdir, volume_probe, volume_read, volume_remove, volume_rename, volume_write,
};
use crate::process::pid::Pid;

verus! {

#[derive(Debug, Clone, Copy, PartialEq, Eq, Structural)]
pub enum FsError {
    NotFound,
    AlreadyExists,
    PermissionDenied,
    Locked,
    /// A write, rename or delete of a file marked shared (immutable).
    IsShared,
    NotOpen,
    InvalidPath,
    NotADirectory,
    IsADirectory,
    NotMounted,
}

/// What `str::to_lowercase` gives for `s`.
pub uninterp spec fn lowercase(s: Seq<char>) -> Seq<char>;

/// Calls `str::to_lowercase`. Claimed: the result is a function of the text alone.
#[verifier::external_body]
fn to_lowercase(s: &str) -> (r: String)
    ensures
        r@ == lowercase(s@),
{
    s.to_lowercase()
}

/// `s` without its leading slashes.
pub open spec fn trim_slashes(s: Seq<char>) -> Seq<char>
    decreases s.len(),
{
    if s.len() > 0 && s[0] == '/' {
        trim_slashes(s.drop_first())
    } else {
        s
    }
}

/// Whether `path` is absolute.
pub open spec fn is_absolute(path: Seq<char>) -> bool {
    path.len() > 0 && path[0] == '/'
}

/// The rights a user has on an entry: its owner's, its group's or everyone's.
pub open spec fn rights_for(e: PermEntry, uid: u32, gid: u32) -> Rwx {
    if uid == e.uid {
        e.owner_rwx
    } else if gid == e.gid {
        e.group_rwx
    } else {
        e.world_rwx
    }
}

pub struct LogicalFs {
    fcbs: FcbTable,
    fds: FdRegistry,
    pub perms: PermsDb,
    pub auth: AuthDb,
    disk: Option<Vec<u8>>,
}

impl LogicalFs {
    /// The control blocks of the open files.
    pub closed spec fn fcb_seq(&self) -> Seq<Fcb> {
        self.fcbs.fcbs()
    }

    /// The descriptor tables.
    pub closed spec fn fd_reg(&self) -> FdRegistry {
        self.fds
    }

    /// The volume's image, once one is mounted.
    pub closed spec fn volume(&self) -> Option<Seq<u8>> {
        match self.disk {
            Some(v) => Some(v@),
            None => None,
        }
    }

    pub open spec fn is_mounted(&self) -> bool {
        self.volume() is Some
    }

    /// The permission overlay.
    pub closed spec fn perms_db(&self) -> PermsDb {
        self.perms
    }

    /// The password table.
    pub closed spec fn auth_db(&self) -> AuthDb {
        self.auth
    }

    pub open spec fn wf(&self) -> bool {
        &&& unique_paths(self.fcb_seq())
        &&& self.fd_reg().wf()
        &&& self.perms_db().wf()
        &&& self.auth_db().wf()
    }

    /// The position of the control block of `path`, or -1.
    pub open spec fn fcb_index(&self, path: Seq<char>) -> int {
        path_index(fcb_paths(self.fcb_seq()), path)
    }

    /// Whether an open file other than `path` has the same name up to case.
    pub open spec fn conflicts(&self, path: Seq<char>) -> bool {
        exists|i: int|
            0 <= i < self.fcb_seq().len() && #[trigger] self.fcb_seq()[i].path@ != path && lowercase(
                self.fcb_seq()[i].path@,
            ) == lowercase(path)
    }

    /// Whether the overlay lets `uid` (in group `gid`) read, or write, `path`. The superuser
    /// may do anything; a path with no recorded permissions is unrestricted.
    pub open spec fn allows(&self, path: Seq<char>, uid: u32, gid: u32, want_write: bool) -> bool {
        uid == 0 || !self.perms_db().view_map().contains_key(path) || {
            let rwx = rights_for(self.perms_db().view_map()[path], uid, gid);
            if want_write {
                rwx.0 & 2 != 0
            } else {
                rwx.0 & 4 != 0
            }
        }
    }

    pub fn new() -> (r: Self)
        ensures
            r.wf(),
            !r.is_mounted(),
            r.fcb_seq() == Seq::<Fcb>::empty(),
            forall|p: Pid, f: u64| #[trigger] r.fd_reg().lookup(p, f) is None,
            forall|p: Pid| #[trigger] r.fd_reg().next_for(p) == FIRST_FILE_FD,
            r.perms_db().view_map() == Map::<Seq<char>, PermEntry>::empty(),
            r.auth_db().view_map() == Map::<u32, crate::fs::overlay::AuthEntry>::empty(),
    {
        let r = Self { fcbs: FcbTable::new(), fds: FdRegistry::new(), perms: PermsDb::new(), auth: AuthDb::new(), disk: None };
        r
    }

    /// Mounts the volume whose image is `image`: from now on operations reach it.
    pub fn mount_disk(&mut self, image: Vec<u8>)
        ensures
            final(self).volume() == Some(image@),
            final(self).fcb_seq() == old(self).fcb_seq(),
            final(self).fd_reg() == old(self).fd_reg(),
            final(self).perms_db() == old(self).perms_db(),
            final(self).auth_db() == old(self).auth_db(),
    {
        self.disk = Some(image);
    }

    pub fn is_mounted_now(&self) -> (r: bool)
        ensures
            r == self.is_mounted(),
    {
        self.disk.is_some()
    }

    /// The volume's name for an absolute path: the path without its leading slashes.
    pub fn to_fat_path(path: &str) -> (r: Result<&str, FsError>)
        ensures
            match r {
                Ok(p) => is_absolute(path@) && p@ == trim_slashes(path@),
                Err(e) => !is_absolute(path@) && e == FsError::InvalidPath,
            },
    {
        let n = path.unicode_len();
        if n == 0 || path.get_char(0) != '/' {
            return Err(FsError::InvalidPath);
        }
        let mut k: usize = 0;
        proof {
            assert(path@.subrange(0, n as int) =~= path@);
        }
        while k < n && path.get_char(k) == '/'
            invariant
                k <= n,
                n == path@.len(),
                trim_slashes(path@.subrange(k as int, n as int)) == trim_slashes(path@),
            decreases n - k,
        {
            proof {
                let s = path@.subrange(k as int, n as int);
                assert(s.drop_first() =~= path@.subrange(k + 1, n as int));
            }
            k = k + 1;
        }
        let rest = path.substring_char(k, n);
        proof {
            let s = path@.subrange(k as int, n as int);
            assert(s.len() == 0 || s[0] != '/');
        }
        Ok(rest)
    }

    /// Whether an open file other than `path` has the same name up to case. Only open files
    /// are looked at.
    fn case_conflict(&self, path: &str) -> (r: bool)
        requires
            self.wf(),
        ensures
            r == self.conflicts(path@),
    {
        let lower = to_lowercase(path);
        let paths = self.fcbs.paths();
        let ghost v = string_views(paths@);
        let key = path.to_owned();
        let mut i: usize = 0;
        while i < paths.len()
            invariant
                i <= paths@.len(),
                v == string_views(paths@),
                v.to_set() == fcb_paths(self.fcb_seq()).to_set(),
                key@ == path@,
                lower@ == lowercase(path@),
                forall|k: int| 0 <= k < i ==> !(#[trigger] v[k] != path@ && lowercase(v[k]) == lowercase(path@)),
            decreases paths@.len() - i,
        {
            if !(paths[i] == key) {
                let l = to_lowercase(paths[i].as_str());
                if l == lower {
                    proof {
                        assert(v[i as int] == paths@[i as int]@);
                        assert(v.contains(v[i as int]));
                        assert(fcb_paths(self.fcb_seq()).to_set().contains(v[i as int]));
                        let j = choose|j: int| 0 <= j < fcb_paths(self.fcb_seq()).len() && fcb_paths(self.fcb_seq())[j] == v[i as int];
                        assert(self.fcb_seq()[j].path@ == v[i as int]);
                    }
                    return true;
                }
            }
            proof {
                assert(v[i as int] == paths@[i as int]@);
            }
            i = i + 1;
        }
        proof {
            if self.conflicts(path@) {
                let j = choose|j: int|
                    0 <= j < self.fcb_seq().len() && #[trigger] self.fcb_seq()[j].path@ != path@ && lowercase(
                        self.fcb_seq()[j].path@,
                    ) == lowercase(path@);
                let q = self.fcb_seq()[j].path@;
                assert(fcb_paths(self.fcb_seq())[j] == q);
                assert(fcb_paths(self.fcb_seq()).to_set().contains(q));
                assert(v.to_set().contains(q));
                let k = choose|k: int| 0 <= k < v.len() && v[k] == q;
                assert(!(v[k] != path@ && lowercase(v[k]) == lowercase(path@)));
            }
        }
        false
    }

    /// Whether the overlay lets `uid` read (or write) `path`.
    fn check_perm(&self, path: &str, uid: u32, gid: u32, want_write: bool) -> (r: Result<(), FsError>)
        requires
            self.wf(),
        ensures
            match r {
                Ok(()) => self.allows(path@, uid, gid, want_write),
                Err(e) => !self.allows(path@, uid, gid, want_write) && e == FsError::PermissionDenied,
            },
    {
        if uid == 0 {
            return Ok(());
        }
        let entry = match self.perms.get(path) {
            Some(e) => e,
            None => return Ok(()),
        };
        let rwx = if uid == entry.uid {
            entry.owner_rwx
        } else if gid == entry.gid {
            entry.group_rwx
        } else {
            entry.world_rwx
        };
        if want_write && !rwx.can_write() {
            return Err(FsError::PermissionDenied);
        }
        if !want_write && !rwx.can_read() {
            return Err(FsError::PermissionDenied);
        }
        Ok(())
    }

    /// Locks the control block of `path` for `pid` (made fresh if the file had none) and gives
    /// `pid` a descriptor for it; fails, changing nothing, if another open holds the lock.
    fn lock_and_alloc(&mut self, path: &str, pid: Pid) -> (r: Result<u64, FsError>)
        requires
            old(self).wf(),
            old(self).fcb_index(path@) >= 0 ==> old(self).fcb_seq()[old(self).fcb_index(path@)].open_count < u32::MAX,
            old(self).fd_reg().next_for(pid) < u64::MAX,
        ensures
            final(self).wf(),
            final(self).volume() == old(self).volume(),
            final(self).perms_db() == old(self).perms_db(),
            final(self).auth_db() == old(self).auth_db(),
            ({
                let i = old(self).fcb_index(path@);
                if i >= 0 && old(self).fcb_seq()[i].locked_by is Some {
                    &&& r == Err::<u64, FsError>(FsError::Locked)
                    &&& final(self).fcb_seq() == old(self).fcb_seq()
                    &&& final(self).fd_reg() == old(self).fd_reg()
                } else {
                    &&& r == Ok::<u64, FsError>(old(self).fd_reg().next_for(pid))
                    &&& opened_for(old(self).fcb_seq(), final(self).fcb_seq(), path@, pid)
                    &&& fd_added(old(self).fd_reg(), final(self).fd_reg(), pid, path@)
                }
            }),
    {
        let ghost before = self.fcbs.fcbs();
        proof {
            lemma_path_index(fcb_paths(before), path@);
        }
        let fcb = self.fcbs.open(path);
        if fcb.locked_by.is_some() {
            return Err(FsError::Locked);
        }
        fcb.locked_by = Some(pid);
        fcb.open_count = fcb.open_count + 1;
        let ghost f_after = *fcb;
        proof {
            let i = path_index(fcb_paths(before), path@);
            if i >= 0 {
                assert(fcb_paths(before)[i] == before[i].path@);
                lemma_update_keeps_unique(before, i, *fcb);
            } else {
                lemma_push_keeps_unique(before, *fcb);
            }
        }
        let fd = self.fds.alloc_for(pid, path.to_owned());
        proof {
            let i = path_index(fcb_paths(before), path@);
            if i >= 0 {
                let f = before[i];
                assert(f_after == Fcb { locked_by: Some(pid), open_count: (f.open_count + 1) as u32, ..f });
                assert(self.fcbs.fcbs() == before.update(i, f_after));
            } else {
                assert(self.fcbs.fcbs() == before.push(f_after));
                assert(self.fcbs.fcbs().subrange(0, before.len() as int) =~= before);
            }
        }
        Ok(fd)
    }

    /// Opens `path` for `pid` as user `uid`/`gid`, given whether the volume has the file
    /// (`open` asks it once every earlier check passed).
    pub fn open_found(&mut self, path: &str, pid: Pid, uid: u32, gid: u32, found: bool) -> (r: Result<u64, FsError>)
        requires
            old(self).wf(),
            old(self).fcb_index(path@) >= 0 ==> old(self).fcb_seq()[old(self).fcb_index(path@)].open_count < u32::MAX,
            old(self).fd_reg().next_for(pid) < u64::MAX,
        ensures
            final(self).wf(),
            final(self).volume() == old(self).volume(),
            final(self).perms_db() == old(self).perms_db(),
            final(self).auth_db() == old(self).auth_db(),
            old(self).conflicts(path@) ==> r == Err::<u64, FsError>(FsError::AlreadyExists),
            !old(self).conflicts(path@) && !old(self).allows(path@, uid, gid, false) ==> r == Err::<u64, FsError>(
                FsError::PermissionDenied,
            ),
            !old(self).conflicts(path@) && old(self).allows(path@, uid, gid, false) && !is_absolute(path@) ==> r
                == Err::<u64, FsError>(FsError::InvalidPath),
            !old(self).conflicts(path@) && old(self).allows(path@, uid, gid, false) && is_absolute(path@)
                && !old(self).is_mounted() ==> r == Err::<u64, FsError>(FsError::NotMounted),
            !old(self).conflicts(path@) && old(self).allows(path@, uid, gid, false) && is_absolute(path@)
                && old(self).is_mounted() && !found ==> r == Err::<u64, FsError>(FsError::NotFound),
            !old(self).conflicts(path@) && old(self).allows(path@, uid, gid, false) && is_absolute(path@)
                && old(self).is_mounted() && found ==> {
                let i = old(self).fcb_index(path@);
                if i >= 0 && old(self).fcb_seq()[i].locked_by is Some {
                    r == Err::<u64, FsError>(FsError::Locked)
                } else {
                    &&& r == Ok::<u64, FsError>(old(self).fd_reg().next_for(pid))
                    &&& opened_for(old(self).fcb_seq(), final(self).fcb_seq(), path@, pid)
                    &&& fd_added(old(self).fd_reg(), final(self).fd_reg(), pid, path@)
                }
            },
            r is Err ==> final(self).fcb_seq() == old(self).fcb_seq() && final(self).fd_reg() == old(self).fd_reg(),
    {
        if self.case_conflict(path) {
            return Err(FsError::AlreadyExists);
        }
        self.check_perm(path, uid, gid, false)?;
        let _fat = Self::to_fat_path(path)?;
        if self.disk.is_none() {
            return Err(FsError::NotMounted);
        }
        if !found {
            return Err(FsError::NotFound);
        }
        self.lock_and_alloc(path, pid)
    }

    /// Closes `fd` of `pid`: one open fewer on the file, its lock released if `pid` holds it,
    /// its control block dropped once nothing has it open.
    pub fn close(&mut self, fd: u64, pid: Pid) -> (r: Result<(), FsError>)
        requires
            old(self).wf(),
        ensures
            final(self).wf(),
            close_outcome(*old(self), *final(self), fd, pid, r),
    {
        let entry = match self.fds.remove_for(pid, fd) {
            Some(e) => e,
            None => return Err(FsError::NotOpen),
        };
        let path = entry.path;
        let ghost before = self.fcbs.fcbs();
        proof {
            lemma_path_index(fcb_paths(before), path@);
        }
        let mut remove = false;
        match self.fcbs.get_mut(path.as_str()) {
            Some(fcb) => {
                fcb.open_count = if fcb.open_count > 0 { fcb.open_count - 1 } else { 0 };
                if fcb.locked_by == Some(pid) {
                    fcb.locked_by = None;
                }
                if fcb.open_count == 0 {
                    remove = true;
                }
                proof {
                    let i = path_index(fcb_paths(before), path@);
                    let f = before[i];
                    assert(fcb_paths(before)[i] == before[i].path@);
                    lemma_update_keeps_unique(before, i, *fcb);
                    let count = if f.open_count > 0 { (f.open_count - 1) as u32 } else { 0u32 };
                    let lock = if f.locked_by == Some(pid) { None } else { f.locked_by };
                    assert(*fcb == Fcb { open_count: count, locked_by: lock, ..f });
                }
            },
            None => {},
        }
        if remove {
            let ghost mid = self.fcbs.fcbs();
            proof {
                lemma_path_index(fcb_paths(mid), path@);
                assert(fcb_paths(mid) == fcb_paths(before));
                let i = path_index(fcb_paths(before), path@);
                assert(mid.remove(i) =~= before.remove(i));
            }
            self.fcbs.remove(path.as_str());
        }
        Ok(())
    }

    /// The path and cursor of `fd` of `pid`, when `uid`/`gid` may read it: every check before
    /// the volume reads the file at the cursor.
    pub fn read_begin(&mut self, fd: u64, pid: Pid, uid: u32, gid: u32) -> (r: Result<(String, u64), FsError>)
        requires
            old(self).wf(),
        ensures
            final(self).wf(),
            final(self).fcb_seq() == old(self).fcb_seq(),
            same_fds(old(self).fd_reg(), final(self).fd_reg()),
            final(self).volume() == old(self).volume(),
            final(self).perms_db() == old(self).perms_db(),
            final(self).auth_db() == old(self).auth_db(),
            old(self).fd_reg().lookup(pid, fd) is None ==> r == Err::<(String, u64), FsError>(FsError::NotOpen),
            old(self).fd_reg().lookup(pid, fd) matches Some(p) ==> {
                let i = old(self).fcb_index(p);
                if !old(self).allows(p, uid, gid, false) {
                    r == Err::<(String, u64), FsError>(FsError::PermissionDenied)
                } else if i < 0 {
                    r == Err::<(String, u64), FsError>(FsError::NotOpen)
                } else if !is_absolute(p) {
                    r == Err::<(String, u64), FsError>(FsError::InvalidPath)
                } else if !old(self).is_mounted() {
                    r == Err::<(String, u64), FsError>(FsError::NotMounted)
                } else {
                    r matches Ok((q, c)) && q@ == p && c == old(self).fcb_seq()[i].cursor
                }
            },
    {
        let path = match self.fds.get_path(pid, fd) {
            Some(p) => p,
            None => return Err(FsError::NotOpen),
        };
        self.check_perm(path.as_str(), uid, gid, false)?;
        let cursor = match self.fcbs.get(path.as_str()) {
            Some(f) => f.cursor,
            None => return Err(FsError::NotOpen),
        };
        let _fat = Self::to_fat_path(path.as_str())?;
        if self.disk.is_none() {
            return Err(FsError::NotMounted);
        }
        Ok((path, cursor))
    }

    /// After the volume read `n` bytes of `path` at `cursor`: the cursor moves past them.
    pub fn read_end(&mut self, path: &str, cursor: u64, n: usize) -> (r: Result<usize, FsError>)
        requires
            old(self).wf(),
            cursor + n <= u64::MAX,
        ensures
            final(self).wf(),
            final(self).fd_reg() == old(self).fd_reg(),
            final(self).volume() == old(self).volume(),
            final(self).perms_db() == old(self).perms_db(),
            final(self).auth_db() == old(self).auth_db(),
            ({
                let i = old(self).fcb_index(path@);
                if i < 0 {
                    r == Err::<usize, FsError>(FsError::NotOpen) && final(self).fcb_seq() == old(self).fcb_seq()
                } else {
                    let f = old(self).fcb_seq()[i];
                    &&& r == Ok::<usize, FsError>(n)
                    &&& final(self).fcb_seq() == old(self).fcb_seq().update(i, Fcb { cursor: (cursor + n) as u64, ..f })
                }
            }),
    {
        let ghost before = self.fcbs.fcbs();
        proof {
            lemma_path_index(fcb_paths(before), path@);
        }
        match self.fcbs.get_mut(path) {
            Some(f) => {
                f.cursor = cursor + n as u64;
                proof {
                    let i = path_index(fcb_paths(before), path@);
                    assert(fcb_paths(before)[i] == before[i].path@);
                    lemma_update_keeps_unique(before, i, *f);
                }
                Ok(n)
            },
            None => Err(FsError::NotOpen),
        }
    }

    /// The path and cursor of `fd` of `pid`, when the file is not shared and `uid`/`gid` may
    /// write it: every check before the volume writes the file at the cursor.
    pub fn write_begin(&mut self, fd: u64, pid: Pid, uid: u32, gid: u32) -> (r: Result<(String, u64), FsError>)
        requires
            old(self).wf(),
        ensures
            final(self).wf(),
            final(self).fcb_seq() == old(self).fcb_seq(),
            same_fds(old(self).fd_reg(), final(self).fd_reg()),
            final(self).volume() == old(self).volume(),
            final(self).perms_db() == old(self).perms_db(),
            final(self).auth_db() == old(self).auth_db(),
            old(self).fd_reg().lookup(pid, fd) is None ==> r == Err::<(String, u64), FsError>(FsError::NotOpen),
            old(self).fd_reg().lookup(pid, fd) matches Some(p) ==> {
                let i = old(self).fcb_index(p);
                if i < 0 {
                    r == Err::<(String, u64), FsError>(FsError::NotOpen)
                } else if old(self).fcb_seq()[i].is_shared {
                    r == Err::<(String, u64), FsError>(FsError::IsShared)
                } else if !old(self).allows(p, uid, gid, true) {
                    r == Err::<(String, u64), FsError>(FsError::PermissionDenied)
                } else if !is_absolute(p) {
                    r == Err::<(String, u64), FsError>(FsError::InvalidPath)
                } else if !old(self).is_mounted() {
                    r == Err::<(String, u64), FsError>(FsError::NotMounted)
                } else {
                    r matches Ok((q, c)) && q@ == p && c == old(self).fcb_seq()[i].cursor
                }
            },
    {
        let path = match self.fds.get_path(pid, fd) {
            Some(p) => p,
            None => return Err(FsError::NotOpen),
        };
        let (shared, cursor) = match self.fcbs.get(path.as_str()) {
            Some(f) => (f.is_shared, f.cursor),
            None => return Err(FsError::NotOpen),
        };
        if shared {
            return Err(FsError::IsShared);
        }
        self.check_perm(path.as_str(), uid, gid, true)?;
        let _fat = Self::to_fat_path(path.as_str())?;
        if self.disk.is_none() {
            return Err(FsError::NotMounted);
        }
        Ok((path, cursor))
    }

    /// After the volume wrote `len` bytes of `path` at `cursor`: the cursor moves past them
    /// and the file is marked dirty.
    pub fn write_end(&mut self, path: &str, cursor: u64, len: usize) -> (r: Result<usize, FsError>)
        requires
            old(self).wf(),
            cursor + len <= u64::MAX,
        ensures
            final(self).wf(),
            final(self).fd_reg() == old(self).fd_reg(),
            final(self).volume() == old(self).volume(),
            final(self).perms_db() == old(self).perms_db(),
            final(self).auth_db() == old(self).auth_db(),
            ({
                let i = old(self).fcb_index(path@);
                if i < 0 {
                    r == Err::<usize, FsError>(FsError::NotOpen) && final(self).fcb_seq() == old(self).fcb_seq()
                } else {
                    let f = old(self).fcb_seq()[i];
                    &&& r == Ok::<usize, FsError>(len)
                    &&& final(self).fcb_seq() == old(self).fcb_seq().update(
                        i,
                        Fcb { cursor: (cursor + len) as u64, dirty: true, ..f },
                    )
                }
            }),
    {
        let ghost before = self.fcbs.fcbs();
        proof {
            lemma_path_index(fcb_paths(before), path@);
        }
        match self.fcbs.get_mut(path) {
            Some(f) => {
                f.cursor = cursor + len as u64;
                f.dirty = true;
                proof {
                    let i = path_index(fcb_paths(before), path@);
                    assert(fcb_paths(before)[i] == before[i].path@);
                    lemma_update_keeps_unique(before, i, *f);
                }
                Ok(len)
            },
            None => Err(FsError::NotOpen),
        }
    }

    /// Moves the cursor of `fd` of `pid` to `offset`.
    pub fn seek(&mut self, fd: u64, pid: Pid, offset: u64) -> (r: Result<(), FsError>)
        requires
            old(self).wf(),
        ensures
            final(self).wf(),
            seek_outcome(*old(self), *final(self), fd, pid, offset, r),
    {
        let path = match self.fds.get_path(pid, fd) {
            Some(p) => p,
            None => return Err(FsError::NotOpen),
        };
        let ghost before = self.fcbs.fcbs();
        proof {
            lemma_path_index(fcb_paths(before), path@);
        }
        match self.fcbs.get_mut(path.as_str()) {
            Some(f) => {
                f.cursor = offset;
                proof {
                    let i = path_index(fcb_paths(before), path@);
                    assert(fcb_paths(before)[i] == before[i].path@);
                    lemma_update_keeps_unique(before, i, *f);
                }
                Ok(())
            },
            None => Err(FsError::NotOpen),
        }
    }

    /// Every check before the volume creates `path`.
    pub fn create_begin(&self, path: &str) -> (r: Result<(), FsError>)
        requires
            self.wf(),
        ensures
            self.conflicts(path@) ==> r == Err::<(), FsError>(FsError::AlreadyExists),
            !self.conflicts(path@) && !is_absolute(path@) ==> r == Err::<(), FsError>(FsError::InvalidPath),
            !self.conflicts(path@) && is_absolute(path@) && !self.is_mounted() ==> r == Err::<(), FsError>(FsError::NotMounted),
            !self.conflicts(path@) && is_absolute(path@) && self.is_mounted() ==> r == Ok::<(), FsError>(()),
    {
        if self.case_conflict(path) {
            return Err(FsError::AlreadyExists);
        }
        let _fat = Self::to_fat_path(path)?;
        if self.disk.is_none() {
            return Err(FsError::NotMounted);
        }
        Ok(())
    }

    /// After the volume created `path`: `pid` opens it, as `open` does once the file is found.
    pub fn create_end(&mut self, path: &str, pid: Pid) -> (r: Result<u64, FsError>)
        requires
            old(self).wf(),
            old(self).fcb_index(path@) >= 0 ==> old(self).fcb_seq()[old(self).fcb_index(path@)].open_count < u32::MAX,
            old(self).fd_reg().next_for(pid) < u64::MAX,
        ensures
            final(self).wf(),
            final(self).volume() == old(self).volume(),
            final(self).perms_db() == old(self).perms_db(),
            final(self).auth_db() == old(self).auth_db(),
            ({
                let i = old(self).fcb_index(path@);
                if i >= 0 && old(self).fcb_seq()[i].locked_by is Some {
                    &&& r == Err::<u64, FsError>(FsError::Locked)
                    &&& final(self).fcb_seq() == old(self).fcb_seq()
                    &&& final(self).fd_reg() == old(self).fd_reg()
                } else {
                    &&& r == Ok::<u64, FsError>(old(self).fd_reg().next_for(pid))
                    &&& opened_for(old(self).fcb_seq(), final(self).fcb_seq(), path@, pid)
                    &&& fd_added(old(self).fd_reg(), final(self).fd_reg(), pid, path@)
                }
            }),
    {
        self.lock_and_alloc(path, pid)
    }

    /// Every check before the volume deletes `path`.
    pub fn delete_begin(&self, path: &str) -> (r: Result<(), FsError>)
        requires
            self.wf(),
        ensures
            ({
                let i = self.fcb_index(path@);
                if i >= 0 && self.fcb_seq()[i].is_shared {
                    r == Err::<(), FsError>(FsError::IsShared)
                } else if !is_absolute(path@) {
                    r == Err::<(), FsError>(FsError::InvalidPath)
                } else if !self.is_mounted() {
                    r == Err::<(), FsError>(FsError::NotMounted)
                } else {
                    r == Ok::<(), FsError>(())
                }
            }),
    {
        proof {
            lemma_path_index(fcb_paths(self.fcb_seq()), path@);
        }
        match self.fcbs.find_shared(path) {
            Some(true) => return Err(FsError::IsShared),
            _ => {},
        }
        let _fat = Self::to_fat_path(path)?;
        if self.disk.is_none() {
            return Err(FsError::NotMounted);
        }
        Ok(())
    }

    /// After the volume deleted `path`: its control block and its permissions go.
    pub fn delete_end(&mut self, path: &str)
        requires
            old(self).wf(),
        ensures
            final(self).wf(),
            final(self).fd_reg() == old(self).fd_reg(),
            final(self).volume() == old(self).volume(),
            final(self).auth_db() == old(self).auth_db(),
            final(self).perms_db().view_map() == old(self).perms_db().view_map().remove(path@),
            ({
                let i = old(self).fcb_index(path@);
                if i >= 0 {
                    final(self).fcb_seq() == old(self).fcb_seq().remove(i)
                } else {
                    final(self).fcb_seq() == old(self).fcb_seq()
                }
            }),
    {
        self.fcbs.remove(path);
        self.perms.remove(path);
    }

    /// Marks the open file `path` shared: immutable from now on.
    pub fn mark_shared(&mut self, path: &str) -> (r: Result<(), FsError>)
        requires
            old(self).wf(),
        ensures
            final(self).wf(),
            mark_shared_outcome(*old(self), *final(self), path@, r),
    {
        let ghost before = self.fcbs.fcbs();
        proof {
            lemma_path_index(fcb_paths(before), path@);
        }
        match self.fcbs.get_mut(path) {
            Some(f) => {
                f.is_shared = true;
                proof {
                    let i = path_index(fcb_paths(before), path@);
                    assert(fcb_paths(before)[i] == before[i].path@);
                    lemma_update_keeps_unique(before, i, *f);
                }
                Ok(())
            },
            None => Err(FsError::NotFound),
        }
    }

    /// Sets the rights of the owner, the group and everyone on `path`, when the overlay has
    /// an entry for it; a path without one is left without one.
    pub fn chmod(&mut self, path: &str, owner: u8, group: u8, world: u8) -> (r: Result<(), FsError>)
        requires
            old(self).wf(),
        ensures
            final(self).wf(),
            chmod_outcome(*old(self), *final(self), path@, owner, group, world, r),
    {
        match self.perms.get(path) {
            Some(e) => {
                let updated = PermEntry { uid: e.uid, gid: e.gid, owner_rwx: Rwx(owner), group_rwx: Rwx(group), world_rwx: Rwx(world) };
                self.perms.set(path.to_owned(), updated);
            },
            None => {},
        }
        Ok(())
    }

    /// Whether `password` is that of `uid`.
    pub fn verify_password(&self, uid: u32, password: &[u8]) -> (r: bool)
        requires
            self.wf(),
        ensures
            r == (self.auth_db().view_map().contains_key(uid) && matches_password(self.auth_db().view_map()[uid], password@)),
    {
        self.auth.verify(uid, password)
    }

    /// Every check before the volume renames `old` to `new`. Control blocks and permissions
    /// stay under the old name.
    pub fn rename_begin(&self, old: &str, new: &str) -> (r: Result<(), FsError>)
        requires
            self.wf(),
        ensures
            ({
                let i = self.fcb_index(old@);
                if self.conflicts(new@) {
                    r == Err::<(), FsError>(FsError::AlreadyExists)
                } else if i >= 0 && self.fcb_seq()[i].is_shared {
                    r == Err::<(), FsError>(FsError::IsShared)
                } else if !is_absolute(old@) || !is_absolute(new@) {
                    r == Err::<(), FsError>(FsError::InvalidPath)
                } else if !self.is_mounted() {
                    r == Err::<(), FsError>(FsError::NotMounted)
                } else {
                    r == Ok::<(), FsError>(())
                }
            }),
    {
        if self.case_conflict(new) {
            return Err(FsError::AlreadyExists);
        }
        proof {
            lemma_path_index(fcb_paths(self.fcb_seq()), old@);
        }
        match self.fcbs.find_shared(old) {
            Some(true) => return Err(FsError::IsShared),
            _ => {},
        }
        let _old_fat = Self::to_fat_path(old)?;
        let _new_fat = Self::to_fat_path(new)?;
        if self.disk.is_none() {
            return Err(FsError::NotMounted);
        }
        Ok(())
    }

    /// Every check before the volume makes the directory `path`.
    pub fn mkdir_begin(&self, path: &str) -> (r: Result<(), FsError>)
        requires
            self.wf(),
        ensures
            self.conflicts(path@) ==> r == Err::<(), FsError>(FsError::AlreadyExists),
            !self.conflicts(path@) && !is_absolute(path@) ==> r == Err::<(), FsError>(FsError::InvalidPath),
            !self.conflicts(path@) && is_absolute(path@) && !self.is_mounted() ==> r == Err::<(), FsError>(FsError::NotMounted),
            !self.conflicts(path@) && is_absolute(path@) && self.is_mounted() ==> r == Ok::<(), FsError>(()),
    {
        self.create_begin(path)
    }

    /// The metadata of `path`, given what the volume reports of it (`None`: neither a file
    /// nor a directory): size and kind from the volume, owner and rights from the overlay
    /// (zero where it has no entry).
    pub fn stat_of(&self, path: &str, found: Option<(u64, bool)>) -> (r: Result<Stat, FsError>)
        requires
            self.wf(),
        ensures
            match found {
                None => r == Err::<Stat, FsError>(FsError::NotFound),
                Some((size, is_dir)) => r matches Ok(s) && s.size == size && s.is_dir == (if is_dir { 1u8 } else { 0u8 })
                    && if self.perms_db().view_map().contains_key(path@) {
                    let e = self.perms_db().view_map()[path@];
                    s.uid == e.uid && s.gid == e.gid && s.owner_rwx == e.owner_rwx.0 && s.group_rwx == e.group_rwx.0
                        && s.world_rwx == e.world_rwx.0
                } else {
                    s.uid == 0 && s.gid == 0 && s.owner_rwx == 0 && s.group_rwx == 0 && s.world_rwx == 0
                },
            },
    {
        let (size, is_dir) = match found {
            Some(f) => f,
            None => return Err(FsError::NotFound),
        };
        let mut s = Stat::zeroed();
        s.size = size;
        s.is_dir = if is_dir { 1 } else { 0 };
        match self.perms.get(path) {
            Some(e) => {
                s.uid = e.uid;
                s.gid = e.gid;
                s.owner_rwx = e.owner_rwx.0;
                s.group_rwx = e.group_rwx.0;
                s.world_rwx = e.world_rwx.0;
            },
            None => {},
        }
        Ok(s)
    }

    /// Whether `pid` can take one more descriptor on `path`: the file's open count and the
    /// process's descriptor counter both have room.
    pub open spec fn open_room(&self, path: Seq<char>, pid: Pid) -> bool {
        &&& self.fcb_index(path) >= 0 ==> self.fcb_seq()[self.fcb_index(path)].open_count < u32::MAX
        &&& self.fd_reg().next_for(pid) < u64::MAX
    }

    pub fn has_open_room(&self, path: &str, pid: Pid) -> (r: bool)
        requires
            self.wf(),
        ensures
            r == self.open_room(path@, pid),
    {
        if self.fds.next_fd_for(pid) == u64::MAX {
            return false;
        }
        match self.fcbs.get(path) {
            Some(f) => f.open_count < u32::MAX,
            None => true,
        }
    }

    /// The control block table, for the boot-time loader and the self-tests.
    pub fn fcb_count(&self) -> (r: usize)
        ensures
            r == self.fcb_seq().len(),
    {
        self.fcbs.len()
    }
}

/// What an open of `path` for `pid` as `uid`/`gid` leaves: `b` is the file system after it, `r` the
/// result.
pub open spec fn open_outcome(a: LogicalFs, b: LogicalFs, path: Seq<char>, pid: Pid, uid: u32, gid: u32, r: Result<u64, FsError>) -> bool {
    &&& b.perms_db() == a.perms_db()
    &&& b.auth_db() == a.auth_db()
    &&& open_check(a, path, uid, gid) matches Err(e) ==> r == Err::<u64, FsError>(e) && same_tables(
        a,
        b,
    ) && b.volume() == a.volume()
    &&& open_check(a, path, uid, gid) is Ok ==> {
        let (p, img) = fat_probe(a.image(), trim_slashes(path));
        &&& b.volume() == Some(img)
        &&& if p is File || p is Unreadable {
            open_locked(a, b, path, pid, r)
        } else {
            r == Err::<u64, FsError>(FsError::NotFound) && same_tables(a, b)
        }
    }
}

/// What closing `fd` of `pid` leaves: `b` is the file system after it, `r` the result.
pub open spec fn close_outcome(a: LogicalFs, b: LogicalFs, fd: u64, pid: Pid, r: Result<(), FsError>) -> bool {
    &&& b.volume() == a.volume()
    &&& b.perms_db() == a.perms_db()
    &&& b.auth_db() == a.auth_db()
    &&& a.fd_reg().lookup(pid, fd) is None ==> r == Err::<(), FsError>(FsError::NotOpen)
        && b.fcb_seq() == a.fcb_seq()
    &&& a.fd_reg().lookup(pid, fd) matches Some(p) ==> {
        &&& r == Ok::<(), FsError>(())
        &&& forall|q: Pid, f: u64| #[trigger] b.fd_reg().lookup(q, f) == (if q == pid && f == fd {
            None
        } else {
            a.fd_reg().lookup(q, f)
        })
        &&& closed_for(a.fcb_seq(), b.fcb_seq(), p, pid)
    }
}

/// What a read from `fd` of `pid` as `uid`/`gid` into a buffer holding `out0` (`out1` after)
/// leaves: `b` is the file system after it, `r` the result.
pub open spec fn read_outcome(a: LogicalFs, b: LogicalFs, fd: u64, pid: Pid, uid: u32, gid: u32, out0: Seq<u8>, out1: Seq<u8>, r: Result<usize, FsError>) -> bool {
    &&& out1.len() == out0.len()
    &&& same_fds(a.fd_reg(), b.fd_reg())
    &&& b.perms_db() == a.perms_db()
    &&& b.auth_db() == a.auth_db()
    &&& read_check(a, fd, pid, uid, gid) matches Err(e) ==> r == Err::<usize, FsError>(e)
        && b.fcb_seq() == a.fcb_seq() && b.volume() == a.volume()
        && out1 == out0
    &&& read_check(a, fd, pid, uid, gid) matches Ok((p, c)) ==> {
        let (res, img) = fat_read(a.image(), trim_slashes(p), c, out0.len());
        let i = a.fcb_index(p);
        &&& b.volume() == Some(img)
        &&& match res {
            Some(Some(bytes)) => if c + bytes.len() <= u64::MAX {
                &&& r == Ok::<usize, FsError>(bytes.len() as usize)
                &&& out1 == bytes + out0.subrange(bytes.len() as int, out0.len() as int)
                &&& b.fcb_seq() == a.fcb_seq().update(
                    i,
                    Fcb { cursor: (c + bytes.len()) as u64, ..a.fcb_seq()[i] },
                )
            } else {
                r == Err::<usize, FsError>(FsError::InvalidPath) && b.fcb_seq() == a.fcb_seq()
                    && out1 == out0
            },
            Some(None) => r == Err::<usize, FsError>(FsError::InvalidPath) && b.fcb_seq()
                == a.fcb_seq() && out1 == out0,
            None => r == Err::<usize, FsError>(FsError::NotFound) && b.fcb_seq() == a.fcb_seq()
                && out1 == out0,
        }
    }
}

/// What a write of `data` through `fd` of `pid` as `uid`/`gid` leaves: `b` is the file system after
/// it, `r` the result.
pub open spec fn write_outcome(a: LogicalFs, b: LogicalFs, fd: u64, pid: Pid, uid: u32, gid: u32, data: Seq<u8>, r: Result<usize, FsError>) -> bool {
    &&& same_fds(a.fd_reg(), b.fd_reg())
    &&& b.perms_db() == a.perms_db()
    &&& b.auth_db() == a.auth_db()
    &&& write_check(a, fd, pid, uid, gid) matches Err(e) ==> r == Err::<usize, FsError>(e)
        && b.fcb_seq() == a.fcb_seq() && b.volume() == a.volume()
    &&& write_check(a, fd, pid, uid, gid) matches Ok((p, c)) ==> {
        let i = a.fcb_index(p);
        if c + data.len() > u64::MAX {
            r == Err::<usize, FsError>(FsError::InvalidPath) && b.fcb_seq() == a.fcb_seq()
                && b.volume() == a.volume()
        } else {
            let (res, img) = fat_write(a.image(), trim_slashes(p), c, data);
            &&& b.volume() == Some(img)
            &&& match res {
                Some(true) => {
                    &&& r == Ok::<usize, FsError>(data.len() as usize)
                    &&& b.fcb_seq() == a.fcb_seq().update(
                        i,
                        Fcb { cursor: (c + data.len()) as u64, dirty: true, ..a.fcb_seq()[i] },
                    )
                },
                Some(false) => r == Err::<usize, FsError>(FsError::InvalidPath) && b.fcb_seq()
                    == a.fcb_seq(),
                None => r == Err::<usize, FsError>(FsError::NotFound) && b.fcb_seq() == a.fcb_seq(),
            }
        }
    }
}

/// What moving the cursor of `fd` of `pid` to `offset` leaves: `b` is the file system after it, `r`
/// the result.
pub open spec fn seek_outcome(a: LogicalFs, b: LogicalFs, fd: u64, pid: Pid, offset: u64, r: Result<(), FsError>) -> bool {
    &&& same_fds(a.fd_reg(), b.fd_reg())
    &&& b.volume() == a.volume()
    &&& b.perms_db() == a.perms_db()
    &&& b.auth_db() == a.auth_db()
    &&& a.fd_reg().lookup(pid, fd) is None ==> r == Err::<(), FsError>(FsError::NotOpen)
        && b.fcb_seq() == a.fcb_seq()
    &&& a.fd_reg().lookup(pid, fd) matches Some(p) ==> {
        let i = a.fcb_index(p);
        if i < 0 {
            r == Err::<(), FsError>(FsError::NotOpen) && b.fcb_seq() == a.fcb_seq()
        } else {
            &&& r == Ok::<(), FsError>(())
            &&& b.fcb_seq() == a.fcb_seq().update(i, Fcb { cursor: offset, ..a.fcb_seq()[i] })
        }
    }
}

/// What creating and opening `path` for `pid` leaves: `b` is the file system after it, `r` the
/// result.
pub open spec fn create_outcome(a: LogicalFs, b: LogicalFs, path: Seq<char>, pid: Pid, r: Result<u64, FsError>) -> bool {
    &&& b.perms_db() == a.perms_db()
    &&& b.auth_db() == a.auth_db()
    &&& create_check(a, path) matches Err(e) ==> r == Err::<u64, FsError>(e) && same_tables(
        a,
        b,
    ) && b.volume() == a.volume()
    &&& create_check(a, path) is Ok ==> {
        let (ok, img) = fat_create(a.image(), trim_slashes(path));
        &&& b.volume() == Some(img)
        &&& if ok {
            open_locked(a, b, path, pid, r)
        } else {
            r == Err::<u64, FsError>(FsError::InvalidPath) && same_tables(a, b)
        }
    }
}

/// What deleting the file `path` leaves: `b` is the file system after it, `r` the result.
pub open spec fn delete_outcome(a: LogicalFs, b: LogicalFs, path: Seq<char>, r: Result<(), FsError>) -> bool {
    &&& b.fd_reg() == a.fd_reg()
    &&& b.auth_db() == a.auth_db()
    &&& delete_check(a, path) matches Err(e) ==> r == Err::<(), FsError>(e) && same_tables(
        a,
        b,
    ) && b.volume() == a.volume()
    &&& delete_check(a, path) is Ok ==> {
        let (ok, img) = fat_remove(a.image(), trim_slashes(path));
        let i = a.fcb_index(path);
        &&& b.volume() == Some(img)
        &&& if ok {
            &&& r == Ok::<(), FsError>(())
            &&& b.perms_db().view_map() == a.perms_db().view_map().remove(path)
            &&& b.fcb_seq() == if i >= 0 {
                a.fcb_seq().remove(i)
            } else {
                a.fcb_seq()
            }
        } else {
            r == Err::<(), FsError>(FsError::NotFound) && same_tables(a, b)
        }
    }
}

/// What renaming `from` to `to` leaves: `b` is the file system after it, `r` the result.
pub open spec fn rename_outcome(a: LogicalFs, b: LogicalFs, from: Seq<char>, to: Seq<char>, r: Result<(), FsError>) -> bool {
    &&& same_tables(a, b)
    &&& rename_check(a, from, to) matches Err(e) ==> r == Err::<(), FsError>(e) && b.volume()
        == a.volume()
    &&& rename_check(a, from, to) is Ok ==> {
        let (ok, img) = fat_rename(a.image(), trim_slashes(from), trim_slashes(to));
        &&& b.volume() == Some(img)
        &&& r == if ok {
            Ok::<(), FsError>(())
        } else {
            Err::<(), FsError>(FsError::NotFound)
        }
    }
}

/// What making the directory `path` leaves: `b` is the file system after it, `r` the result.
pub open spec fn mkdir_outcome(a: LogicalFs, b: LogicalFs, path: Seq<char>, r: Result<(), FsError>) -> bool {
    &&& same_tables(a, b)
    &&& create_check(a, path) matches Err(e) ==> r == Err::<(), FsError>(e) && b.volume()
        == a.volume()
    &&& create_check(a, path) is Ok ==> {
        let (ok, img) = fat_mkdir(a.image(), trim_slashes(path));
        &&& b.volume() == Some(img)
        &&& r == if ok {
            Ok::<(), FsError>(())
        } else {
            Err::<(), FsError>(FsError::AlreadyExists)
        }
    }
}

/// What listing the directory `path` leaves: `b` is the file system after it, `r` the result.
pub open spec fn getdents_outcome(a: LogicalFs, b: LogicalFs, path: Seq<char>, r: Result<Vec<(String, bool)>, FsError>) -> bool {
    &&& same_tables(a, b)
    &&& !is_absolute(path) ==> r == Err::<Vec<(String, bool)>, FsError>(FsError::InvalidPath) && b.volume()
        == a.volume()
    &&& is_absolute(path) && !a.is_mounted() ==> r == Err::<Vec<(String, bool)>, FsError>(
        FsError::NotMounted,
    ) && b.volume() == a.volume()
    &&& is_absolute(path) && a.is_mounted() ==> {
        let (res, img) = fat_list(a.image(), trim_slashes(path));
        &&& b.volume() == Some(img)
        &&& match res {
            None => r is Err && r == Err::<Vec<(String, bool)>, FsError>(FsError::NotFound),
            Some(raw) => r matches Ok(v) && Seq::new(v@.len(), |i: int| (v@[i].0@, v@[i].1)) == dir_listing(raw),
        }
    }
}

/// What removing the directory `path` with everything under it leaves: `b` is the file system after
/// it, `r` the result.
pub open spec fn rmdir_outcome(a: LogicalFs, b: LogicalFs, path: Seq<char>, r: Result<(), FsError>) -> bool {
    &&& same_tables(a, b)
    &&& !is_absolute(path) ==> r == Err::<(), FsError>(FsError::InvalidPath) && b.volume() == a.volume()
    &&& is_absolute(path) && !a.is_mounted() ==> r == Err::<(), FsError>(FsError::NotMounted)
        && b.volume() == a.volume()
    &&& is_absolute(path) && a.is_mounted() ==> {
        let (res, img) = tree_removal(a.image(), seq![trim_slashes(path)], a.image().len());
        r == res && b.volume() == Some(img)
    }
}

/// What asking for the metadata of `path` leaves: `b` is the file system after it, `r` the result.
pub open spec fn stat_outcome(a: LogicalFs, b: LogicalFs, path: Seq<char>, r: Result<Stat, FsError>) -> bool {
    &&& same_tables(a, b)
    &&& !is_absolute(path) ==> r == Err::<Stat, FsError>(FsError::InvalidPath) && b.volume()
        == a.volume()
    &&& is_absolute(path) && !a.is_mounted() ==> r == Err::<Stat, FsError>(FsError::NotMounted)
        && b.volume() == a.volume()
    &&& is_absolute(path) && a.is_mounted() ==> {
        let (p, img) = fat_probe(a.image(), trim_slashes(path));
        &&& b.volume() == Some(img)
        &&& if p is Unreadable {
            r == Err::<Stat, FsError>(FsError::InvalidPath)
        } else {
            stat_post(a, path, probe_found(p), r)
        }
    }
}

/// What setting the rights on `path` leaves: `b` is the file system after it, `r` the result.
pub open spec fn chmod_outcome(a: LogicalFs, b: LogicalFs, path: Seq<char>, owner: u8, group: u8, world: u8, r: Result<(), FsError>) -> bool {
    &&& r == Ok::<(), FsError>(())
    &&& b.fcb_seq() == a.fcb_seq()
    &&& b.fd_reg() == a.fd_reg()
    &&& b.volume() == a.volume()
    &&& b.auth_db() == a.auth_db()
    &&& a.perms_db().view_map().contains_key(path) ==> b.perms_db().view_map() == a.perms_db().view_map().insert(
        path,
        PermEntry {
            owner_rwx: Rwx(owner),
            group_rwx: Rwx(group),
            world_rwx: Rwx(world),
            ..a.perms_db().view_map()[path]
        },
    )
    &&& !a.perms_db().view_map().contains_key(path) ==> b.perms_db().view_map() == a.perms_db().view_map()
}

/// What marking `path` shared leaves: `b` is the file system after it, `r` the result.
pub open spec fn mark_shared_outcome(a: LogicalFs, b: LogicalFs, path: Seq<char>, r: Result<(), FsError>) -> bool {
    &&& b.fd_reg() == a.fd_reg()
    &&& b.volume() == a.volume()
    &&& b.perms_db() == a.perms_db()
    &&& b.auth_db() == a.auth_db()
    &&& ({
        let i = a.fcb_index(path);
        if i < 0 {
            r == Err::<(), FsError>(FsError::NotFound) && b.fcb_seq() == a.fcb_seq()
        } else {
            &&& r == Ok::<(), FsError>(())
            &&& b.fcb_seq() == a.fcb_seq().update(i, Fcb { is_shared: true, ..a.fcb_seq()[i] })
        }
    })
}

/// Where the checks before an open come out: a case clash with another open file, the
/// overlay's read right, an absolute path, a mounted volume.
pub open spec fn open_check(s: LogicalFs, path: Seq<char>, uid: u32, gid: u32) -> Result<(), FsError> {
    if s.conflicts(path) {
        Err(FsError::AlreadyExists)
    } else if !s.allows(path, uid, gid, false) {
        Err(FsError::PermissionDenied)
    } else if !is_absolute(path) {
        Err(FsError::InvalidPath)
    } else if !s.is_mounted() {
        Err(FsError::NotMounted)
    } else {
        Ok(())
    }
}

/// Where the checks before a create or a mkdir come out.
pub open spec fn create_check(s: LogicalFs, path: Seq<char>) -> Result<(), FsError> {
    if s.conflicts(path) {
        Err(FsError::AlreadyExists)
    } else if !is_absolute(path) {
        Err(FsError::InvalidPath)
    } else if !s.is_mounted() {
        Err(FsError::NotMounted)
    } else {
        Ok(())
    }
}

/// Where the checks before a delete come out.
pub open spec fn delete_check(s: LogicalFs, path: Seq<char>) -> Result<(), FsError> {
    let i = s.fcb_index(path);
    if i >= 0 && s.fcb_seq()[i].is_shared {
        Err(FsError::IsShared)
    } else if !is_absolute(path) {
        Err(FsError::InvalidPath)
    } else if !s.is_mounted() {
        Err(FsError::NotMounted)
    } else {
        Ok(())
    }
}

/// Where the checks before a rename come out.
pub open spec fn rename_check(s: LogicalFs, old: Seq<char>, new: Seq<char>) -> Result<(), FsError> {
    let i = s.fcb_index(old);
    if s.conflicts(new) {
        Err(FsError::AlreadyExists)
    } else if i >= 0 && s.fcb_seq()[i].is_shared {
        Err(FsError::IsShared)
    } else if !is_absolute(old) || !is_absolute(new) {
        Err(FsError::InvalidPath)
    } else if !s.is_mounted() {
        Err(FsError::NotMounted)
    } else {
        Ok(())
    }
}

/// Where the checks before a read of `fd` of `pid` come out: the file's path and cursor.
pub open spec fn read_check(s: LogicalFs, fd: u64, pid: Pid, uid: u32, gid: u32) -> Result<(Seq<char>, u64), FsError> {
    match s.fd_reg().lookup(pid, fd) {
        None => Err(FsError::NotOpen),
        Some(p) => {
            let i = s.fcb_index(p);
            if !s.allows(p, uid, gid, false) {
                Err(FsError::PermissionDenied)
            } else if i < 0 {
                Err(FsError::NotOpen)
            } else if !is_absolute(p) {
                Err(FsError::InvalidPath)
            } else if !s.is_mounted() {
                Err(FsError::NotMounted)
            } else {
                Ok((p, s.fcb_seq()[i].cursor))
            }
        },
    }
}

/// Where the checks before a write of `fd` of `pid` come out: the file's path and cursor.
pub open spec fn write_check(s: LogicalFs, fd: u64, pid: Pid, uid: u32, gid: u32) -> Result<(Seq<char>, u64), FsError> {
    match s.fd_reg().lookup(pid, fd) {
        None => Err(FsError::NotOpen),
        Some(p) => {
            let i = s.fcb_index(p);
            if i < 0 {
                Err(FsError::NotOpen)
            } else if s.fcb_seq()[i].is_shared {
                Err(FsError::IsShared)
            } else if !s.allows(p, uid, gid, true) {
                Err(FsError::PermissionDenied)
            } else if !is_absolute(p) {
                Err(FsError::InvalidPath)
            } else if !s.is_mounted() {
                Err(FsError::NotMounted)
            } else {
                Ok((p, s.fcb_seq()[i].cursor))
            }
        },
    }
}

/// `b` is `a` with `pid` holding a new locked descriptor on `path`, unless another open holds
/// the lock (`Locked`, nothing changed).
pub open spec fn open_locked(a: LogicalFs, b: LogicalFs, path: Seq<char>, pid: Pid, r: Result<u64, FsError>) -> bool {
    let i = a.fcb_index(path);
    if i >= 0 && a.fcb_seq()[i].locked_by is Some {
        &&& r == Err::<u64, FsError>(FsError::Locked)
        &&& b.fcb_seq() == a.fcb_seq()
        &&& b.fd_reg() == a.fd_reg()
    } else {
        &&& r == Ok::<u64, FsError>(a.fd_reg().next_for(pid))
        &&& opened_for(a.fcb_seq(), b.fcb_seq(), path, pid)
        &&& fd_added(a.fd_reg(), b.fd_reg(), pid, path)
    }
}

/// `b` has the control blocks, descriptors and overlays of `a`.
pub open spec fn same_tables(a: LogicalFs, b: LogicalFs) -> bool {
    &&& b.fcb_seq() == a.fcb_seq()
    &&& b.fd_reg() == a.fd_reg()
    &&& b.perms_db() == a.perms_db()
    &&& b.auth_db() == a.auth_db()
}

/// The entries a listing shows: those the volume could read, but `.` and `..`, in order.
pub open spec fn dir_listing(raw: Seq<Option<(Seq<char>, bool)>>) -> Seq<(Seq<char>, bool)>
    decreases raw.len(),
{
    if raw.len() == 0 {
        Seq::empty()
    } else {
        let rest = dir_listing(raw.drop_last());
        match raw.last() {
            Some((n, d)) => if listed(n) {
                rest.push((n, d))
            } else {
                rest
            },
            None => rest,
        }
    }
}

/// What `stat` learns of `path` from the volume's answer: size and kind, `None` for a missing
/// path; a file whose size cannot be read is an error.
pub open spec fn probe_found(p: Probe) -> Option<(u64, bool)> {
    match p {
        Probe::File(n) => Some((n, false)),
        Probe::Dir => Some((0u64, true)),
        _ => None,
    }
}

/// The metadata `stat` reports for `path` given the volume's answer `found`: size and kind from
/// the volume, owner and rights from the overlay (zero where it has no entry).
pub open spec fn stat_post(s: LogicalFs, path: Seq<char>, found: Option<(u64, bool)>, r: Result<Stat, FsError>) -> bool {
    match found {
        None => r == Err::<Stat, FsError>(FsError::NotFound),
        Some((size, is_dir)) => r matches Ok(st) && st.size == size && st.is_dir == (if is_dir { 1u8 } else { 0u8 })
            && if s.perms_db().view_map().contains_key(path) {
            let e = s.perms_db().view_map()[path];
            st.uid == e.uid && st.gid == e.gid && st.owner_rwx == e.owner_rwx.0 && st.group_rwx == e.group_rwx.0
                && st.world_rwx == e.world_rwx.0
        } else {
            st.uid == 0 && st.gid == 0 && st.owner_rwx == 0 && st.group_rwx == 0 && st.world_rwx == 0
        },
    }
}

impl LogicalFs {
    /// The mounted image.
    pub open spec fn image(&self) -> Seq<u8> {
        self.volume().unwrap()
    }

    /// Takes the volume's image out (unmounting it); `mount_disk` puts one back.
    pub fn unmount(&mut self) -> (img: Option<Vec<u8>>)
        ensures
            final(self).volume() is None,
            same_tables(*old(self), *final(self)),
            match img {
                Some(v) => old(self).volume() == Some(v@),
                None => old(self).volume() is None,
            },
    {
        self.disk.take()
    }

    /// Opens `path` for `pid` as user `uid`/`gid`: after the checks the volume is asked for the
    /// file (a directory does not open), then the file is locked for `pid` and `pid` gets a new
    /// descriptor.
    pub fn open(&mut self, path: &str, pid: Pid, uid: u32, gid: u32) -> (r: Result<u64, FsError>)
        requires
            old(self).wf(),
            old(self).fcb_index(path@) >= 0 ==> old(self).fcb_seq()[old(self).fcb_index(path@)].open_count < u32::MAX,
            old(self).fd_reg().next_for(pid) < u64::MAX,
        ensures
            final(self).wf(),
            open_outcome(*old(self), *final(self), path@, pid, uid, gid, r),
    {
        if self.case_conflict(path) {
            return Err(FsError::AlreadyExists);
        }
        self.check_perm(path, uid, gid, false)?;
        let fat = Self::to_fat_path(path)?;
        let mut img = match self.unmount() {
            Some(i) => i,
            None => return Err(FsError::NotMounted),
        };
        let p = volume_probe(&mut img, fat);
        self.mount_disk(img);
        let found = match p {
            Probe::File(_) => true,
            Probe::Unreadable => true,
            _ => false,
        };
        self.open_found(path, pid, uid, gid, found)
    }

    /// Reads from `fd` of `pid`, as `uid`/`gid`, into `buf` at the file's cursor (one read of
    /// the volume file, up to the buffer's length); the cursor moves past the bytes read. A cursor
    /// that would pass the largest offset is refused (`InvalidPath`).
    pub fn read(&mut self, fd: u64, pid: Pid, uid: u32, gid: u32, buf: &mut [u8]) -> (r: Result<usize, FsError>)
        requires
            old(self).wf(),
        ensures
            final(self).wf(),
            read_outcome(*old(self), *final(self), fd, pid, uid, gid, old(buf)@, final(buf)@, r),
    {
        let (path, cursor) = self.read_begin(fd, pid, uid, gid)?;
        let fat = Self::to_fat_path(path.as_str())?;
        let mut img = match self.unmount() {
            Some(i) => i,
            None => return Err(FsError::NotMounted),
        };
        let got = volume_read(&mut img, fat, cursor, buf.len());
        self.mount_disk(img);
        let bytes = match got {
            None => return Err(FsError::NotFound),
            Some(None) => return Err(FsError::InvalidPath),
            Some(Some(b)) => b,
        };
        let n = bytes.len();
        if n as u64 > u64::MAX - cursor {
            return Err(FsError::InvalidPath);
        }
        let ghost before = buf@;
        let mut k: usize = 0;
        while k < n
            invariant
                k <= n,
                n == bytes@.len(),
                n <= buf@.len(),
                buf@.len() == before.len(),
                forall|j: int| 0 <= j < k ==> #[trigger] buf@[j] == bytes@[j],
                forall|j: int| k <= j < buf@.len() ==> #[trigger] buf@[j] == before[j],
            decreases n - k,
        {
            buf[k] = bytes[k];
            k = k + 1;
        }
        proof {
            assert(buf@ =~= bytes@ + before.subrange(n as int, before.len() as int));
        }
        self.read_end(path.as_str(), cursor, n)
    }

    /// Writes `buf` through `fd` of `pid`, as `uid`/`gid`, at the file's cursor (`write_all` on the
    /// volume file); the cursor moves past the bytes and the file is marked dirty. A write that
    /// would move the cursor past the largest offset is refused (`InvalidPath`) before the volume
    /// is touched.
    pub fn write(&mut self, fd: u64, pid: Pid, uid: u32, gid: u32, buf: &[u8]) -> (r: Result<usize, FsError>)
        requires
            old(self).wf(),
        ensures
            final(self).wf(),
            write_outcome(*old(self), *final(self), fd, pid, uid, gid, buf@, r),
    {
        let (path, cursor) = self.write_begin(fd, pid, uid, gid)?;
        if buf.len() as u64 > u64::MAX - cursor {
            return Err(FsError::InvalidPath);
        }
        let fat = Self::to_fat_path(path.as_str())?;
        let mut img = match self.unmount() {
            Some(i) => i,
            None => return Err(FsError::NotMounted),
        };
        let done = volume_write(&mut img, fat, cursor, buf);
        self.mount_disk(img);
        match done {
            None => Err(FsError::NotFound),
            Some(false) => Err(FsError::InvalidPath),
            Some(true) => self.write_end(path.as_str(), cursor, buf.len()),
        }
    }

    /// Creates `path` on the volume (an existing file is kept) and opens it for `pid`.
    pub fn create(&mut self, path: &str, pid: Pid) -> (r: Result<u64, FsError>)
        requires
            old(self).wf(),
            old(self).fcb_index(path@) >= 0 ==> old(self).fcb_seq()[old(self).fcb_index(path@)].open_count < u32::MAX,
            old(self).fd_reg().next_for(pid) < u64::MAX,
        ensures
            final(self).wf(),
            create_outcome(*old(self), *final(self), path@, pid, r),
    {
        self.create_begin(path)?;
        let fat = Self::to_fat_path(path)?;
        let mut img = match self.unmount() {
            Some(i) => i,
            None => return Err(FsError::NotMounted),
        };
        let ok = volume_create(&mut img, fat);
        self.mount_disk(img);
        if !ok {
            return Err(FsError::InvalidPath);
        }
        self.create_end(path, pid)
    }

    /// Deletes the file `path` from the volume; its control block and permissions go too.
    pub fn delete(&mut self, path: &str) -> (r: Result<(), FsError>)
        requires
            old(self).wf(),
        ensures
            final(self).wf(),
            delete_outcome(*old(self), *final(self), path@, r),
    {
        self.delete_begin(path)?;
        let fat = Self::to_fat_path(path)?;
        let mut img = match self.unmount() {
            Some(i) => i,
            None => return Err(FsError::NotMounted),
        };
        let ok = volume_remove(&mut img, fat);
        self.mount_disk(img);
        if !ok {
            return Err(FsError::NotFound);
        }
        self.delete_end(path);
        Ok(())
    }

    /// Renames `from` to `to` on the volume. Control blocks and permissions stay under the old
    /// name.
    pub fn rename(&mut self, from: &str, to: &str) -> (r: Result<(), FsError>)
        requires
            old(self).wf(),
        ensures
            final(self).wf(),
            rename_outcome(*old(self), *final(self), from@, to@, r),
    {
        self.rename_begin(from, to)?;
        let fat_from = Self::to_fat_path(from)?;
        let fat_to = Self::to_fat_path(to)?;
        let mut img = match self.unmount() {
            Some(i) => i,
            None => return Err(FsError::NotMounted),
        };
        let ok = volume_rename(&mut img, fat_from, fat_to);
        self.mount_disk(img);
        if ok {
            Ok(())
        } else {
            Err(FsError::NotFound)
        }
    }

    /// Makes the directory `path` on the volume.
    pub fn mkdir(&mut self, path: &str) -> (r: Result<(), FsError>)
        requires
            old(self).wf(),
        ensures
            final(self).wf(),
            mkdir_outcome(*old(self), *final(self), path@, r),
    {
        self.mkdir_begin(path)?;
        let fat = Self::to_fat_path(path)?;
        let mut img = match self.unmount() {
            Some(i) => i,
            None => return Err(FsError::NotMounted),
        };
        let ok = volume_mkdir(&mut img, fat);
        self.mount_disk(img);
        if ok {
            Ok(())
        } else {
            Err(FsError::AlreadyExists)
        }
    }

    /// The entries of the directory `path`, without `.` and `..` and those the volume could not
    /// read, in the volume's order.
    pub fn getdents(&mut self, path: &str) -> (r: Result<Vec<(String, bool)>, FsError>)
        requires
            old(self).wf(),
        ensures
            final(self).wf(),
            getdents_outcome(*old(self), *final(self), path@, r),
    {
        let fat = Self::to_fat_path(path)?;
        let mut img = match self.unmount() {
            Some(i) => i,
            None => return Err(FsError::NotMounted),
        };
        let got = volume_list(&mut img, fat);
        self.mount_disk(img);
        let raw = match got {
            Some(v) => v,
            None => return Err(FsError::NotFound),
        };
        let ghost rv = Seq::new(raw@.len(), |i: int| match raw@[i] {
            Some((n, d)) => Some((n@, d)),
            None => None,
        });
        let mut out: Vec<(String, bool)> = Vec::new();
        let mut i: usize = 0;
        while i < raw.len()
            invariant
                i <= raw@.len(),
                rv.len() == raw@.len(),
                forall|j: int| 0 <= j < raw@.len() ==> #[trigger] rv[j] == match raw@[j] {
                    Some((n, d)) => Some((n@, d)),
                    None => None,
                },
                Seq::new(out@.len(), |j: int| (out@[j].0@, out@[j].1)) == dir_listing(rv.subrange(0, i as int)),
            decreases raw@.len() - i,
        {
            proof {
                assert(rv.subrange(0, i + 1).drop_last() =~= rv.subrange(0, i as int));
            }
            match &raw[i] {
                Some((n, d)) => {
                    if is_listed(n.as_str()) {
                        let ghost before = out@;
                        out.push((n.clone(), *d));
                        proof {
                            assert(Seq::new(out@.len(), |j: int| (out@[j].0@, out@[j].1)) =~= Seq::new(
                                before.len(),
                                |j: int| (before[j].0@, before[j].1),
                            ).push((n@, *d)));
                        }
                    }
                },
                None => {},
            }
            i = i + 1;
        }
        proof {
            assert(rv.subrange(0, raw@.len() as int) =~= rv);
        }
        Ok(out)
    }

    /// Removes the directory `path` and everything under it (see `tree_removal`; the rounds are
    /// bounded by the image's length). Control blocks and permissions are left as they are.
    pub fn rmdir(&mut self, path: &str) -> (r: Result<(), FsError>)
        requires
            old(self).wf(),
        ensures
            final(self).wf(),
            rmdir_outcome(*old(self), *final(self), path@, r),
    {
        let fat = Self::to_fat_path(path)?;
        let mut img = match self.unmount() {
            Some(i) => i,
            None => return Err(FsError::NotMounted),
        };
        let rounds = img.len();
        let r = remove_tree(&mut img, fat, rounds);
        self.mount_disk(img);
        r
    }

    /// The metadata of `path`: size and kind from the volume, owner and rights from the overlay.
    pub fn stat(&mut self, path: &str) -> (r: Result<Stat, FsError>)
        requires
            old(self).wf(),
        ensures
            final(self).wf(),
            stat_outcome(*old(self), *final(self), path@, r),
    {
        let fat = Self::to_fat_path(path)?;
        let mut img = match self.unmount() {
            Some(i) => i,
            None => return Err(FsError::NotMounted),
        };
        let p = volume_probe(&mut img, fat);
        self.mount_disk(img);
        let found = match p {
            Probe::File(n) => Some((n, false)),
            Probe::Dir => Some((0u64, true)),
            Probe::Missing => None,
            Probe::Unreadable => return Err(FsError::InvalidPath),
        };
        self.stat_of(path, found)
    }
}

/// The first entry of a raw listing that a listing shows (not `.`, `..` or unreadable).
pub open spec fn first_listed(raw: Seq<Option<(Seq<char>, bool)>>) -> Option<(Seq<char>, bool)>
    decreases raw.len(),
{
    if raw.len() == 0 {
        None
    } else {
        match raw[0] {
            Some((n, d)) => if listed(n) {
                Some((n, d))
            } else {
                first_listed(raw.drop_first())
            },
            None => first_listed(raw.drop_first()),
        }
    }
}

/// Removing a directory tree from the volume in `img`, with `stack` the directories being
/// emptied (the tree's root first) and at most `rounds` rounds left. Each round lists the
/// directory on top: an empty one is removed (the last one ends the removal), a subdirectory
/// first in the listing is pushed, a file first in it is removed. A listing or removal the
/// volume refuses ends it with `NotFound`, as does running out of rounds.
pub open spec fn tree_removal(img: Seq<u8>, stack: Seq<Seq<char>>, rounds: nat) -> (Result<(), FsError>, Seq<u8>)
    decreases rounds,
{
    if rounds == 0 || stack.len() == 0 {
        (Err(FsError::NotFound), img)
    } else {
        let top = stack.last();
        let (l, i1) = fat_list(img, top);
        match l {
            None => (Err(FsError::NotFound), i1),
            Some(raw) => match first_listed(raw) {
                None => {
                    let (ok, i2) = fat_remove(i1, top);
                    if !ok {
                        (Err(FsError::NotFound), i2)
                    } else if stack.len() == 1 {
                        (Ok(()), i2)
                    } else {
                        tree_removal(i2, stack.drop_last(), (rounds - 1) as nat)
                    }
                },
                Some((n, is_dir)) => if is_dir {
                    tree_removal(i1, stack.push(child_path_spec(top, n)), (rounds - 1) as nat)
                } else {
                    let (ok, i2) = fat_remove(i1, child_path_spec(top, n));
                    if ok {
                        tree_removal(i2, stack, (rounds - 1) as nat)
                    } else {
                        (Err(FsError::NotFound), i2)
                    }
                },
            },
        }
    }
}

/// The first entry of `raw` a listing shows, found by a scan.
fn find_first_listed(raw: &Vec<Option<(String, bool)>>) -> (r: Option<(String, bool)>)
    ensures
        ({
            let rv = Seq::new(raw@.len(), |i: int| match raw@[i] {
                Some((n, d)) => Some((n@, d)),
                None => None,
            });
            match r {
                Some((n, d)) => first_listed(rv) == Some((n@, d)),
                None => first_listed(rv) is None,
            }
        }),
{
    let ghost rv = Seq::new(raw@.len(), |i: int| match raw@[i] {
        Some((n, d)) => Some((n@, d)),
        None => None,
    });
    let mut i: usize = 0;
    assert(rv.subrange(0, rv.len() as int) =~= rv);
    while i < raw.len()
        invariant
            i <= raw@.len(),
            rv.len() == raw@.len(),
            forall|j: int| 0 <= j < raw@.len() ==> #[trigger] rv[j] == match raw@[j] {
                Some((n, d)) => Some((n@, d)),
                None => None,
            },
            first_listed(rv) == first_listed(rv.subrange(i as int, rv.len() as int)),
        decreases raw@.len() - i,
    {
        let ghost rest = rv.subrange(i as int, rv.len() as int);
        proof {
            assert(rest.drop_first() =~= rv.subrange(i + 1, rv.len() as int));
            assert(rest[0] == rv[i as int]);
        }
        match &raw[i] {
            Some((n, d)) => {
                if is_listed(n.as_str()) {
                    let name = n.clone();
                    proof {
                        assert(rv[i as int] == Some((n@, *d)));
                        assert(first_listed(rest) == Some((n@, *d)));
                        assert(rv =~= Seq::new(raw@.len(), |k: int| match raw@[k] {
                            Some((n, d)) => Some((n@, d)),
                            None => None,
                        }));
                    }
                    return Some((name, *d));
                }
            },
            None => {},
        }
        i = i + 1;
    }
    assert(rv.subrange(i as int, rv.len() as int).len() == 0);
    assert(rv =~= Seq::new(raw@.len(), |k: int| match raw@[k] {
        Some((n, d)) => Some((n@, d)),
        None => None,
    }));
    None
}

/// Removes the directory tree at the volume path `root` (see `tree_removal`), in at most
/// `rounds` rounds.
fn remove_tree(img: &mut Vec<u8>, root: &str, rounds: usize) -> (r: Result<(), FsError>)
    ensures
        (r, final(img)@) == tree_removal(old(img)@, seq![root@], rounds as nat),
{
    let mut stack: Vec<String> = Vec::new();
    stack.push(root.to_owned());
    let mut left = rounds;
    let ghost target = tree_removal(old(img)@, seq![root@], rounds as nat);
    proof {
        assert(Seq::new(stack@.len(), |i: int| stack@[i]@) =~= seq![root@]);
    }
    loop
        invariant
            stack@.len() > 0,
            target == tree_removal(old(img)@, seq![root@], rounds as nat),
            target == tree_removal(img@, Seq::new(stack@.len(), |i: int| stack@[i]@), left as nat),
        decreases left,
    {
        let ghost sv = Seq::new(stack@.len(), |i: int| stack@[i]@);
        assert(sv.len() > 0);
        if left == 0 {
            assert(tree_removal(img@, sv, 0) == (Err::<(), FsError>(FsError::NotFound), img@));
            return Err(FsError::NotFound);
        }
        left = left - 1;
        let top = stack[stack.len() - 1].clone();
        assert(top@ == sv.last());
        let raw = match volume_list(img, top.as_str()) {
            Some(v) => v,
            None => return Err(FsError::NotFound),
        };
        match find_first_listed(&raw) {
            None => {
                if !volume_remove(img, top.as_str()) {
                    return Err(FsError::NotFound);
                }
                if stack.len() == 1 {
                    return Ok(());
                }
                stack.pop();
                proof {
                    assert(Seq::new(stack@.len(), |i: int| stack@[i]@) =~= sv.drop_last());
                }
            },
            Some((name, is_dir)) => {
                let child = child_path(top.as_str(), name.as_str());
                if is_dir {
                    stack.push(child);
                    proof {
                        assert(Seq::new(stack@.len(), |i: int| stack@[i]@) =~= sv.push(child_path_spec(top@, name@)));
                    }
                } else if !volume_remove(img, child.as_str()) {
                    return Err(FsError::NotFound);
                }
            },
        }
    }
}

/// Whether the descriptor tables `b` show what `a` shows.
pub open spec fn same_fds(a: FdRegistry, b: FdRegistry) -> bool {
    &&& forall|q: Pid, f: u64| #[trigger] b.lookup(q, f) == a.lookup(q, f)
    &&& forall|q: Pid| #[trigger] b.next_for(q) == a.next_for(q)
}

/// Whether `b` is `a` with `pid`'s next descriptor opened on `path`.
pub open spec fn fd_added(a: FdRegistry, b: FdRegistry, pid: Pid, path: Seq<char>) -> bool {
    let fd = a.next_for(pid);
    &&& a.lookup(pid, fd) is None
    &&& forall|q: Pid, f: u64| #[trigger] b.lookup(q, f) == (if q == pid && f == fd { Some(path) } else { a.lookup(q, f) })
    &&& forall|q: Pid| #[trigger] b.next_for(q) == (if q == pid { (fd + 1) as u64 } else { a.next_for(q) })
}

/// Whether `b` is `a` with `path` opened and locked by `pid`: its control block (fresh if it
/// had none) locked by `pid` with one open more.
pub open spec fn opened_for(a: Seq<Fcb>, b: Seq<Fcb>, path: Seq<char>, pid: Pid) -> bool {
    let i = path_index(fcb_paths(a), path);
    if i >= 0 {
        let f = a[i];
        b == a.update(i, Fcb { locked_by: Some(pid), open_count: (f.open_count + 1) as u32, ..f })
    } else {
        &&& b.len() == a.len() + 1
        &&& b.subrange(0, a.len() as int) == a
        &&& b.last().path@ == path
        &&& b.last().cursor == 0
        &&& b.last().open_count == 1
        &&& !b.last().dirty
        &&& b.last().locked_by == Some(pid)
        &&& !b.last().is_shared
    }
}

/// Whether `b` is `a` after `pid` closed one descriptor of `path`.
pub open spec fn closed_for(a: Seq<Fcb>, b: Seq<Fcb>, path: Seq<char>, pid: Pid) -> bool {
    let i = path_index(fcb_paths(a), path);
    if i < 0 {
        b == a
    } else {
        let f = a[i];
        let count = if f.open_count > 0 { (f.open_count - 1) as u32 } else { 0u32 };
        let lock = if f.locked_by == Some(pid) { None } else { f.locked_by };
        if count == 0 {
            b == a.remove(i)
        } else {
            b == a.update(i, Fcb { open_count: count, locked_by: lock, ..f })
        }
    }
}

/// The path of a directory entry: `parent`, a slash when `parent` is not empty, `name`.
pub open spec fn child_path_spec(parent: Seq<char>, name: Seq<char>) -> Seq<char> {
    if parent.len() == 0 {
        name
    } else {
        parent + seq!['/'] + name
    }
}

/// The volume path of an entry `name` of the directory `parent`.
pub fn child_path(parent: &str, name: &str) -> (r: String)
    ensures
        r@ == child_path_spec(parent@, name@),
{
    let mut s = String::from_str(parent);
    if parent.unicode_len() > 0 {
        s.append("/");
        proof {
            reveal_strlit("/");
        }
    }
    s.append(name);
    proof {
        if parent@.len() > 0 {
            assert(s@ =~= parent@ + seq!['/'] + name@);
        }
    }
    s
}

/// Whether a directory entry is listed: every one but `.` and `..`.
pub open spec fn listed(name: Seq<char>) -> bool {
    name != seq!['.'] && name != seq!['.', '.']
}

/// Whether a directory entry is listed and walked: every one but `.` and `..`.
pub fn is_listed(name: &str) -> (r: bool)
    ensures
        r == listed(name@),
{
    let n = name.unicode_len();
    if n == 1 && name.get_char(0) == '.' {
        assert(name@ =~= seq!['.']);
        return false;
    }
    if n == 2 && name.get_char(0) == '.' && name.get_char(1) == '.' {
        assert(name@ =~= seq!['.', '.']);
        return false;
    }
    true
}


/// A file opened with `open` can be read and written through the descriptor it got: the
/// descriptor names the path, and the file's control block holds the lock for the opener.
pub proof fn lemma_open_then_lookup(a: FdRegistry, b: FdRegistry, fa: Seq<Fcb>, fb: Seq<Fcb>, pid: Pid, path: Seq<char>)
    requires
        fd_added(a, b, pid, path),
        opened_for(fa, fb, path, pid),
        unique_paths(fa),
    ensures
        b.lookup(pid, a.next_for(pid)) == Some(path),
        path_index(fcb_paths(fb), path) >= 0,
        fb[path_index(fcb_paths(fb), path)].locked_by == Some(pid),
{
    lemma_path_index(fcb_paths(fa), path);
    lemma_path_index(fcb_paths(fb), path);
    let i = path_index(fcb_paths(fa), path);
    if i >= 0 {
        assert(fcb_paths(fb) =~= fcb_paths(fa));
        assert(fcb_paths(fa)[i] == fa[i].path@);
    } else {
        let n = fa.len() as int;
        assert(fcb_paths(fb)[n] == path);
        assert(fcb_paths(fb).contains(path));
        let j = path_index(fcb_paths(fb), path);
        if j != n {
            assert(fb[j] == fb.subrange(0, n)[j]);
            assert(fcb_paths(fa)[j] == fa[j].path@);
            assert(fcb_paths(fa).contains(path));
        }
    }
}

/// Locking is mandatory and exclusive: once an open of `path` has succeeded, every further
/// open of `path`, by any process (the opener included), is refused with `Locked`.
pub proof fn lemma_open_is_exclusive(
    a: LogicalFs,
    b: LogicalFs,
    c: LogicalFs,
    path: Seq<char>,
    pid: Pid,
    fd: u64,
    pid2: Pid,
    r2: Result<u64, FsError>,
)
    requires
        a.wf(),
        open_locked(a, b, path, pid, Ok(fd)),
        open_locked(b, c, path, pid2, r2),
    ensures
        r2 == Err::<u64, FsError>(FsError::Locked),
{
    lemma_open_then_lookup(a.fd_reg(), b.fd_reg(), a.fcb_seq(), b.fcb_seq(), pid, path);
}

/// Shared files are immutable: once `path` is marked shared (what `mark_shared` does to its
/// control block), a write through any descriptor on it is refused with `IsShared`, and so is
/// its deletion; renaming it is refused too.
pub proof fn lemma_shared_is_immutable(
    a: LogicalFs,
    b: LogicalFs,
    path: Seq<char>,
    pid: Pid,
    fd: u64,
    uid: u32,
    gid: u32,
    new: Seq<char>,
)
    requires
        a.wf(),
        a.fcb_index(path) >= 0,
        b.fcb_seq() == a.fcb_seq().update(a.fcb_index(path), Fcb { is_shared: true, ..a.fcb_seq()[a.fcb_index(path)] }),
        b.fd_reg().lookup(pid, fd) == Some(path),
    ensures
        write_check(b, fd, pid, uid, gid) == Err::<(Seq<char>, u64), FsError>(FsError::IsShared),
        delete_check(b, path) == Err::<(), FsError>(FsError::IsShared),
        rename_check(b, path, new) is Err,
{
    lemma_path_index(fcb_paths(a.fcb_seq()), path);
    let i = a.fcb_index(path);
    assert(fcb_paths(b.fcb_seq()) =~= fcb_paths(a.fcb_seq()));
    assert(b.fcb_index(path) == i);
    assert(b.fcb_seq()[i].is_shared);
}

/// Whose rights decide an access: the superuser may do anything, and a path the overlay has no
/// entry for is open to everyone; otherwise the file's owner gets the owner rights, whatever
/// group it asks with, a member of the file's group who is not its owner gets the group rights,
/// and anyone else gets the world rights. Reading needs the `r` bit (4), writing the `w` bit (2).
pub proof fn lemma_permission_classes(fs: LogicalFs, path: Seq<char>, uid: u32, gid: u32, want_write: bool)
    ensures
        uid == 0 ==> fs.allows(path, uid, gid, want_write),
        !fs.perms_db().view_map().contains_key(path) ==> fs.allows(path, uid, gid, want_write),
        uid != 0 && fs.perms_db().view_map().contains_key(path) ==> {
            let e = fs.perms_db().view_map()[path];
            let bit: u8 = if want_write { 2 } else { 4 };
            &&& uid == e.uid ==> (fs.allows(path, uid, gid, want_write) <==> e.owner_rwx.0 & bit != 0)
            &&& uid != e.uid && gid == e.gid ==> (fs.allows(path, uid, gid, want_write) <==> e.group_rwx.0 & bit
                != 0)
            &&& uid != e.uid && gid != e.gid ==> (fs.allows(path, uid, gid, want_write) <==> e.world_rwx.0 & bit
                != 0)
        },
{
}

} // verus!
