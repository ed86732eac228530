use alaphios::fs::fat::{DiskIo, SeekTarget};
use alaphios::fs::fat_check::check_fat_image;
use alaphios::fs::fcb::{str_lt, FcbTable};
use alaphios::fs::fd_table::{FdRegistry, ProcFdTable};
use alaphios::fs::overlay::{AuthDb, AuthEntry, PermEntry, PermsDb, Rwx};
use alaphios::fs::stat::{Stat, STAT_SIZE};
use alaphios::fs::system_domain::{
    append_auth_entry, append_perms_entry, auth_db_image, consistency_self_test, consistency_test_image, load_at_boot,
    load_auth_db, load_perms_db, load_tables, perms_db_image, read_volume_file, rewrite_volume_file,
    test_consistency_repair, AUTH_DB_PATH, AUTH_RECORD_SIZE, PERMS_DB_PATH, PERMS_RECORD_SIZE, STATUS_DIRTY,
};
use alaphios::fs::vfs::{child_path, is_listed, FsError, LogicalFs};
use alaphios::fs::volume::format_image;
use alaphios::io::disk::RamDisk;
use alaphios::process::pid::Pid;
use alaphios::syscall::dispatch::{
    file_syscall, EACCES, EBADF, EBUSY, EEXIST, EFAULT, ENOENT, ENOSYS, EROFS, NAME_MAX, RECORD_SIZE,
};
use alaphios::syscall::numbers::{
    SYS_CHMOD, SYS_CLOSE, SYS_CREATE, SYS_DELETE, SYS_GETDENTS, SYS_LOGIN, SYS_MARK_SHARED, SYS_MKDIR, SYS_OPEN, SYS_READ,
    SYS_RENAME, SYS_RMDIR, SYS_SEEK, SYS_STAT, SYS_WRITE, SYS_YIELD,
};

const VOLUME_BYTES: usize = 4 * 1024 * 1024;

fn mounted_fs() -> LogicalFs {
    let mut fs = LogicalFs::new();
    fs.mount_disk(format_image(VOLUME_BYTES).expect("format failed"));
    fs
}

#[test]
fn fat_path_strips_leading_slashes() {
    assert_eq!(LogicalFs::to_fat_path("/hello.txt"), Ok("hello.txt"));
    assert_eq!(LogicalFs::to_fat_path("//a/b"), Ok("a/b"));
    assert_eq!(LogicalFs::to_fat_path("/"), Ok(""));
    assert_eq!(LogicalFs::to_fat_path("rel"), Err(FsError::InvalidPath));
    assert_eq!(LogicalFs::to_fat_path(""), Err(FsError::InvalidPath));
}

#[test]
fn create_write_close_reopen_read() {
    let pid = Pid(1);
    let mut fs = mounted_fs();
    assert_eq!(fs.create_begin("/hello.txt"), Ok(()));
    let fd = fs.create_end("/hello.txt", pid).expect("create failed");
    assert_eq!(fd, 3);
    let (path, cursor) = fs.write_begin(fd, pid, 0, 0).expect("write refused");
    assert_eq!((path.as_str(), cursor), ("/hello.txt", 0));
    assert_eq!(fs.write_end(&path, cursor, 2), Ok(2));
    assert_eq!(fs.close(fd, pid), Ok(()));
    assert_eq!(fs.fcb_count(), 0);
    let fd = fs.open_found("/hello.txt", pid, 0, 0, true).expect("reopen failed");
    assert_eq!(fd, 4);
    let (path, cursor) = fs.read_begin(fd, pid, 0, 0).expect("read refused");
    assert_eq!(cursor, 0);
    assert_eq!(fs.read_end(&path, cursor, 2), Ok(2));
    let (_, cursor) = fs.read_begin(fd, pid, 0, 0).unwrap();
    assert_eq!(cursor, 2);
    assert_eq!(fs.close(fd, pid), Ok(()));
    assert_eq!(fs.close(fd, pid), Err(FsError::NotOpen));
}

#[test]
fn open_errors_in_order() {
    let pid = Pid(1);
    let mut unmounted = LogicalFs::new();
    assert_eq!(unmounted.open_found("/a", pid, 0, 0, true), Err(FsError::NotMounted));
    let mut fs = mounted_fs();
    assert_eq!(fs.open_found("relative", pid, 0, 0, true), Err(FsError::InvalidPath));
    assert_eq!(fs.open_found("/missing", pid, 0, 0, false), Err(FsError::NotFound));
    let fd = fs.open_found("/File", pid, 0, 0, true).unwrap();
    assert_eq!(fs.open_found("/file", Pid(2), 0, 0, true), Err(FsError::AlreadyExists));
    assert_eq!(fs.open_found("/File", Pid(2), 0, 0, true), Err(FsError::Locked));
    assert_eq!(fs.close(fd, pid), Ok(()));
    assert!(fs.open_found("/File", Pid(2), 0, 0, true).is_ok());
}

#[test]
fn permissions_are_enforced() {
    let pid = Pid(5);
    let mut fs = mounted_fs();
    fs.perms.set(
        String::from("/secret"),
        PermEntry { uid: 7, gid: 8, owner_rwx: Rwx(0b110), group_rwx: Rwx(0b100), world_rwx: Rwx(0) },
    );
    assert_eq!(fs.open_found("/secret", pid, 9, 9, true), Err(FsError::PermissionDenied));
    let fd = fs.open_found("/secret", pid, 9, 8, true).expect("group may read");
    assert_eq!(fs.write_begin(fd, pid, 9, 8).err(), Some(FsError::PermissionDenied));
    assert!(fs.write_begin(fd, pid, 7, 0).is_ok());
    assert!(fs.write_begin(fd, pid, 0, 0).is_ok());
    assert_eq!(fs.chmod("/secret", 7, 7, 7), Ok(()));
    assert!(fs.write_begin(fd, pid, 9, 9).is_ok());
    assert_eq!(fs.chmod("/unknown", 1, 1, 1), Ok(()));
    assert!(fs.perms.get("/unknown").is_none());
}

#[test]
fn shared_files_are_immutable() {
    let pid = Pid(1);
    let mut fs = mounted_fs();
    assert_eq!(fs.mark_shared("/s"), Err(FsError::NotFound));
    let fd = fs.create_end("/s", pid).unwrap();
    assert_eq!(fs.mark_shared("/s"), Ok(()));
    assert_eq!(fs.write_begin(fd, pid, 0, 0).err(), Some(FsError::IsShared));
    assert_eq!(fs.delete_begin("/s"), Err(FsError::IsShared));
    assert_eq!(fs.rename_begin("/s", "/t"), Err(FsError::IsShared));
    assert_eq!(fs.delete_begin("/other"), Ok(()));
}

#[test]
fn seek_moves_the_cursor() {
    let pid = Pid(1);
    let mut fs = mounted_fs();
    let fd = fs.create_end("/f", pid).unwrap();
    assert_eq!(fs.seek(fd, pid, 100), Ok(()));
    assert_eq!(fs.read_begin(fd, pid, 0, 0).unwrap().1, 100);
    assert_eq!(fs.seek(99, pid, 1), Err(FsError::NotOpen));
}

#[test]
fn stat_merges_overlay() {
    let mut fs = mounted_fs();
    fs.perms.set(
        String::from("/x"),
        PermEntry { uid: 3, gid: 4, owner_rwx: Rwx(7), group_rwx: Rwx(5), world_rwx: Rwx(1) },
    );
    let s = fs.stat_of("/x", Some((1234, false))).unwrap();
    assert_eq!((s.size, s.is_dir, s.uid, s.gid, s.owner_rwx, s.group_rwx, s.world_rwx), (1234, 0, 3, 4, 7, 5, 1));
    let d = fs.stat_of("/dir", Some((0, true))).unwrap();
    assert_eq!((d.is_dir, d.uid, d.owner_rwx), (1, 0, 0));
    assert_eq!(fs.stat_of("/none", None).err(), Some(FsError::NotFound));
}

#[test]
fn stat_user_layout() {
    let s = Stat { size: 0x0102, is_dir: 1, owner_rwx: 7, group_rwx: 5, world_rwx: 4, uid: 9, gid: 0x0A0B };
    let b = s.to_user_bytes();
    assert_eq!(b.len(), 24);
    assert_eq!(&b[0..8], &[2, 1, 0, 0, 0, 0, 0, 0]);
    assert_eq!(&b[8..12], &[1, 7, 5, 4]);
    assert_eq!(&b[12..16], &[9, 0, 0, 0]);
    assert_eq!(&b[16..20], &[0x0B, 0x0A, 0, 0]);
}

#[test]
fn directory_helpers() {
    assert_eq!(child_path("", "a"), "a");
    assert_eq!(child_path("dir", "a"), "dir/a");
    assert!(!is_listed("."));
    assert!(!is_listed(".."));
    assert!(is_listed("..."));
}

#[test]
fn password_verification() {
    let mut fs = mounted_fs();
    fs.auth.insert(AuthEntry::new(1, b"test"));
    assert!(fs.verify_password(1, b"test"));
    assert!(!fs.verify_password(1, b"tesT"));
    assert!(!fs.verify_password(2, b"test"));
}

#[test]
fn auth_entry_hash_is_sha256_of_salt_and_password() {
    let e = AuthEntry::new(10, b"good");
    assert_eq!(e.salt, [0u8; 16]);
    // The hash depends on the password: a wrapper handing back its input would fail here.
    assert_ne!(e.hash, AuthEntry::new(10, b"bad").hash);
    assert_ne!(&e.hash[..4], b"good");
}

#[test]
fn auth_db_replaces_and_orders() {
    let mut db = AuthDb::new();
    db.insert(AuthEntry::new(5, b"a"));
    db.insert(AuthEntry::new(2, b"b"));
    db.insert(AuthEntry::new(5, b"c"));
    assert_eq!(db.len(), 2);
    let uids: Vec<u32> = db.entries().iter().map(|e| e.uid).collect();
    assert_eq!(uids, vec![2, 5]);
    assert!(db.verify(5, b"c"));
    assert!(!db.verify(5, b"a"));
}

#[test]
fn perms_db_set_get_remove() {
    let mut db = PermsDb::new();
    let e = PermEntry { uid: 1, gid: 2, owner_rwx: Rwx(7), group_rwx: Rwx(4), world_rwx: Rwx(0) };
    db.set(String::from("/a"), e);
    assert_eq!(db.get("/a"), Some(&e));
    let e2 = PermEntry { uid: 3, ..e };
    db.set(String::from("/a"), e2);
    assert_eq!(db.get("/a"), Some(&e2));
    db.get_mut("/a").unwrap().world_rwx = Rwx(1);
    assert_eq!(db.get("/a").unwrap().world_rwx, Rwx(1));
    db.remove("/a");
    assert_eq!(db.get("/a"), None);
    assert!(db.get_mut("/a").is_none());
}

#[test]
fn rwx_bits() {
    assert!(Rwx(0b100).can_read());
    assert!(!Rwx(0b100).can_write());
    assert!(Rwx(0b010).can_write());
    assert!(Rwx(0b001).can_execute());
    assert!(!Rwx(0b110).can_execute());
}

#[test]
fn consistency_repair_self_test() {
    let image = consistency_test_image();
    assert_eq!(image.len(), 2 * AUTH_RECORD_SIZE);
    assert_eq!(image[0], 0);
    assert_eq!(image[AUTH_RECORD_SIZE], STATUS_DIRTY);
    assert!(test_consistency_repair(&image));
    assert!(!test_consistency_repair(&image[..AUTH_RECORD_SIZE - 1]));
}

#[test]
fn auth_db_load_skips_dirty_and_flags_truncation() {
    let mut src = AuthDb::new();
    src.insert(AuthEntry::new(3, b"pw"));
    src.insert(AuthEntry::new(4, b"qq"));
    let image = auth_db_image(&src);
    assert_eq!(image.len(), 2 * AUTH_RECORD_SIZE);

    let mut loaded = AuthDb::new();
    assert!(!load_auth_db(&image, false, &mut loaded));
    assert!(loaded.verify(3, b"pw"));
    assert!(loaded.verify(4, b"qq"));

    let mut dirty = image.clone();
    dirty[AUTH_RECORD_SIZE] = STATUS_DIRTY;
    let mut loaded = AuthDb::new();
    assert!(load_auth_db(&dirty, false, &mut loaded));
    assert!(loaded.verify(3, b"pw"));
    assert!(!loaded.verify(4, b"qq"));

    let mut loaded = AuthDb::new();
    assert!(load_auth_db(&image[..AUTH_RECORD_SIZE + 10], false, &mut loaded));
    assert_eq!(loaded.len(), 1);

    let mut loaded = AuthDb::new();
    assert!(load_auth_db(&image, true, &mut loaded));
}

#[test]
fn perms_db_image_round_trip() {
    let mut src = PermsDb::new();
    let e = PermEntry { uid: 11, gid: 12, owner_rwx: Rwx(6), group_rwx: Rwx(4), world_rwx: Rwx(0) };
    src.set(String::from("/home/user/notes.txt"), e);
    let image = perms_db_image(&src);
    assert_eq!(image.len(), PERMS_RECORD_SIZE);
    let mut loaded = PermsDb::new();
    assert!(!load_perms_db(&image, false, &mut loaded));
    assert_eq!(loaded.get("/home/user/notes.txt"), Some(&e));
}

#[test]
fn boot_load_reports_repairs() {
    let mut src = AuthDb::new();
    src.insert(AuthEntry::new(1, b"x"));
    let mut image = auth_db_image(&src);
    image[0] = STATUS_DIRTY;
    let mut auth = AuthDb::new();
    let mut perms = PermsDb::new();
    let r = load_tables(Some((&image, false)), None, &mut auth, &mut perms);
    assert!(r.auth_dirty);
    assert!(!r.perms_dirty);
    assert_eq!(auth.len(), 0);
}

#[test]
fn fcb_table_open_and_remove() {
    let mut t = FcbTable::new();
    {
        let f = t.open("/a");
        assert_eq!(f.cursor, 0);
        f.cursor = 5;
    }
    assert_eq!(t.open("/a").cursor, 5);
    t.open("/b");
    assert_eq!(t.len(), 2);
    assert_eq!(t.paths(), vec![String::from("/a"), String::from("/b")]);
    t.remove("/a");
    assert!(t.get_mut("/a").is_none());
    assert_eq!(t.find_shared("/b"), Some(false));
}

#[test]
fn fd_tables_per_process() {
    let mut t = ProcFdTable::new();
    assert_eq!(t.alloc_fd(String::from("/x")), 3);
    assert_eq!(t.alloc_fd(String::from("/y")), 4);
    assert_eq!(t.get(3).map(|e| e.path.clone()), Some(String::from("/x")));
    assert_eq!(t.remove(3).map(|e| e.path), Some(String::from("/x")));
    assert!(t.get(3).is_none());
    assert_eq!(t.alloc_fd(String::from("/z")), 5);

    let mut reg = FdRegistry::new();
    assert_eq!(reg.alloc_for(Pid(1), String::from("/p")), 3);
    assert_eq!(reg.alloc_for(Pid(2), String::from("/q")), 3);
    assert_eq!(reg.get_path(Pid(1), 3), Some(String::from("/p")));
    reg.remove_process(Pid(1));
    assert_eq!(reg.get_path(Pid(1), 3), None);
    assert_eq!(reg.get_path(Pid(2), 3), Some(String::from("/q")));
    assert_eq!(reg.table_for(Pid(2)).alloc_fd(String::from("/r")), 4);
}

#[test]
fn disk_io_byte_stream_over_sectors() {
    let disk = RamDisk::new(8, 512);
    let mut io = DiskIo::new(disk);
    assert_eq!(io.seek(SeekTarget::Start(500)), Ok(500));
    let data: Vec<u8> = (0..40u8).collect();
    assert_eq!(io.write(&data), Ok(40));
    assert_eq!(io.seek(SeekTarget::Current(-40)), Ok(500));
    let mut back = vec![0u8; 40];
    assert_eq!(io.read(&mut back), Ok(40));
    assert_eq!(back, data);
    assert_eq!(io.seek(SeekTarget::End(-1)), Ok(4095));
    let mut one = [0u8; 2];
    assert!(io.read(&mut one).is_err());
}

#[test]
fn volume_round_trip_through_descriptors() {
    let pid = Pid(1);
    let mut fs = mounted_fs();
    let fd = fs.create("/notes.txt", pid).expect("create failed");
    assert_eq!(fs.write(fd, pid, 0, 0, b"hello volume"), Ok(12));
    assert_eq!(fs.close(fd, pid), Ok(()));
    let fd = fs.open("/notes.txt", pid, 0, 0).expect("open failed");
    let mut buf = [0u8; 5];
    assert_eq!(fs.read(fd, pid, 0, 0, &mut buf), Ok(5));
    assert_eq!(&buf, b"hello");
    let mut rest = [0u8; 32];
    assert_eq!(fs.read(fd, pid, 0, 0, &mut rest), Ok(7));
    assert_eq!(&rest[..7], b" volume");
    assert_eq!(fs.read(fd, pid, 0, 0, &mut rest), Ok(0));
    assert_eq!(fs.seek(fd, pid, 6), Ok(()));
    assert_eq!(fs.read(fd, pid, 0, 0, &mut buf), Ok(5));
    assert_eq!(&buf, b"volum");
    assert_eq!(fs.close(fd, pid), Ok(()));
}

#[test]
fn volume_open_misses_and_directories() {
    let pid = Pid(1);
    let mut fs = mounted_fs();
    assert_eq!(fs.open("/absent", pid, 0, 0), Err(FsError::NotFound));
    assert_eq!(fs.mkdir("/d"), Ok(()));
    // The volume opens an existing directory rather than refusing it.
    assert_eq!(fs.mkdir("/d"), Ok(()));
    assert_eq!(fs.open("/d", pid, 0, 0), Err(FsError::NotFound));
    assert_eq!(fs.open("rel", pid, 0, 0), Err(FsError::InvalidPath));
    let mut bare = LogicalFs::new();
    assert_eq!(bare.open("/x", pid, 0, 0), Err(FsError::NotMounted));
    assert_eq!(bare.stat("/x").err(), Some(FsError::NotMounted));
}

#[test]
fn volume_stat_and_listing() {
    let pid = Pid(1);
    let mut fs = mounted_fs();
    assert_eq!(fs.mkdir("/docs"), Ok(()));
    let fd = fs.create("/docs/a.txt", pid).unwrap();
    assert_eq!(fs.write(fd, pid, 0, 0, b"abc"), Ok(3));
    assert_eq!(fs.close(fd, pid), Ok(()));
    let fd = fs.create("/docs/b", pid).unwrap();
    assert_eq!(fs.close(fd, pid), Ok(()));
    let s = fs.stat("/docs/a.txt").unwrap();
    assert_eq!((s.size, s.is_dir), (3, 0));
    let d = fs.stat("/docs").unwrap();
    assert_eq!((d.size, d.is_dir), (0, 1));
    assert_eq!(fs.stat("/nope").err(), Some(FsError::NotFound));
    let entries = fs.getdents("/docs").unwrap();
    assert_eq!(entries, vec![(String::from("a.txt"), false), (String::from("b"), false)]);
    assert_eq!(fs.getdents("/nothing").err(), Some(FsError::NotFound));
    // The root's volume path is empty, which the volume does not open as a directory.
    assert_eq!(fs.getdents("/").err(), Some(FsError::NotFound));
}

#[test]
fn volume_rename_delete_and_rmdir_tree() {
    let pid = Pid(1);
    let mut fs = mounted_fs();
    let fd = fs.create("/old", pid).unwrap();
    assert_eq!(fs.close(fd, pid), Ok(()));
    assert_eq!(fs.rename("/old", "/new"), Ok(()));
    assert_eq!(fs.stat("/old").err(), Some(FsError::NotFound));
    assert!(fs.stat("/new").is_ok());
    assert_eq!(fs.rename("/ghost", "/g2"), Err(FsError::NotFound));
    fs.perms.set(
        String::from("/new"),
        PermEntry { uid: 1, gid: 1, owner_rwx: Rwx(6), group_rwx: Rwx(4), world_rwx: Rwx(4) },
    );
    assert_eq!(fs.delete("/new"), Ok(()));
    assert!(fs.perms.get("/new").is_none());
    assert_eq!(fs.delete("/new"), Err(FsError::NotFound));
    assert_eq!(fs.mkdir("/t"), Ok(()));
    assert_eq!(fs.mkdir("/t/u"), Ok(()));
    let fd = fs.create("/t/u/f", pid).unwrap();
    assert_eq!(fs.close(fd, pid), Ok(()));
    let fd = fs.create("/t/g", pid).unwrap();
    assert_eq!(fs.close(fd, pid), Ok(()));
    assert_eq!(fs.rmdir("/t"), Ok(()));
    assert_eq!(fs.stat("/t").err(), Some(FsError::NotFound));
    assert_eq!(fs.rmdir("/t"), Err(FsError::NotFound));
    assert_eq!(fs.rmdir("rel"), Err(FsError::InvalidPath));
}

#[test]
fn volume_write_refuses_shared_files() {
    let pid = Pid(1);
    let mut fs = mounted_fs();
    let fd = fs.create("/s", pid).unwrap();
    assert_eq!(fs.mark_shared("/s"), Ok(()));
    assert_eq!(fs.write(fd, pid, 0, 0, b"x"), Err(FsError::IsShared));
    assert_eq!(fs.delete("/s"), Err(FsError::IsShared));
    assert_eq!(fs.write(77, pid, 0, 0, b"x"), Err(FsError::NotOpen));
}

#[test]
fn system_domain_on_the_volume() {
    let mut image = format_image(VOLUME_BYTES).unwrap();
    let mut auth = AuthDb::new();
    let mut perms = PermsDb::new();
    // Without the files nothing loads and nothing needs repair.
    let r = load_at_boot(&mut image, &mut auth, &mut perms);
    assert!(!r.auth_dirty && !r.perms_dirty);
    assert!(read_volume_file(&mut image, AUTH_DB_PATH).is_none());
    // With the directory in place, appended records load back.
    let mut fs = LogicalFs::new();
    fs.mount_disk(image);
    assert_eq!(fs.mkdir("/.system"), Ok(()));
    let mut image = fs.unmount().unwrap();
    assert_eq!(append_auth_entry(&mut image, &AuthEntry::new(4, b"pw")), Ok(()));
    let e = PermEntry { uid: 4, gid: 4, owner_rwx: Rwx(7), group_rwx: Rwx(0), world_rwx: Rwx(0) };
    assert_eq!(append_perms_entry(&mut image, "/home", &e), Ok(()));
    let (bytes, failed) = read_volume_file(&mut image, AUTH_DB_PATH).unwrap();
    assert!(!failed);
    assert_eq!(bytes.len(), AUTH_RECORD_SIZE);
    let mut auth = AuthDb::new();
    let mut perms = PermsDb::new();
    let r = load_at_boot(&mut image, &mut auth, &mut perms);
    assert!(!r.auth_dirty && !r.perms_dirty);
    assert!(auth.verify(4, b"pw"));
    assert_eq!(perms.get("/home"), Some(&e));
    // A dirty record is skipped and the file is rewritten clean.
    let mut dirty = consistency_test_image();
    dirty.truncate(2 * AUTH_RECORD_SIZE);
    rewrite_volume_file(&mut image, AUTH_DB_PATH, &dirty);
    let mut auth = AuthDb::new();
    let mut perms = PermsDb::new();
    let r = load_at_boot(&mut image, &mut auth, &mut perms);
    assert!(r.auth_dirty);
    let (bytes, failed) = read_volume_file(&mut image, AUTH_DB_PATH).unwrap();
    assert!(!failed);
    assert_eq!(bytes, auth_db_image(&auth));
    assert_eq!(bytes.len(), AUTH_RECORD_SIZE);
    assert!(read_volume_file(&mut image, PERMS_DB_PATH).is_some());
}

#[test]
fn consistency_self_test_on_the_volume() {
    let mut image = format_image(VOLUME_BYTES).unwrap();
    assert!(consistency_self_test(&mut image));
    let mut fs = LogicalFs::new();
    fs.mount_disk(image);
    assert_eq!(fs.stat("/tauth.db").err(), Some(FsError::NotFound));
}

#[test]
fn file_syscalls_on_the_volume() {
    let pid = Pid(2);
    let mut fs = mounted_fs();
    let mut none: [u8; 0] = [];
    let call = |fs: &mut LogicalFs, nr: usize, path: Option<&str>, path2: Option<&str>, ok: bool, buf: &mut [u8], a0: u64, a1: u64, a2: usize| {
        file_syscall(nr, fs, pid, 0, 0, path, path2, ok, buf, a0, a1, a2)
    };
    assert_eq!(call(&mut fs, SYS_OPEN, None, None, true, &mut none, 0, 0, 0), EFAULT);
    assert_eq!(call(&mut fs, SYS_OPEN, Some("/none.txt"), None, true, &mut none, 0, 0, 0), ENOENT);
    let fd = call(&mut fs, SYS_CREATE, Some("/notes.txt"), None, true, &mut none, 0, 0, 0);
    assert_eq!(fd, 3);
    let mut data = *b"hello";
    assert_eq!(call(&mut fs, SYS_WRITE, None, None, false, &mut none, fd as u64, 0, 0), EFAULT);
    assert_eq!(call(&mut fs, SYS_WRITE, None, None, true, &mut data, fd as u64, 0, 0), 5);
    assert_eq!(call(&mut fs, SYS_SEEK, None, None, true, &mut none, fd as u64, 1, 0), 0);
    let mut out = [0u8; 8];
    assert_eq!(call(&mut fs, SYS_READ, None, None, true, &mut out, fd as u64, 0, 0), 4);
    assert_eq!(&out[..4], b"ello");
    assert_eq!(call(&mut fs, SYS_OPEN, Some("/notes.txt"), None, true, &mut none, 0, 0, 0), EBUSY);
    assert_eq!(call(&mut fs, SYS_OPEN, Some("/NOTES.txt"), None, true, &mut none, 0, 0, 0), EEXIST);
    let mut st = [0xAAu8; STAT_SIZE + 2];
    assert_eq!(call(&mut fs, SYS_STAT, Some("/notes.txt"), None, true, &mut st, 0, 0, 0), 0);
    assert_eq!(&st[..8], &5u64.to_le_bytes());
    assert_eq!(st[8], 0);
    assert_eq!(&st[STAT_SIZE..], &[0xAA, 0xAA]);
    let mut small = [0u8; 4];
    assert_eq!(call(&mut fs, SYS_STAT, Some("/notes.txt"), None, true, &mut small, 0, 0, 0), EFAULT);
    assert_eq!(call(&mut fs, SYS_MARK_SHARED, Some("/notes.txt"), None, true, &mut none, 0, 0, 0), 0);
    assert_eq!(call(&mut fs, SYS_WRITE, None, None, true, &mut data, fd as u64, 0, 0), EROFS);
    assert_eq!(call(&mut fs, SYS_DELETE, Some("/notes.txt"), None, true, &mut none, 0, 0, 0), EROFS);
    assert_eq!(call(&mut fs, SYS_CLOSE, None, None, true, &mut none, fd as u64, 0, 0), 0);
    assert_eq!(call(&mut fs, SYS_CLOSE, None, None, true, &mut none, fd as u64, 0, 0), EBADF);
    assert_eq!(call(&mut fs, SYS_MKDIR, Some("/dir"), None, true, &mut none, 0, 0, 0), 0);
    assert_eq!(call(&mut fs, SYS_RENAME, Some("/notes.txt"), None, true, &mut none, 0, 0, 0), EFAULT);
    assert_eq!(call(&mut fs, SYS_RENAME, Some("/notes.txt"), Some("/dir/n.txt"), true, &mut none, 0, 0, 0), 0);
    let mut dents = [0xFFu8; RECORD_SIZE + 3];
    assert_eq!(call(&mut fs, SYS_GETDENTS, Some("/dir"), None, true, &mut dents, 0, 0, 0), 1);
    assert_eq!(&dents[..5], b"n.txt");
    assert_eq!(dents[5], 0);
    assert_eq!(dents[NAME_MAX], 0);
    assert_eq!(&dents[RECORD_SIZE..], &[0xFF, 0xFF, 0xFF]);
    assert_eq!(call(&mut fs, SYS_RMDIR, Some("/dir"), None, true, &mut none, 0, 0, 0), 0);
    assert_eq!(call(&mut fs, SYS_GETDENTS, Some("/dir"), None, true, &mut dents, 0, 0, 0), ENOENT);
    assert_eq!(call(&mut fs, SYS_CHMOD, Some("/x"), None, true, &mut none, 0, 0, 0o754), 0);
    assert_eq!(call(&mut fs, SYS_YIELD, None, None, true, &mut none, 0, 0, 0), ENOSYS);
}

#[test]
fn login_syscall_checks_password() {
    let mut fs = LogicalFs::new();
    let mut pwd = *b"secret";
    let r = file_syscall(SYS_LOGIN, &mut fs, Pid(1), 0, 0, None, None, true, &mut pwd, 7, 0, 0);
    assert_eq!(r, EACCES);
    let r = file_syscall(SYS_LOGIN, &mut fs, Pid(1), 0, 0, None, None, false, &mut [], 7, 0, 0);
    assert_eq!(r, EFAULT);
}

#[test]
fn fcb_paths_come_out_in_ascending_order() {
    let mut t = FcbTable::new();
    t.open("/b");
    t.open("/a");
    t.open("/c/x");
    t.open("/B");
    assert_eq!(t.paths(), vec![String::from("/B"), String::from("/a"), String::from("/b"), String::from("/c/x")]);
    assert!(str_lt("/a", "/b"));
    assert!(str_lt("/a", "/ab"));
    assert!(!str_lt("/ab", "/a"));
    assert!(!str_lt("/a", "/a"));
    assert!(str_lt("/\u{e9}", "/\u{1F600}"));
}

#[test]
fn fat_check_accepts_formatted_and_refuses_broken_images() {
    let img = format_image(VOLUME_BYTES).expect("format failed");
    assert!(check_fat_image(&img));
    assert!(!check_fat_image(&vec![0u8; VOLUME_BYTES]));
    let mut bad_sector = img.clone();
    bad_sector[11] = 0;
    bad_sector[12] = 3;
    assert!(!check_fat_image(&bad_sector));
    // A cluster that links to itself: the chain from it never ends.
    let fat_type = {
        let mut cur = std::io::Cursor::new(img.clone());
        let fs = fatfs::FileSystem::new(&mut cur, fatfs::FsOptions::new()).expect("mount failed");
        fs.fat_type()
    };
    let reserved = u16::from_le_bytes([img[14], img[15]]) as usize;
    let bps = u16::from_le_bytes([img[11], img[12]]) as usize;
    let start = reserved * bps;
    let mut looped = img.clone();
    match fat_type {
        fatfs::FatType::Fat12 => {
            looped[start + 3] = 0x02;
            looped[start + 4] = (looped[start + 4] & 0xF0) | 0x00;
        }
        fatfs::FatType::Fat16 => {
            looped[start + 4] = 0x02;
            looped[start + 5] = 0x00;
        }
        fatfs::FatType::Fat32 => {
            looped[start + 8..start + 12].copy_from_slice(&2u32.to_le_bytes());
        }
    }
    // No entry reaches cluster 2 yet, so the loop is not the driver's concern.
    assert!(check_fat_image(&looped));
    // Once a file starts at cluster 2, the loop is on its chain.
    let mut used = img.clone();
    {
        let mut cur = std::io::Cursor::new(&mut used);
        let fs = fatfs::FileSystem::new(&mut cur, fatfs::FsOptions::new()).expect("mount failed");
        let mut f = fs.root_dir().create_file("A.TXT").expect("create failed");
        std::io::Write::write_all(&mut f, b"hello").expect("write failed");
    }
    assert!(check_fat_image(&used));
    match fat_type {
        fatfs::FatType::Fat12 => {
            used[start + 3] = 0x02;
            used[start + 4] = (used[start + 4] & 0xF0) | 0x00;
        }
        fatfs::FatType::Fat16 => {
            used[start + 4] = 0x02;
            used[start + 5] = 0x00;
        }
        fatfs::FatType::Fat32 => {
            used[start + 8..start + 12].copy_from_slice(&2u32.to_le_bytes());
        }
    }
    assert!(!check_fat_image(&used));
    // The file system refuses to touch such an image: it is not mounted as a volume.
    let mut fs = LogicalFs::new();
    fs.mount_disk(used);
    let mut none: [u8; 0] = [];
    assert_eq!(file_syscall(SYS_CREATE, &mut fs, Pid(1), 0, 0, Some("/x"), None, true, &mut none, 0, 0, 0), EFAULT);
}

#[test]
fn removing_a_process_keeps_the_others() {
    let mut r = FdRegistry::new();
    let p = Pid(7);
    let q = Pid(8);
    assert_eq!(r.table_for(p).alloc_fd(String::from("/a")), 3);
    assert_eq!(r.table_for(q).alloc_fd(String::from("/b")), 3);
    r.remove_process(p);
    assert!(r.table_for(p).get(3).is_none());
    assert_eq!(r.table_for(p).alloc_fd(String::from("/c")), 3);
    assert_eq!(r.table_for(q).get(3).map(|e| e.path.clone()), Some(String::from("/b")));
}

/// The byte offset of the first short-name entry of the directory at `dir_off`, other than
/// `.` and `..`, that is a directory (`dir`) or a file.
fn find_entry(img: &[u8], dir_off: usize, dir: bool) -> usize {
    let mut o = dir_off;
    loop {
        assert!(img[o] != 0, "no such entry");
        let a = img[o + 11];
        if img[o] != 0xE5 && img[o] != b'.' && a & 0x0F != 0x0F && (a & 0x10 != 0) == dir {
            return o;
        }
        o += 32;
    }
}

#[test]
fn fat_check_refuses_directory_entries_with_reserved_clusters() {
    let mut img = format_image(VOLUME_BYTES).expect("format failed");
    {
        let mut cur = std::io::Cursor::new(&mut img);
        let fs = fatfs::FileSystem::new(&mut cur, fatfs::FsOptions::new()).expect("mount failed");
        let dir = fs.root_dir().create_dir("D").expect("mkdir failed");
        let mut f = dir.create_file("F").expect("create failed");
        std::io::Write::write_all(&mut f, b"hello").expect("write failed");
    }
    assert!(check_fat_image(&img));
    let bps = u16::from_le_bytes([img[11], img[12]]) as usize;
    let spc = img[13] as usize;
    let reserved = u16::from_le_bytes([img[14], img[15]]) as usize;
    let fats = img[16] as usize;
    let root_entries = u16::from_le_bytes([img[17], img[18]]) as usize;
    let spf = u16::from_le_bytes([img[22], img[23]]) as usize;
    let root_off = (reserved + fats * spf) * bps;
    let data_off = root_off + (root_entries * 32 + bps - 1) / bps * bps;
    // The directory's entry in the root names cluster 1.
    let d_entry = find_entry(&img, root_off, true);
    let d_cluster = u16::from_le_bytes([img[d_entry + 26], img[d_entry + 27]]) as usize;
    let mut bad_dir = img.clone();
    bad_dir[d_entry + 26] = 1;
    bad_dir[d_entry + 27] = 0;
    assert!(!check_fat_image(&bad_dir));
    // The file's entry, one level down, names cluster 1.
    let d_off = data_off + (d_cluster - 2) * spc * bps;
    let f_entry = find_entry(&img, d_off, false);
    let mut bad_file = img.clone();
    bad_file[f_entry + 26] = 1;
    bad_file[f_entry + 27] = 0;
    assert!(!check_fat_image(&bad_file));
    // A cluster past the volume is refused as well.
    let mut past_end = img.clone();
    past_end[f_entry + 26] = 0xFF;
    past_end[f_entry + 27] = 0xFF;
    assert!(!check_fat_image(&past_end));
    // A deleted entry is passed over, whatever it names.
    let mut deleted = bad_file.clone();
    deleted[f_entry] = 0xE5;
    assert!(check_fat_image(&deleted));
    // The volume refuses to work on a refused image.
    let mut fs = LogicalFs::new();
    fs.mount_disk(bad_file);
    let mut none: [u8; 0] = [];
    assert_eq!(file_syscall(SYS_CREATE, &mut fs, Pid(1), 0, 0, Some("/x"), None, true, &mut none, 0, 0, 0), EFAULT);
}

#[test]
fn fat_check_refuses_a_fat32_root_below_the_data_clusters() {
    let mut img = vec![0u8; 40 * 1024 * 1024];
    {
        let cur = std::io::Cursor::new(&mut img);
        let opts = fatfs::FormatVolumeOptions::new().fat_type(fatfs::FatType::Fat32).bytes_per_cluster(512);
        fatfs::format_volume(cur, opts).expect("format failed");
    }
    assert_eq!(u16::from_le_bytes([img[22], img[23]]), 0);
    assert_eq!(u32::from_le_bytes([img[44], img[45], img[46], img[47]]), 2);
    assert!(check_fat_image(&img));
    for root in [0u32, 1u32] {
        let mut bad = img.clone();
        bad[44..48].copy_from_slice(&root.to_le_bytes());
        assert!(!check_fat_image(&bad));
    }
}

#[test]
fn opening_a_path_twice_keeps_one_block() {
    let mut t = FcbTable::new();
    t.open("/x").open_count = 2;
    assert_eq!(t.len(), 1);
    let again = t.open("/x");
    assert_eq!(again.open_count, 2);
    assert_eq!(again.cursor, 0);
    assert_eq!(t.len(), 1);
    t.open("/y");
    assert_eq!(t.len(), 2);
}
