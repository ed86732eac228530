//! The FAT volume: a byte image that the `fatfs` crate formats, reads and changes.
//!
//! Each operation below mounts the image, does one thing through `fatfs` and unmounts it
//! again, so the image is the whole state of the volume and every result is a function of the
//! image and the arguments. `fatfs` is built without its clock, so the time stamps it writes
//! are fixed. What `fatfs` computes is named, not restated: the names below are what the
//! operations return, as a pair of the answer and the image afterwards.
//!
//! The driver is only let at an image that passes `check_fat_image` (every directory that can
//! be reached from the root names only clusters of the volume, and every chain that starts
//! there, or at a FAT32 root, ends and names only clusters of the volume); on any other image
//! an operation does nothing and fails.
use vstd::prelude::*;
use crate::fs::fat_check::{check_fat_image, fat_image_ok};
use fatfs::{FileSystem, FormatVolumeOptions, FsOptions};
use std::io::{Cursor, Read, Seek, SeekFrom, Write};

verus! {

/// What the volume says of a path.
#[derive(Debug, Clone, Copy, PartialEq, Eq, Structural)]
pub enum Probe {
    /// neither a file nor a directory
    Missing,
    /// a file of this many bytes
    File(u64),
    /// a file whose size could not be read
    Unreadable,
    Dir,
}

/// `fatfs::format_volume` with default options on `image`: whether it worked, and the image.
pub uninterp spec fn fat_format(image: Seq<u8>) -> (bool, Seq<u8>);

/// `open_file` on `path` and a seek to its end: `None` when the file does not open,
/// `Some(None)` when the seek fails, else the file's size.
pub uninterp spec fn fatfs_file_size(image: Seq<u8>, path: Seq<char>) -> (Option<Option<u64>>, Seq<u8>);

/// `open_dir` on `path`: whether it worked.
pub uninterp spec fn fatfs_is_dir(image: Seq<u8>, path: Seq<char>) -> (bool, Seq<u8>);

/// What the volume has at `path`: a file of the size found at its end, a file whose end
/// could not be found, else a directory if one opens there, else nothing.
pub open spec fn fat_probe(image: Seq<u8>, path: Seq<char>) -> (Probe, Seq<u8>) {
    let (size, i1) = fat_file_size(image, path);
    match size {
        Some(Some(n)) => (Probe::File(n), i1),
        Some(None) => (Probe::Unreadable, i1),
        None => {
            let (d, i2) = fat_is_dir(i1, path);
            (if d { Probe::Dir } else { Probe::Missing }, i2)
        },
    }
}

/// `open_file` on `path`, a seek to `offset` and one `read` of up to `len` bytes: `None` when the
/// file does not open, `Some(None)` when the seek or the read fails, else the bytes read.
pub uninterp spec fn fatfs_read(image: Seq<u8>, path: Seq<char>, offset: u64, len: nat) -> (Option<Option<Seq<u8>>>, Seq<u8>);

/// `open_file` on `path`, a seek to `offset` and `write_all` of `data`: `None` when the file
/// does not open, else whether the seek and the write worked.
pub uninterp spec fn fatfs_write(image: Seq<u8>, path: Seq<char>, offset: u64, data: Seq<u8>) -> (Option<bool>, Seq<u8>);

/// `create_file` on `path` (an existing file is opened as it is).
pub uninterp spec fn fatfs_create(image: Seq<u8>, path: Seq<char>) -> (bool, Seq<u8>);

/// `remove` of `path` (a file, or an empty directory).
pub uninterp spec fn fatfs_remove(image: Seq<u8>, path: Seq<char>) -> (bool, Seq<u8>);

/// `rename` of `from` to `to` within the root directory's tree.
pub uninterp spec fn fatfs_rename(image: Seq<u8>, from: Seq<char>, to: Seq<char>) -> (bool, Seq<u8>);

/// `create_dir` on `path`.
pub uninterp spec fn fatfs_mkdir(image: Seq<u8>, path: Seq<char>) -> (bool, Seq<u8>);

/// `open_dir` on `path` and its entries in order, each as its long name and whether it is a
/// directory, or `None` where the volume could not read it.
pub uninterp spec fn fatfs_list(image: Seq<u8>, path: Seq<char>) -> (Option<Seq<Option<(Seq<char>, bool)>>>, Seq<u8>);

/// `open_file` on `path`, a seek to `len` and `truncate`: whether all of it worked.
pub uninterp spec fn fatfs_truncate(image: Seq<u8>, path: Seq<char>, len: u64) -> (bool, Seq<u8>);

/// `fatfs_file_size` on an image that passes `fat_image_ok`; otherwise the driver is not called:
/// no answer, and the image unchanged.
pub open spec fn fat_file_size(image: Seq<u8>, path: Seq<char>) -> (Option<Option<u64>>, Seq<u8>) {
    if fat_image_ok(image) {
        fatfs_file_size(image, path)
    } else {
        (None::<Option<u64>>, image)
    }
}

/// `fatfs_is_dir` on an image that passes `fat_image_ok`; otherwise the driver is not called:
/// `false`, and the image unchanged.
pub open spec fn fat_is_dir(image: Seq<u8>, path: Seq<char>) -> (bool, Seq<u8>) {
    if fat_image_ok(image) {
        fatfs_is_dir(image, path)
    } else {
        (false, image)
    }
}

/// `fatfs_read` on an image that passes `fat_image_ok`; otherwise the driver is not called:
/// no answer, and the image unchanged.
pub open spec fn fat_read(image: Seq<u8>, path: Seq<char>, offset: u64, len: nat) -> (Option<Option<Seq<u8>>>, Seq<u8>) {
    if fat_image_ok(image) {
        fatfs_read(image, path, offset, len)
    } else {
        (None::<Option<Seq<u8>>>, image)
    }
}

/// `fatfs_write` on an image that passes `fat_image_ok`; otherwise the driver is not called:
/// no answer, and the image unchanged.
pub open spec fn fat_write(image: Seq<u8>, path: Seq<char>, offset: u64, data: Seq<u8>) -> (Option<bool>, Seq<u8>) {
    if fat_image_ok(image) {
        fatfs_write(image, path, offset, data)
    } else {
        (None::<bool>, image)
    }
}

/// `fatfs_create` on an image that passes `fat_image_ok`; otherwise the driver is not called:
/// `false`, and the image unchanged.
pub open spec fn fat_create(image: Seq<u8>, path: Seq<char>) -> (bool, Seq<u8>) {
    if fat_image_ok(image) {
        fatfs_create(image, path)
    } else {
        (false, image)
    }
}

/// `fatfs_remove` on an image that passes `fat_image_ok`; otherwise the driver is not called:
/// `false`, and the image unchanged.
pub open spec fn fat_remove(image: Seq<u8>, path: Seq<char>) -> (bool, Seq<u8>) {
    if fat_image_ok(image) {
        fatfs_remove(image, path)
    } else {
        (false, image)
    }
}

/// `fatfs_rename` on an image that passes `fat_image_ok`; otherwise the driver is not called:
/// `false`, and the image unchanged.
pub open spec fn fat_rename(image: Seq<u8>, from: Seq<char>, to: Seq<char>) -> (bool, Seq<u8>) {
    if fat_image_ok(image) {
        fatfs_rename(image, from, to)
    } else {
        (false, image)
    }
}

/// `fatfs_mkdir` on an image that passes `fat_image_ok`; otherwise the driver is not called:
/// `false`, and the image unchanged.
pub open spec fn fat_mkdir(image: Seq<u8>, path: Seq<char>) -> (bool, Seq<u8>) {
    if fat_image_ok(image) {
        fatfs_mkdir(image, path)
    } else {
        (false, image)
    }
}

/// `fatfs_list` on an image that passes `fat_image_ok`; otherwise the driver is not called:
/// no answer, and the image unchanged.
pub open spec fn fat_list(image: Seq<u8>, path: Seq<char>) -> (Option<Seq<Option<(Seq<char>, bool)>>>, Seq<u8>) {
    if fat_image_ok(image) {
        fatfs_list(image, path)
    } else {
        (None::<Seq<Option<(Seq<char>, bool)>>>, image)
    }
}

/// `fatfs_truncate` on an image that passes `fat_image_ok`; otherwise the driver is not called:
/// `false`, and the image unchanged.
pub open spec fn fat_truncate(image: Seq<u8>, path: Seq<char>, len: u64) -> (bool, Seq<u8>) {
    if fat_image_ok(image) {
        fatfs_truncate(image, path, len)
    } else {
        (false, image)
    }
}

/// Formats `image` as a FAT volume (`fatfs::format_volume`, default options). Claimed: the
/// result and the image afterwards are `fat_format` of the image before. No length of image
/// is excluded: with default options `format_volume` returns an error, and does not panic, for
/// a length it cannot lay out. It refuses more than `u32::MAX` sectors before any
/// arithmetic; a volume of at most its reserved and root sectors plus eight is refused before
/// the first subtraction; the table size it then computes is under half the remaining sectors,
/// so the later subtractions stay positive; the cluster size it picks lies between one sector
/// and 32 KiB, a power of two, so its sector-count assertion holds; and the FAT32 root
/// directory it allocates is the first free cluster of a fresh table, cluster 2, as its own
/// assertion expects.
#[verifier::external_body]
pub(crate) fn volume_format(image: &mut Vec<u8>) -> (ok: bool)
    ensures
        (ok, final(image)@) == fat_format(old(image)@),
{
    let mut cur = Cursor::new(std::mem::take(image));
    let ok = fatfs::format_volume(&mut cur, FormatVolumeOptions::new()).is_ok();
    *image = cur.into_inner();
    ok
}

/// The size of the file `path` (`Dir::open_file`, then `File::seek` to the end): `None` when the
/// file does not open (or the volume does not mount), `Some(None)` when the seek fails.
#[verifier::external_body]
fn driver_file_size(image: &mut Vec<u8>, path: &str) -> (r: Option<Option<u64>>)
    requires
        fat_image_ok(old(image)@),
    ensures
        (r, final(image)@) == fatfs_file_size(old(image)@, path@),
{
    let mut cur = Cursor::new(std::mem::take(image));
    let r = match FileSystem::new(&mut cur, FsOptions::new()) {
        Ok(fs) => fs.root_dir().open_file(path).ok().map(|mut f| f.seek(SeekFrom::End(0)).ok()),
        Err(_) => None,
    };
    *image = cur.into_inner();
    r
}

/// `driver_file_size` (above) once the image passes `check_fat_image`; otherwise the driver is not called.
pub(crate) fn volume_file_size(image: &mut Vec<u8>, path: &str) -> (r: Option<Option<u64>>)
    ensures
        (r, final(image)@) == fat_file_size(old(image)@, path@),
{
    if !check_fat_image(image) {
        return None;
    }
    driver_file_size(image, path)
}

/// Whether `path` opens as a directory (`Dir::open_dir`); false when the volume does not mount.
#[verifier::external_body]
fn driver_is_dir(image: &mut Vec<u8>, path: &str) -> (r: bool)
    requires
        fat_image_ok(old(image)@),
    ensures
        (r, final(image)@) == fatfs_is_dir(old(image)@, path@),
{
    let mut cur = Cursor::new(std::mem::take(image));
    let r = match FileSystem::new(&mut cur, FsOptions::new()) {
        Ok(fs) => fs.root_dir().open_dir(path).is_ok(),
        Err(_) => false,
    };
    *image = cur.into_inner();
    r
}

/// `driver_is_dir` (above) once the image passes `check_fat_image`; otherwise the driver is not called.
pub(crate) fn volume_is_dir(image: &mut Vec<u8>, path: &str) -> (r: bool)
    ensures
        (r, final(image)@) == fat_is_dir(old(image)@, path@),
{
    if !check_fat_image(image) {
        return false;
    }
    driver_is_dir(image, path)
}

/// What the volume in `image` has at `path`: a file (with its size, or unreadable when its end
/// cannot be found), else a directory, else nothing.
pub(crate) fn volume_probe(image: &mut Vec<u8>, path: &str) -> (r: Probe)
    ensures
        (r, final(image)@) == fat_probe(old(image)@, path@),
{
    match volume_file_size(image, path) {
        Some(Some(n)) => Probe::File(n),
        Some(None) => Probe::Unreadable,
        None => {
            if volume_is_dir(image, path) {
                Probe::Dir
            } else {
                Probe::Missing
            }
        },
    }
}

/// Reads up to `len` bytes of the file `path` from `offset` (`Dir::open_file`, `File::seek`,
/// one `File::read`). The bytes come from a buffer of `len` bytes, so there are at most `len`.
#[verifier::external_body]
fn driver_read(image: &mut Vec<u8>, path: &str, offset: u64, len: usize) -> (r: Option<Option<Vec<u8>>>)
    requires
        fat_image_ok(old(image)@),
    ensures
        ({
            let (res, img) = fatfs_read(old(image)@, path@, offset, len as nat);
            &&& final(image)@ == img
            &&& match r {
                None => res is None,
                Some(None) => res == Some(None::<Seq<u8>>),
                Some(Some(v)) => res == Some(Some(v@)),
            }
        }),
        r matches Some(Some(v)) ==> v@.len() <= len,
{
    let mut cur = Cursor::new(std::mem::take(image));
    let r = (|| -> Option<Option<Vec<u8>>> {
        let fs = FileSystem::new(&mut cur, FsOptions::new()).ok()?;
        let mut f = fs.root_dir().open_file(path).ok()?;
        let mut buf = vec![0u8; len];
        Some(f.seek(SeekFrom::Start(offset)).and_then(|_| f.read(&mut buf)).ok().map(|n| buf[..n].to_vec()))
    })();
    *image = cur.into_inner();
    r
}

/// `driver_read` (above) once the image passes `check_fat_image`; otherwise the driver is not called.
pub(crate) fn volume_read(image: &mut Vec<u8>, path: &str, offset: u64, len: usize) -> (r: Option<Option<Vec<u8>>>)
    ensures
        ({
            let (res, img) = fat_read(old(image)@, path@, offset, len as nat);
            &&& final(image)@ == img
            &&& match r {
                None => res is None,
                Some(None) => res == Some(None::<Seq<u8>>),
                Some(Some(v)) => res == Some(Some(v@)),
            }
        }),
        r matches Some(Some(v)) ==> v@.len() <= len,
{
    if !check_fat_image(image) {
        return None;
    }
    driver_read(image, path, offset, len)
}

/// Writes `data` into the file `path` at `offset` (`Dir::open_file`, `File::seek`,
/// `Write::write_all`): `None` when the file does not open.
#[verifier::external_body]
fn driver_write(image: &mut Vec<u8>, path: &str, offset: u64, data: &[u8]) -> (r: Option<bool>)
    requires
        fat_image_ok(old(image)@),
    ensures
        (r, final(image)@) == fatfs_write(old(image)@, path@, offset, data@),
{
    let mut cur = Cursor::new(std::mem::take(image));
    let r = (|| -> Option<bool> {
        let fs = FileSystem::new(&mut cur, FsOptions::new()).ok()?;
        let mut f = fs.root_dir().open_file(path).ok()?;
        Some(f.seek(SeekFrom::Start(offset)).and_then(|_| f.write_all(data)).is_ok())
    })();
    *image = cur.into_inner();
    r
}

/// `driver_write` (above) once the image passes `check_fat_image`; otherwise the driver is not called.
pub(crate) fn volume_write(image: &mut Vec<u8>, path: &str, offset: u64, data: &[u8]) -> (r: Option<bool>)
    ensures
        (r, final(image)@) == fat_write(old(image)@, path@, offset, data@),
{
    if !check_fat_image(image) {
        return None;
    }
    driver_write(image, path, offset, data)
}

/// Creates the file `path`, or opens it if it exists (`Dir::create_file`).
#[verifier::external_body]
fn driver_create(image: &mut Vec<u8>, path: &str) -> (ok: bool)
    requires
        fat_image_ok(old(image)@),
    ensures
        (ok, final(image)@) == fatfs_create(old(image)@, path@),
{
    let mut cur = Cursor::new(std::mem::take(image));
    let ok = match FileSystem::new(&mut cur, FsOptions::new()) {
        Ok(fs) => fs.root_dir().create_file(path).is_ok(),
        Err(_) => false,
    };
    *image = cur.into_inner();
    ok
}

/// `driver_create` (above) once the image passes `check_fat_image`; otherwise the driver is not called.
pub(crate) fn volume_create(image: &mut Vec<u8>, path: &str) -> (ok: bool)
    ensures
        (ok, final(image)@) == fat_create(old(image)@, path@),
{
    if !check_fat_image(image) {
        return false;
    }
    driver_create(image, path)
}

/// Removes the file or empty directory `path` (`Dir::remove`).
#[verifier::external_body]
fn driver_remove(image: &mut Vec<u8>, path: &str) -> (ok: bool)
    requires
        fat_image_ok(old(image)@),
    ensures
        (ok, final(image)@) == fatfs_remove(old(image)@, path@),
{
    let mut cur = Cursor::new(std::mem::take(image));
    let ok = match FileSystem::new(&mut cur, FsOptions::new()) {
        Ok(fs) => fs.root_dir().remove(path).is_ok(),
        Err(_) => false,
    };
    *image = cur.into_inner();
    ok
}

/// `driver_remove` (above) once the image passes `check_fat_image`; otherwise the driver is not called.
pub(crate) fn volume_remove(image: &mut Vec<u8>, path: &str) -> (ok: bool)
    ensures
        (ok, final(image)@) == fat_remove(old(image)@, path@),
{
    if !check_fat_image(image) {
        return false;
    }
    driver_remove(image, path)
}

/// Renames `from` to `to` (`Dir::rename` on the root directory, into itself).
#[verifier::external_body]
fn driver_rename(image: &mut Vec<u8>, from: &str, to: &str) -> (ok: bool)
    requires
        fat_image_ok(old(image)@),
    ensures
        (ok, final(image)@) == fatfs_rename(old(image)@, from@, to@),
{
    let mut cur = Cursor::new(std::mem::take(image));
    let ok = match FileSystem::new(&mut cur, FsOptions::new()) {
        Ok(fs) => fs.root_dir().rename(from, &fs.root_dir(), to).is_ok(),
        Err(_) => false,
    };
    *image = cur.into_inner();
    ok
}

/// `driver_rename` (above) once the image passes `check_fat_image`; otherwise the driver is not called.
pub(crate) fn volume_rename(image: &mut Vec<u8>, from: &str, to: &str) -> (ok: bool)
    ensures
        (ok, final(image)@) == fat_rename(old(image)@, from@, to@),
{
    if !check_fat_image(image) {
        return false;
    }
    driver_rename(image, from, to)
}

/// Creates the directory `path` (`Dir::create_dir`).
#[verifier::external_body]
fn driver_mkdir(image: &mut Vec<u8>, path: &str) -> (ok: bool)
    requires
        fat_image_ok(old(image)@),
    ensures
        (ok, final(image)@) == fatfs_mkdir(old(image)@, path@),
{
    let mut cur = Cursor::new(std::mem::take(image));
    let ok = match FileSystem::new(&mut cur, FsOptions::new()) {
        Ok(fs) => fs.root_dir().create_dir(path).is_ok(),
        Err(_) => false,
    };
    *image = cur.into_inner();
    ok
}

/// `driver_mkdir` (above) once the image passes `check_fat_image`; otherwise the driver is not called.
pub(crate) fn volume_mkdir(image: &mut Vec<u8>, path: &str) -> (ok: bool)
    ensures
        (ok, final(image)@) == fat_mkdir(old(image)@, path@),
{
    if !check_fat_image(image) {
        return false;
    }
    driver_mkdir(image, path)
}

/// The entries of the directory `path` in order (`Dir::open_dir`, `Dir::iter`,
/// `DirEntry::file_name`, `DirEntry::is_dir`); an entry the volume could not read is `None`.
#[verifier::external_body]
fn driver_list(image: &mut Vec<u8>, path: &str) -> (r: Option<Vec<Option<(String, bool)>>>)
    requires
        fat_image_ok(old(image)@),
    ensures
        ({
            let (res, img) = fatfs_list(old(image)@, path@);
            &&& final(image)@ == img
            &&& match r {
                None => res is None,
                Some(v) => res == Some(Seq::new(v@.len(), |i: int| match v@[i] {
                    Some((n, d)) => Some((n@, d)),
                    None => None,
                })),
            }
        }),
{
    let mut cur = Cursor::new(std::mem::take(image));
    let r = (|| -> Option<Vec<Option<(String, bool)>>> {
        let fs = FileSystem::new(&mut cur, FsOptions::new()).ok()?;
        let dir = fs.root_dir().open_dir(path).ok()?;
        let mut entries = Vec::new();
        for e in dir.iter() {
            entries.push(match e {
                Ok(e) => Some((e.file_name(), e.is_dir())),
                Err(_) => None,
            });
        }
        Some(entries)
    })();
    *image = cur.into_inner();
    r
}

/// `driver_list` (above) once the image passes `check_fat_image`; otherwise the driver is not called.
pub(crate) fn volume_list(image: &mut Vec<u8>, path: &str) -> (r: Option<Vec<Option<(String, bool)>>>)
    ensures
        ({
            let (res, img) = fat_list(old(image)@, path@);
            &&& final(image)@ == img
            &&& match r {
                None => res is None,
                Some(v) => res == Some(Seq::new(v@.len(), |i: int| match v@[i] {
                    Some((n, d)) => Some((n@, d)),
                    None => None,
                })),
            }
        }),
{
    if !check_fat_image(image) {
        return None;
    }
    driver_list(image, path)
}

/// Cuts the file `path` to `len` bytes (`Dir::open_file`, `File::seek`, `File::truncate`).
#[verifier::external_body]
fn driver_truncate(image: &mut Vec<u8>, path: &str, len: u64) -> (ok: bool)
    requires
        fat_image_ok(old(image)@),
    ensures
        (ok, final(image)@) == fatfs_truncate(old(image)@, path@, len),
{
    let mut cur = Cursor::new(std::mem::take(image));
    let ok = (|| -> Option<bool> {
        let fs = FileSystem::new(&mut cur, FsOptions::new()).ok()?;
        let mut f = fs.root_dir().open_file(path).ok()?;
        Some(f.seek(SeekFrom::Start(len)).and_then(|_| f.truncate()).is_ok())
    })().unwrap_or(false);
    *image = cur.into_inner();
    ok
}

/// `driver_truncate` (above) once the image passes `check_fat_image`; otherwise the driver is not called.
pub(crate) fn volume_truncate(image: &mut Vec<u8>, path: &str, len: u64) -> (ok: bool)
    ensures
        (ok, final(image)@) == fat_truncate(old(image)@, path@, len),
{
    if !check_fat_image(image) {
        return false;
    }
    driver_truncate(image, path, len)
}

/// A fresh volume image of `len` zero bytes, formatted; `None` when formatting fails.
pub fn format_image(len: usize) -> (r: Option<Vec<u8>>)
    ensures
        ({
            let (ok, img) = fat_format(Seq::new(len as nat, |i: int| 0u8));
            match r {
                Some(v) => ok && v@ == img,
                None => !ok,
            }
        }),
{
    let mut image: Vec<u8> = Vec::new();
    let mut i: usize = 0;
    while i < len
        invariant
            i <= len,
            image@ == Seq::new(i as nat, |k: int| 0u8),
        decreases len - i,
    {
        image.push(0);
        i = i + 1;
        proof {
            assert(image@ =~= Seq::new(i as nat, |k: int| 0u8));
        }
    }
    if volume_format(&mut image) {
        Some(image)
    } else {
        None
    }
}

} // verus!
