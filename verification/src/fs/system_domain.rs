//! The kernel-managed `/.system/` domain: `auth.db` and `perms.db` as files of fixed-size
//! binary records, each with a status byte. A record marked dirty was being written when the
//! system stopped; it is skipped at load time, and its presence (or a truncated record, or a
//! read error) makes the loader rewrite the file from what was loaded.
use vstd::prelude::*;
use crate::fs::overlay::{AuthDb, AuthEntry, PermEntry, PermsDb, Rwx, matches_password, sha256, zero_salt};
use crate::fs::stat::{le_bytes_u32, push_u32_le};
use crate::fs::volume::{
    Probe, fat_create, fat_probe, fat_read, fat_remove, fat_truncate, fat_write, volume_create, volume_probe, volume_read,
    volume_remove, volume_truncate, volume_write,
};

verus! {

pub const AUTH_DB_PATH: &'static str = ".system/auth.db";

pub const PERMS_DB_PATH: &'static str = ".system/perms.db";

/// Bytes of path kept in a permission record.
pub const PATH_MAX: usize = 64;

/// status(1) + uid(4) + salt(16) + hash(32).
pub const AUTH_RECORD_SIZE: usize = 53;

/// status(1) + path(64, zero-padded) + uid(4) + gid(4) + owner(1) + group(1) + world(1).
pub const PERMS_RECORD_SIZE: usize = 76;

pub const STATUS_CLEAN: u8 = 0;

pub const STATUS_DIRTY: u8 = 1;

/// The number whose little-endian bytes are `b[0..4]`.
pub open spec fn u32_from_le(b: Seq<u8>) -> u32 {
    (b[0] as u32) | ((b[1] as u32) << 8u32) | ((b[2] as u32) << 16u32) | ((b[3] as u32) << 24u32)
}

/// Decoding the little-endian bytes of a number gives the number back.
pub proof fn lemma_u32_le_round_trip(v: u32)
    ensures
        u32_from_le(le_bytes_u32(v)) == v,
{
    let b = le_bytes_u32(v);
    assert(b[0] == ((v >> 0u32) & 0xff) as u8);
    assert(b[1] == ((v >> 8u32) & 0xff) as u8);
    assert(b[2] == ((v >> 16u32) & 0xff) as u8);
    assert(b[3] == ((v >> 24u32) & 0xff) as u8);
    assert(((((v >> 0u32) & 0xff) as u8) as u32) | (((((v >> 8u32) & 0xff) as u8) as u32) << 8u32) | (
    ((((v >> 16u32) & 0xff) as u8) as u32) << 16u32) | (((((v >> 24u32) & 0xff) as u8) as u32) << 24u32) == v)
        by (bit_vector);
}

/// Reads the little-endian number at `off`.
fn read_u32_le(b: &[u8], off: usize) -> (r: u32)
    requires
        off + 4 <= b@.len(),
    ensures
        r == u32_from_le(b@.subrange(off as int, off + 4)),
{
    let ghost s = b@.subrange(off as int, off + 4);
    assert(s[0] == b@[off as int] && s[1] == b@[off + 1] && s[2] == b@[off + 2] && s[3] == b@[off + 3]);
    (b[off] as u32) | ((b[off + 1] as u32) << 8u32) | ((b[off + 2] as u32) << 16u32) | ((b[off + 3] as u32) << 24u32)
}

/// Appends `src`.
fn push_all(out: &mut Vec<u8>, src: &[u8])
    ensures
        final(out)@ == old(out)@ + src@,
{
    let ghost start = out@;
    let mut i: usize = 0;
    while i < src.len()
        invariant
            i <= src@.len(),
            out@ == start + src@.subrange(0, i as int),
        decreases src@.len() - i,
    {
        out.push(src[i]);
        i = i + 1;
        proof {
            assert(out@ =~= start + src@.subrange(0, i as int));
        }
    }
    proof {
        assert(src@.subrange(0, src@.len() as int) =~= src@);
    }
}

/// The bytes of an auth record.
pub open spec fn auth_record(status: u8, uid: u32, salt: Seq<u8>, hash: Seq<u8>) -> Seq<u8> {
    seq![status] + le_bytes_u32(uid) + salt + hash
}

fn encode_auth_record(status: u8, entry: &AuthEntry) -> (r: Vec<u8>)
    ensures
        r@ == auth_record(status, entry.uid, entry.salt@, entry.hash@),
        r@.len() == AUTH_RECORD_SIZE,
{
    let mut out: Vec<u8> = Vec::new();
    out.push(status);
    push_u32_le(&mut out, entry.uid);
    push_all(&mut out, &entry.salt);
    push_all(&mut out, &entry.hash);
    proof {
        assert(out@ =~= auth_record(status, entry.uid, entry.salt@, entry.hash@));
    }
    out
}

/// Copies `b[off..off + 16]`.
fn read_16(b: &[u8], off: usize) -> (r: [u8; 16])
    requires
        off + 16 <= b@.len(),
    ensures
        r@ == b@.subrange(off as int, off + 16),
{
    let mut out = [0u8; 16];
    let blen = b.len();
    let mut i: usize = 0;
    while i < 16
        invariant
            i <= 16,
            blen == b@.len(),
            off + 16 <= blen,
            out@.len() == 16,
            forall|k: int| 0 <= k < i ==> #[trigger] out@[k] == b@[off + k],
        decreases 16 - i,
    {
        out[i] = b[off + i];
        i = i + 1;
    }
    assert(out@ =~= b@.subrange(off as int, off + 16));
    out
}

/// Copies `b[off..off + 32]`.
fn read_32(b: &[u8], off: usize) -> (r: [u8; 32])
    requires
        off + 32 <= b@.len(),
    ensures
        r@ == b@.subrange(off as int, off + 32),
{
    let mut out = [0u8; 32];
    let blen = b.len();
    let mut i: usize = 0;
    while i < 32
        invariant
            i <= 32,
            blen == b@.len(),
            off + 32 <= blen,
            out@.len() == 32,
            forall|k: int| 0 <= k < i ==> #[trigger] out@[k] == b@[off + k],
        decreases 32 - i,
    {
        out[i] = b[off + i];
        i = i + 1;
    }
    assert(out@ =~= b@.subrange(off as int, off + 32));
    out
}

/// The status of the record at `b[off..]`, and its entry.
fn decode_auth_record(b: &[u8], off: usize) -> (r: (u8, AuthEntry))
    requires
        off + AUTH_RECORD_SIZE <= b@.len(),
    ensures
        r.0 == b@[off as int],
        r.1.uid == u32_from_le(b@.subrange(off + 1, off + 5)),
        r.1.salt@ == b@.subrange(off + 5, off + 21),
        r.1.hash@ == b@.subrange(off + 21, off + 53),
{
    let status = b[off];
    let uid = read_u32_le(b, off + 1);
    let salt = read_16(b, off + 5);
    let hash = read_32(b, off + 21);
    (status, AuthEntry { uid, salt, hash })
}

/// Decoding an encoded auth record gives back its status and entry.
pub proof fn lemma_auth_record_round_trip(status: u8, uid: u32, salt: Seq<u8>, hash: Seq<u8>)
    requires
        salt.len() == 16,
        hash.len() == 32,
    ensures
        ({
            let b = auth_record(status, uid, salt, hash);
            &&& b.len() == AUTH_RECORD_SIZE
            &&& b[0] == status
            &&& u32_from_le(b.subrange(1, 5)) == uid
            &&& b.subrange(5, 21) == salt
            &&& b.subrange(21, 53) == hash
        }),
{
    let b = auth_record(status, uid, salt, hash);
    assert(b.subrange(1, 5) =~= le_bytes_u32(uid));
    assert(b.subrange(5, 21) =~= salt);
    assert(b.subrange(21, 53) =~= hash);
    lemma_u32_le_round_trip(uid);
}

/// What loading auth records into a table with credentials `m` gives: complete records in
/// order, each one not marked dirty recorded under its user.
pub open spec fn load_auth_spec(m: Map<u32, (Seq<u8>, Seq<u8>)>, bytes: Seq<u8>) -> Map<u32, (Seq<u8>, Seq<u8>)>
    decreases bytes.len(),
{
    if bytes.len() < AUTH_RECORD_SIZE {
        m
    } else {
        let m2 = if bytes[0] == STATUS_DIRTY {
            m
        } else {
            m.insert(u32_from_le(bytes.subrange(1, 5)), (bytes.subrange(5, 21), bytes.subrange(21, 53)))
        };
        load_auth_spec(m2, bytes.subrange(AUTH_RECORD_SIZE as int, bytes.len() as int))
    }
}

/// Whether some complete record of `bytes` is marked dirty.
pub open spec fn has_dirty_record(bytes: Seq<u8>, size: nat) -> bool
    decreases bytes.len(),
{
    if size == 0 || bytes.len() < size {
        false
    } else {
        bytes[0] == STATUS_DIRTY || has_dirty_record(bytes.subrange(size as int, bytes.len() as int), size)
    }
}

/// Loads the records of an `auth.db` read as `bytes` (`read_failed`: reading stopped on an
/// error). Returns whether the file must be rewritten: a dirty record, a truncated record or a
/// read error.
pub fn load_auth_db(bytes: &[u8], read_failed: bool, auth: &mut AuthDb) -> (dirty: bool)
    requires
        old(auth).wf(),
    ensures
        final(auth).wf(),
        final(auth).creds() == load_auth_spec(old(auth).creds(), bytes@),
        dirty == (read_failed || bytes@.len() % (AUTH_RECORD_SIZE as nat) != 0 || has_dirty_record(bytes@, AUTH_RECORD_SIZE as nat)),
{
    let mut off: usize = 0;
    let mut dirty = false;
    let n = bytes.len();
    proof {
        assert(bytes@.subrange(0, n as int) =~= bytes@);
    }
    while n - off >= AUTH_RECORD_SIZE
        invariant
            n == bytes@.len(),
            off <= n,
            off % AUTH_RECORD_SIZE == 0,
            auth.wf(),
            load_auth_spec(auth.creds(), bytes@.subrange(off as int, n as int)) == load_auth_spec(old(auth).creds(), bytes@),
            (dirty || has_dirty_record(bytes@.subrange(off as int, n as int), AUTH_RECORD_SIZE as nat))
                == has_dirty_record(bytes@, AUTH_RECORD_SIZE as nat),
        decreases n - off,
    {
        let ghost rest = bytes@.subrange(off as int, n as int);
        let (status, entry) = decode_auth_record(bytes, off);
        proof {
            assert(rest.subrange(AUTH_RECORD_SIZE as int, rest.len() as int) =~= bytes@.subrange(off + AUTH_RECORD_SIZE, n as int));
            assert(rest[0] == status);
            assert(rest.subrange(1, 5) =~= bytes@.subrange(off + 1, off + 5));
            assert(rest.subrange(5, 21) =~= bytes@.subrange(off + 5, off + 21));
            assert(rest.subrange(21, 53) =~= bytes@.subrange(off + 21, off + 53));
        }
        if status == STATUS_DIRTY {
            dirty = true;
        } else {
            auth.insert(entry);
        }
        off = off + AUTH_RECORD_SIZE;
    }
    proof {
        let rest = bytes@.subrange(off as int, n as int);
        assert(rest.len() < AUTH_RECORD_SIZE);
        assert(!has_dirty_record(rest, AUTH_RECORD_SIZE as nat));
        assert(n % AUTH_RECORD_SIZE != 0 <==> off < n);
    }
    dirty || read_failed || off < n
}

/// The clean records of every entry, in table order.
pub open spec fn auth_image(entries: Seq<AuthEntry>) -> Seq<u8>
    decreases entries.len(),
{
    if entries.len() == 0 {
        Seq::empty()
    } else {
        auth_image(entries.drop_last()) + auth_record(
            STATUS_CLEAN,
            entries.last().uid,
            entries.last().salt@,
            entries.last().hash@,
        )
    }
}

/// The contents a repaired `auth.db` is rewritten with: every entry, clean, in increasing user id.
pub fn auth_db_image(auth: &AuthDb) -> (r: Vec<u8>)
    ensures
        r@ == auth_image(auth.entry_seq()),
{
    let entries = auth.entries();
    let mut out: Vec<u8> = Vec::new();
    let mut i: usize = 0;
    while i < entries.len()
        invariant
            i <= entries@.len(),
            out@ == auth_image(entries@.subrange(0, i as int)),
        decreases entries@.len() - i,
    {
        let rec = encode_auth_record(STATUS_CLEAN, &entries[i]);
        push_all(&mut out, rec.as_slice());
        proof {
            assert(entries@.subrange(0, i + 1).drop_last() =~= entries@.subrange(0, i as int));
        }
        i = i + 1;
    }
    proof {
        assert(entries@.subrange(0, entries@.len() as int) =~= entries@);
    }
    out
}

/// The zero-padded path field of a permission record: the first `PATH_MAX` bytes of `path`.
pub open spec fn path_field(path: Seq<u8>) -> Seq<u8> {
    let n = if path.len() < PATH_MAX { path.len() as int } else { PATH_MAX as int };
    path.subrange(0, n) + Seq::new((PATH_MAX - n) as nat, |i: int| 0u8)
}

/// The bytes of a permission record.
pub open spec fn perms_record(status: u8, path: Seq<u8>, e: PermEntry) -> Seq<u8> {
    seq![status] + path_field(path) + le_bytes_u32(e.uid) + le_bytes_u32(e.gid) + seq![
        e.owner_rwx.0,
        e.group_rwx.0,
        e.world_rwx.0,
    ]
}

fn encode_perms_record(status: u8, path: &str, entry: &PermEntry) -> (r: Vec<u8>)
    ensures
        r@ == perms_record(status, vstd::utf8::encode_utf8(path@), *entry),
        r@.len() == PERMS_RECORD_SIZE,
{
    let mut out: Vec<u8> = Vec::new();
    out.push(status);
    let pb = path.as_bytes();
    let n = if pb.len() < PATH_MAX { pb.len() } else { PATH_MAX };
    let mut i: usize = 0;
    while i < PATH_MAX
        invariant
            i <= PATH_MAX,
            n <= pb@.len(),
            n == (if pb@.len() < PATH_MAX { pb@.len() as int } else { PATH_MAX as int }),
            out@.len() == 1 + i,
            out@[0] == status,
            forall|k: int| 0 <= k < i ==> #[trigger] out@[1 + k] == path_field(pb@)[k],
        decreases PATH_MAX - i,
    {
        if i < n {
            out.push(pb[i]);
        } else {
            out.push(0);
        }
        i = i + 1;
    }
    let ghost head = out@;
    push_u32_le(&mut out, entry.uid);
    push_u32_le(&mut out, entry.gid);
    out.push(entry.owner_rwx.0);
    out.push(entry.group_rwx.0);
    out.push(entry.world_rwx.0);
    proof {
        assert forall|j: int| 1 <= j < 1 + PATH_MAX implies head[j] == (seq![status] + path_field(pb@))[j] by {
            assert(head[1 + (j - 1)] == path_field(pb@)[j - 1]);
        }
        assert(head =~= seq![status] + path_field(pb@));
        assert(out@ =~= perms_record(status, pb@, *entry));
    }
    out
}

/// The index of the first zero byte of `s`, or its length.
pub open spec fn first_zero(s: Seq<u8>) -> int
    decreases s.len(),
{
    if s.len() == 0 {
        0
    } else if s.last() == 0 && first_zero(s.drop_last()) == s.len() - 1 {
        s.len() - 1
    } else {
        first_zero(s.drop_last())
    }
}

/// The text of a permission record's path field: the bytes before the first zero, when they
/// are valid UTF-8; otherwise empty.
pub open spec fn field_path(field: Seq<u8>) -> Seq<char> {
    let raw = field.subrange(0, first_zero_index(field));
    if vstd::utf8::valid_utf8(raw) { vstd::utf8::decode_utf8(raw) } else { Seq::empty() }
}

/// The index of the first zero byte of `s`, or its length.
pub open spec fn first_zero_index(s: Seq<u8>) -> int {
    if exists|i: int| 0 <= i < s.len() && s[i] == 0 {
        choose|i: int| 0 <= i < s.len() && s[i] == 0 && forall|k: int| 0 <= k < i ==> s[k] != 0
    } else {
        s.len() as int
    }
}

/// Calls `core::str::from_utf8`. Claimed, as its documentation says: it succeeds exactly on
/// valid UTF-8, and then the text is what the bytes encode.
#[verifier::external_body]
fn utf8_text(bytes: &[u8]) -> (r: Option<String>)
    ensures
        match r {
            Some(s) => vstd::utf8::valid_utf8(bytes@) && s@ == vstd::utf8::decode_utf8(bytes@),
            None => !vstd::utf8::valid_utf8(bytes@),
        },
{
    match core::str::from_utf8(bytes) {
        Ok(s) => Some(String::from(s)),
        Err(_) => None,
    }
}

/// The status, path and entry of the permission record at `b[off..]`.
fn decode_perms_record(b: &[u8], off: usize) -> (r: (u8, String, PermEntry))
    requires
        off + PERMS_RECORD_SIZE <= b@.len(),
    ensures
        r.0 == b@[off as int],
        r.1@ == field_path(b@.subrange(off + 1, off + 1 + PATH_MAX)),
        r.2.uid == u32_from_le(b@.subrange(off + 65, off + 69)),
        r.2.gid == u32_from_le(b@.subrange(off + 69, off + 73)),
        r.2.owner_rwx.0 == b@[off + 73],
        r.2.group_rwx.0 == b@[off + 74],
        r.2.world_rwx.0 == b@[off + 75],
{
    let status = b[off];
    let ghost field = b@.subrange(off + 1, off + 1 + PATH_MAX);
    let blen = b.len();
    let mut len: usize = 0;
    while len < PATH_MAX && b[off + 1 + len] != 0
        invariant
            len <= PATH_MAX,
            blen == b@.len(),
            off + PERMS_RECORD_SIZE <= blen,
            field == b@.subrange(off + 1, off + 1 + PATH_MAX),
            forall|k: int| 0 <= k < len ==> field[k] != 0,
        decreases PATH_MAX - len,
    {
        len = len + 1;
    }
    proof {
        if len < PATH_MAX {
            assert(field[len as int] == 0);
            assert(exists|i: int| 0 <= i < field.len() && field[i] == 0);
            let c = first_zero_index(field);
            if c < len {
                assert(field[c] != 0);
            } else if c > len {
                assert(field[len as int] != 0);
            }
        } else {
            assert(!exists|i: int| 0 <= i < field.len() && field[i] == 0);
        }
    }
    let mut raw: Vec<u8> = Vec::new();
    let mut i: usize = 0;
    while i < len
        invariant
            i <= len,
            len <= PATH_MAX,
            blen == b@.len(),
            off + PERMS_RECORD_SIZE <= blen,
            raw@ == b@.subrange(off + 1, off + 1 + i),
        decreases len - i,
    {
        raw.push(b[off + 1 + i]);
        i = i + 1;
        proof {
            assert(raw@ =~= b@.subrange(off + 1, off + 1 + i));
        }
    }
    proof {
        assert(raw@ =~= field.subrange(0, len as int));
    }
    let path = match utf8_text(raw.as_slice()) {
        Some(s) => s,
        None => String::new(),
    };
    let base = off + 1 + PATH_MAX;
    let uid = read_u32_le(b, base);
    let gid = read_u32_le(b, base + 4);
    let entry = PermEntry {
        uid,
        gid,
        owner_rwx: Rwx(b[base + 8]),
        group_rwx: Rwx(b[base + 9]),
        world_rwx: Rwx(b[base + 10]),
    };
    (status, path, entry)
}

/// Decoding an encoded permission record gives back its status and entry, and its path
/// whenever the path fits the field and holds no zero byte.
pub proof fn lemma_perms_record_round_trip(status: u8, path: Seq<char>, e: PermEntry)
    ensures
        ({
            let b = perms_record(status, vstd::utf8::encode_utf8(path), e);
            &&& b.len() == PERMS_RECORD_SIZE
            &&& b[0] == status
            &&& u32_from_le(b.subrange(65, 69)) == e.uid
            &&& u32_from_le(b.subrange(69, 73)) == e.gid
            &&& b[73] == e.owner_rwx.0
            &&& b[74] == e.group_rwx.0
            &&& b[75] == e.world_rwx.0
            &&& (vstd::utf8::encode_utf8(path).len() <= PATH_MAX && !vstd::utf8::encode_utf8(path).contains(0u8))
                ==> field_path(b.subrange(1, 1 + PATH_MAX as int)) == path
        }),
{
    let bytes = vstd::utf8::encode_utf8(path);
    let b = perms_record(status, bytes, e);
    assert(b.subrange(65, 69) =~= le_bytes_u32(e.uid));
    assert(b.subrange(69, 73) =~= le_bytes_u32(e.gid));
    lemma_u32_le_round_trip(e.uid);
    lemma_u32_le_round_trip(e.gid);
    if bytes.len() <= PATH_MAX && !bytes.contains(0u8) {
        let field = b.subrange(1, 1 + PATH_MAX as int);
        assert(field =~= path_field(bytes));
        let n = bytes.len() as int;
        if n < PATH_MAX {
            assert(field[n] == 0);
            let c = first_zero_index(field);
            assert(0 <= c < field.len() && field[c] == 0);
            if c < n {
                assert(field[c] == bytes[c]);
                assert(bytes.contains(0u8));
            } else if c > n {
                assert(field[n] != 0);
            }
        } else {
            assert forall|i: int| 0 <= i < field.len() implies field[i] != 0 by {
                assert(field[i] == bytes[i]);
                if field[i] == 0 {
                    assert(bytes.contains(0u8));
                }
            }
        }
        assert(field.subrange(0, n) =~= bytes);
        vstd::utf8::encode_utf8_valid_utf8(path);
        vstd::utf8::encode_utf8_decode_utf8(path);
    }
}

/// What loading permission records into a table with entries `m` gives.
pub open spec fn load_perms_spec(m: Map<Seq<char>, PermEntry>, bytes: Seq<u8>) -> Map<Seq<char>, PermEntry>
    decreases bytes.len(),
{
    if bytes.len() < PERMS_RECORD_SIZE {
        m
    } else {
        let e = PermEntry {
            uid: u32_from_le(bytes.subrange(65, 69)),
            gid: u32_from_le(bytes.subrange(69, 73)),
            owner_rwx: Rwx(bytes[73]),
            group_rwx: Rwx(bytes[74]),
            world_rwx: Rwx(bytes[75]),
        };
        let m2 = if bytes[0] == STATUS_DIRTY { m } else { m.insert(field_path(bytes.subrange(1, 65)), e) };
        load_perms_spec(m2, bytes.subrange(PERMS_RECORD_SIZE as int, bytes.len() as int))
    }
}

/// Loads the records of a `perms.db` read as `bytes`; returns whether it must be rewritten.
pub fn load_perms_db(bytes: &[u8], read_failed: bool, perms: &mut PermsDb) -> (dirty: bool)
    requires
        old(perms).wf(),
    ensures
        final(perms).wf(),
        final(perms).view_map() == load_perms_spec(old(perms).view_map(), bytes@),
        dirty == (read_failed || bytes@.len() % (PERMS_RECORD_SIZE as nat) != 0 || has_dirty_record(bytes@, PERMS_RECORD_SIZE as nat)),
{
    let mut off: usize = 0;
    let mut dirty = false;
    let n = bytes.len();
    proof {
        assert(bytes@.subrange(0, n as int) =~= bytes@);
    }
    while n - off >= PERMS_RECORD_SIZE
        invariant
            n == bytes@.len(),
            off <= n,
            off % PERMS_RECORD_SIZE == 0,
            perms.wf(),
            load_perms_spec(perms.view_map(), bytes@.subrange(off as int, n as int)) == load_perms_spec(old(perms).view_map(), bytes@),
            (dirty || has_dirty_record(bytes@.subrange(off as int, n as int), PERMS_RECORD_SIZE as nat))
                == has_dirty_record(bytes@, PERMS_RECORD_SIZE as nat),
        decreases n - off,
    {
        let ghost rest = bytes@.subrange(off as int, n as int);
        let (status, path, entry) = decode_perms_record(bytes, off);
        proof {
            assert(rest.subrange(PERMS_RECORD_SIZE as int, rest.len() as int) =~= bytes@.subrange(off + PERMS_RECORD_SIZE, n as int));
            assert(rest[0] == status);
            assert(rest.subrange(1, 65) =~= bytes@.subrange(off + 1, off + 1 + PATH_MAX));
            assert(rest.subrange(65, 69) =~= bytes@.subrange(off + 65, off + 69));
            assert(rest.subrange(69, 73) =~= bytes@.subrange(off + 69, off + 73));
        }
        if status == STATUS_DIRTY {
            dirty = true;
        } else {
            perms.set(path, entry);
        }
        off = off + PERMS_RECORD_SIZE;
    }
    proof {
        let rest = bytes@.subrange(off as int, n as int);
        assert(rest.len() < PERMS_RECORD_SIZE);
        assert(!has_dirty_record(rest, PERMS_RECORD_SIZE as nat));
        assert(n % PERMS_RECORD_SIZE != 0 <==> off < n);
    }
    dirty || read_failed || off < n
}

/// The clean records of every (path bytes, entry) pair, in order.
pub open spec fn perms_image(entries: Seq<(Seq<u8>, PermEntry)>) -> Seq<u8>
    decreases entries.len(),
{
    if entries.len() == 0 {
        Seq::empty()
    } else {
        perms_image(entries.drop_last()) + perms_record(STATUS_CLEAN, entries.last().0, entries.last().1)
    }
}

/// The contents a repaired `perms.db` is rewritten with: every entry, clean, in table order.
pub fn perms_db_image(perms: &PermsDb) -> (r: Vec<u8>)
    ensures
        ({
            let es = perms.entries_view();
            r@ == perms_image(Seq::new(es.len(), |i: int| (vstd::utf8::encode_utf8(es[i].0), es[i].1)))
        }),
{
    let entries = perms.entries();
    let ghost es = perms.entries_view();
    let ghost target = Seq::new(es.len(), |i: int| (vstd::utf8::encode_utf8(es[i].0), es[i].1));
    let mut out: Vec<u8> = Vec::new();
    let mut i: usize = 0;
    while i < entries.len()
        invariant
            i <= entries@.len(),
            entries@.len() == es.len(),
            target.len() == es.len(),
            forall|k: int| 0 <= k < es.len() ==> (#[trigger] entries@[k]).0@ == es[k].0 && entries@[k].1 == es[k].1,
            target == Seq::new(es.len(), |i: int| (vstd::utf8::encode_utf8(es[i].0), es[i].1)),
            out@ == perms_image(target.subrange(0, i as int)),
        decreases entries@.len() - i,
    {
        let rec = encode_perms_record(STATUS_CLEAN, entries[i].0.as_str(), &entries[i].1);
        push_all(&mut out, rec.as_slice());
        proof {
            assert(target.subrange(0, i + 1).drop_last() =~= target.subrange(0, i as int));
        }
        i = i + 1;
    }
    proof {
        assert(target.subrange(0, es.len() as int) =~= target);
    }
    out
}

/// Bytes asked of the volume per read while a whole file is read.
pub const READ_CHUNK: u64 = 512;

/// Reading the volume file `path` from `off` up to `size` in reads of up to `READ_CHUNK` bytes:
/// the bytes, whether a read failed, and the image afterwards. Reading stops early at a read
/// that gives nothing.
pub open spec fn file_chunks(img: Seq<u8>, path: Seq<char>, off: u64, size: u64) -> (Seq<u8>, bool, Seq<u8>)
    decreases size - off,
{
    if off >= size {
        (Seq::empty(), false, img)
    } else {
        let want = if size - off < READ_CHUNK { (size - off) as u64 } else { READ_CHUNK };
        let (res, img1) = fat_read(img, path, off, want as nat);
        match res {
            Some(Some(b)) => if b.len() == 0 {
                (Seq::empty(), false, img1)
            } else if b.len() > want {
                (Seq::empty(), true, img1)
            } else {
                let (rest, failed, img2) = file_chunks(img1, path, (off + b.len()) as u64, size);
                (b + rest, failed, img2)
            },
            _ => (Seq::empty(), true, img1),
        }
    }
}

/// What reading the whole volume file `path` gives: `None` when there is no such file, else its
/// bytes and whether a read failed (a file whose size cannot be read counts as a failed read);
/// and the image afterwards.
pub open spec fn volume_file(img: Seq<u8>, path: Seq<char>) -> (Option<(Seq<u8>, bool)>, Seq<u8>) {
    let (p, img1) = fat_probe(img, path);
    match p {
        Probe::File(size) => {
            let (bytes, failed, img2) = file_chunks(img1, path, 0, size);
            (Some((bytes, failed)), img2)
        },
        Probe::Unreadable => (Some((Seq::empty(), true)), img1),
        _ => (None, img1),
    }
}

/// Rewriting the volume file `path` to hold `bytes`: it is created (kept if present), written
/// from the start and cut after the last byte; a file that does not open is left alone. The
/// image afterwards.
pub open spec fn rewritten(img: Seq<u8>, path: Seq<char>, bytes: Seq<u8>) -> Seq<u8> {
    let (_c, img1) = fat_create(img, path);
    let (w, img2) = fat_write(img1, path, 0, bytes);
    match w {
        None => img2,
        Some(_) => fat_truncate(img2, path, bytes.len() as u64).1,
    }
}

/// Reads the whole volume file `path`; `None` when the volume has no file there.
pub fn read_volume_file(image: &mut Vec<u8>, path: &str) -> (r: Option<(Vec<u8>, bool)>)
    ensures
        ({
            let (res, img) = volume_file(old(image)@, path@);
            &&& final(image)@ == img
            &&& match r {
                Some((b, f)) => res == Some((b@, f)),
                None => res is None,
            }
        }),
{
    let size = match volume_probe(image, path) {
        Probe::File(n) => n,
        Probe::Unreadable => return Some((Vec::new(), true)),
        _ => return None,
    };
    let ghost img1 = image@;
    let mut acc: Vec<u8> = Vec::new();
    let mut off: u64 = 0;
    let mut failed = false;
    loop
        invariant_except_break
            off <= size,
            !failed,
            ({
                let (b0, f0, i0) = file_chunks(img1, path@, 0, size);
                let (b1, f1, i1) = file_chunks(image@, path@, off, size);
                b0 == acc@ + b1 && f0 == f1 && i0 == i1
            }),
        ensures
            ({
                let (b0, f0, i0) = file_chunks(img1, path@, 0, size);
                b0 == acc@ && f0 == failed && i0 == image@
            }),
        decreases size - off,
    {
        if off >= size {
            proof {
                assert(acc@ + Seq::<u8>::empty() =~= acc@);
            }
            break;
        }
        let want: u64 = if size - off < READ_CHUNK { size - off } else { READ_CHUNK };
        let got = volume_read(image, path, off, want as usize);
        match got {
            Some(Some(b)) => {
                if b.len() == 0 {
                    proof {
                        assert(acc@ + Seq::<u8>::empty() =~= acc@);
                    }
                    break;
                }
                let ghost before = acc@;
                let mut k: usize = 0;
                while k < b.len()
                    invariant
                        k <= b@.len(),
                        acc@ == before + b@.subrange(0, k as int),
                    decreases b@.len() - k,
                {
                    acc.push(b[k]);
                    k = k + 1;
                    proof {
                        assert(acc@ =~= before + b@.subrange(0, k as int));
                    }
                }
                proof {
                    assert(b@.subrange(0, b@.len() as int) =~= b@);
                    let (rest, f2, i2) = file_chunks(image@, path@, (off + b@.len()) as u64, size);
                    assert(before + (b@ + rest) =~= acc@ + rest);
                }
                off = off + b.len() as u64;
            },
            _ => {
                failed = true;
                proof {
                    assert(acc@ + Seq::<u8>::empty() =~= acc@);
                }
                break;
            },
        }
    }
    Some((acc, failed))
}

/// Rewrites the volume file `path` to hold exactly `bytes` (see `rewritten`).
pub fn rewrite_volume_file(image: &mut Vec<u8>, path: &str, bytes: &[u8])
    ensures
        final(image)@ == rewritten(old(image)@, path@, bytes@),
{
    let _ = volume_create(image, path);
    match volume_write(image, path, 0, bytes) {
        None => {},
        Some(_) => {
            let _ = volume_truncate(image, path, bytes.len() as u64);
        },
    }
}

/// Whether `load_at_boot` found `auth.db` or `perms.db` in need of rewriting.
pub struct BootRepair {
    pub auth_dirty: bool,
    pub perms_dirty: bool,
}

/// Loads both tables from the files' contents (`None`: the file is absent, which leaves the
/// table empty and needs no repair) and reports which files to rewrite.
pub fn load_tables(
    auth_file: Option<(&[u8], bool)>,
    perms_file: Option<(&[u8], bool)>,
    auth: &mut AuthDb,
    perms: &mut PermsDb,
) -> (r: BootRepair)
    requires
        old(auth).wf(),
        old(perms).wf(),
    ensures
        final(auth).wf(),
        final(perms).wf(),
        match auth_file {
            Some((b, failed)) => final(auth).creds() == load_auth_spec(old(auth).creds(), b@) && r.auth_dirty == (failed
                || b@.len() % (AUTH_RECORD_SIZE as nat) != 0 || has_dirty_record(b@, AUTH_RECORD_SIZE as nat)),
            None => final(auth).creds() == old(auth).creds() && !r.auth_dirty,
        },
        match perms_file {
            Some((b, failed)) => final(perms).view_map() == load_perms_spec(old(perms).view_map(), b@) && r.perms_dirty == (
            failed || b@.len() % (PERMS_RECORD_SIZE as nat) != 0 || has_dirty_record(b@, PERMS_RECORD_SIZE as nat)),
            None => final(perms).view_map() == old(perms).view_map() && !r.perms_dirty,
        },
{
    let auth_dirty = match auth_file {
        Some((b, failed)) => load_auth_db(b, failed, auth),
        None => false,
    };
    let perms_dirty = match perms_file {
        Some((b, failed)) => load_perms_db(b, failed, perms),
        None => false,
    };
    BootRepair { auth_dirty, perms_dirty }
}

/// What loading the system domain from the volume in `img` does: both files read whole,
/// the tables loaded from them, and a file that needed repair rewritten from the loaded table.
/// Gives the image afterwards and which files were rewritten.
pub open spec fn boot_image(
    img: Seq<u8>,
    auth_after: Seq<AuthEntry>,
    perms_after: Seq<(Seq<char>, PermEntry)>,
    repair: BootRepair,
) -> Seq<u8> {
    let (_a, i1) = volume_file(img, AUTH_DB_PATH@);
    let (_p, i2) = volume_file(i1, PERMS_DB_PATH@);
    let i3 = if repair.auth_dirty { rewritten(i2, AUTH_DB_PATH@, auth_image(auth_after)) } else { i2 };
    if repair.perms_dirty {
        rewritten(
            i3,
            PERMS_DB_PATH@,
            perms_image(Seq::new(perms_after.len(), |i: int| (vstd::utf8::encode_utf8(perms_after[i].0), perms_after[i].1))),
        )
    } else {
        i3
    }
}

/// Loads `auth.db` and `perms.db` from the volume in `image` into the tables and rewrites each
/// file that had a dirty record, a truncated record or a read error, from what was loaded.
pub fn load_at_boot(image: &mut Vec<u8>, auth: &mut AuthDb, perms: &mut PermsDb) -> (r: BootRepair)
    requires
        old(auth).wf(),
        old(perms).wf(),
    ensures
        final(auth).wf(),
        final(perms).wf(),
        ({
            let (af, i1) = volume_file(old(image)@, AUTH_DB_PATH@);
            let (pf, i2) = volume_file(i1, PERMS_DB_PATH@);
            &&& match af {
                Some((b, failed)) => final(auth).creds() == load_auth_spec(old(auth).creds(), b) && r.auth_dirty == (failed
                    || b.len() % (AUTH_RECORD_SIZE as nat) != 0 || has_dirty_record(b, AUTH_RECORD_SIZE as nat)),
                None => final(auth).creds() == old(auth).creds() && !r.auth_dirty,
            }
            &&& match pf {
                Some((b, failed)) => final(perms).view_map() == load_perms_spec(old(perms).view_map(), b) && r.perms_dirty
                    == (failed || b.len() % (PERMS_RECORD_SIZE as nat) != 0 || has_dirty_record(b, PERMS_RECORD_SIZE as nat)),
                None => final(perms).view_map() == old(perms).view_map() && !r.perms_dirty,
            }
            &&& final(image)@ == boot_image(old(image)@, final(auth).entry_seq(), final(perms).entries_view(), r)
        }),
{
    let auth_file = read_volume_file(image, AUTH_DB_PATH);
    let perms_file = read_volume_file(image, PERMS_DB_PATH);
    let r = load_tables(
        match &auth_file {
            Some((b, f)) => Some((b.as_slice(), *f)),
            None => None,
        },
        match &perms_file {
            Some((b, f)) => Some((b.as_slice(), *f)),
            None => None,
        },
        auth,
        perms,
    );
    if r.auth_dirty {
        let bytes = auth_db_image(auth);
        rewrite_volume_file(image, AUTH_DB_PATH, bytes.as_slice());
    }
    if r.perms_dirty {
        let bytes = perms_db_image(perms);
        rewrite_volume_file(image, PERMS_DB_PATH, bytes.as_slice());
    }
    r
}

/// Appends a clean record for `entry` to `auth.db` on the volume in `image` (the file is
/// created if missing). Fails when the file cannot be created, sized or written.
pub fn append_auth_entry(image: &mut Vec<u8>, entry: &AuthEntry) -> (r: Result<(), ()>)
    ensures
        ({
            let rec = auth_record(STATUS_CLEAN, entry.uid, entry.salt@, entry.hash@);
            let (c, i1) = fat_create(old(image)@, AUTH_DB_PATH@);
            let (p, i2) = fat_probe(i1, AUTH_DB_PATH@);
            if !c {
                r is Err && final(image)@ == i1
            } else {
                match p {
                    Probe::File(size) => {
                        let (w, i3) = fat_write(i2, AUTH_DB_PATH@, size, rec);
                        &&& final(image)@ == i3
                        &&& (r is Ok <==> w == Some(true))
                    },
                    _ => r is Err && final(image)@ == i2,
                }
            }
        }),
{
    let rec = encode_auth_record(STATUS_CLEAN, entry);
    append_record(image, AUTH_DB_PATH, rec.as_slice())
}

/// Appends a clean record for `path`'s permissions `entry` to `perms.db` on the volume in
/// `image` (the file is created if missing).
pub fn append_perms_entry(image: &mut Vec<u8>, path: &str, entry: &PermEntry) -> (r: Result<(), ()>)
    ensures
        ({
            let rec = perms_record(STATUS_CLEAN, vstd::utf8::encode_utf8(path@), *entry);
            let (c, i1) = fat_create(old(image)@, PERMS_DB_PATH@);
            let (p, i2) = fat_probe(i1, PERMS_DB_PATH@);
            if !c {
                r is Err && final(image)@ == i1
            } else {
                match p {
                    Probe::File(size) => {
                        let (w, i3) = fat_write(i2, PERMS_DB_PATH@, size, rec);
                        &&& final(image)@ == i3
                        &&& (r is Ok <==> w == Some(true))
                    },
                    _ => r is Err && final(image)@ == i2,
                }
            }
        }),
{
    let rec = encode_perms_record(STATUS_CLEAN, path, entry);
    append_record(image, PERMS_DB_PATH, rec.as_slice())
}

/// Creates `path` if missing and writes `rec` at its end.
fn append_record(image: &mut Vec<u8>, path: &str, rec: &[u8]) -> (r: Result<(), ()>)
    ensures
        ({
            let (c, i1) = fat_create(old(image)@, path@);
            let (p, i2) = fat_probe(i1, path@);
            if !c {
                r is Err && final(image)@ == i1
            } else {
                match p {
                    Probe::File(size) => {
                        let (w, i3) = fat_write(i2, path@, size, rec@);
                        &&& final(image)@ == i3
                        &&& (r is Ok <==> w == Some(true))
                    },
                    _ => r is Err && final(image)@ == i2,
                }
            }
        }),
{
    if !volume_create(image, path) {
        return Err(());
    }
    let size = match volume_probe(image, path) {
        Probe::File(n) => n,
        _ => return Err(()),
    };
    match volume_write(image, path, size, rec) {
        Some(true) => Ok(()),
        _ => Err(()),
    }
}

/// The password of the clean test user: "good".
pub open spec fn good_password() -> Seq<u8> {
    seq![103u8, 111u8, 111u8, 100u8]
}

/// The password of the dirty test user: "bad".
pub open spec fn bad_password() -> Seq<u8> {
    seq![98u8, 97u8, 100u8]
}

fn good_password_bytes() -> (r: Vec<u8>)
    ensures
        r@ == good_password(),
{
    let r = vec![103u8, 111u8, 111u8, 100u8];
    assert(r@ =~= good_password());
    r
}

fn bad_password_bytes() -> (r: Vec<u8>)
    ensures
        r@ == bad_password(),
{
    let r = vec![98u8, 97u8, 100u8];
    assert(r@ =~= bad_password());
    r
}

/// The file the consistency self-test writes: a clean record for user 10 with password
/// "good", then a dirty one for user 99 with password "bad".
pub open spec fn consistency_image_spec() -> Seq<u8> {
    auth_record(STATUS_CLEAN, 10, zero_salt(), sha256(zero_salt() + good_password())) + auth_record(
        STATUS_DIRTY,
        99,
        zero_salt(),
        sha256(zero_salt() + bad_password()),
    )
}

/// The digests in the self-test's file are whole SHA-256 digests.
pub open spec fn consistency_digests_whole() -> bool {
    &&& sha256(zero_salt() + good_password()).len() == 32
    &&& sha256(zero_salt() + bad_password()).len() == 32
}

/// Builds the consistency self-test's file.
pub fn consistency_test_image() -> (r: Vec<u8>)
    ensures
        r@ == consistency_image_spec(),
        consistency_digests_whole(),
{
    let good = good_password_bytes();
    let bad = bad_password_bytes();
    let clean = AuthEntry::new(10, good.as_slice());
    let dirty = AuthEntry::new(99, bad.as_slice());
    let mut out = encode_auth_record(STATUS_CLEAN, &clean);
    let second = encode_auth_record(STATUS_DIRTY, &dirty);
    push_all(&mut out, second.as_slice());
    out
}

/// Whether loading `read_back` as an `auth.db` keeps exactly one user, that user 10's password
/// "good" verifies, and that user 99's "bad" does not.
pub open spec fn consistency_verdict(read_back: Seq<u8>) -> bool {
    let m = load_auth_spec(Map::empty(), read_back);
    &&& m.dom().len() == 1
    &&& m.contains_key(10) && sha256(m[10].0 + good_password()) == m[10].1
    &&& !(m.contains_key(99) && sha256(m[99].0 + bad_password()) == m[99].1)
}

/// The consistency self-test, given the file as read back from disk: loading it must keep
/// exactly the clean user, whose password verifies, and drop the dirty one. Passes whenever
/// the disk gave back what was written.
pub fn test_consistency_repair(read_back: &[u8]) -> (ok: bool)
    ensures
        ok == consistency_verdict(read_back@),
        read_back@ == consistency_image_spec() && consistency_digests_whole() ==> ok,
{
    let mut auth = AuthDb::new();
    load_auth_db(read_back, false, &mut auth);
    let good = good_password_bytes();
    let bad = bad_password_bytes();
    let count = auth.len();
    let good_ok = auth.verify(10, good.as_slice());
    let bad_ok = auth.verify(99, bad.as_slice());
    proof {
        assert(auth.creds().dom() =~= auth.view_map().dom());
        assert(good@ == good_password());
        assert(bad@ == bad_password());
        if read_back@ == consistency_image_spec() && consistency_digests_whole() {
            lemma_consistency_image_loads();
            assert(auth.creds() == Map::<u32, (Seq<u8>, Seq<u8>)>::empty().insert(10, (zero_salt(), sha256(zero_salt() + good_password()))));
            assert(auth.creds().contains_key(10));
            assert(auth.view_map().contains_key(10));
            assert(auth.creds()[10] == (zero_salt(), sha256(zero_salt() + good_password())));
            assert(auth.creds()[10] == (auth.view_map()[10].salt@, auth.view_map()[10].hash@));
            assert(auth.view_map()[10].salt@ == zero_salt());
            assert(good@ == good_password());
            assert(good_ok);
            assert(!auth.creds().contains_key(99));
            assert(!auth.view_map().contains_key(99));
            assert(!bad_ok);
            assert(auth.creds().dom() =~= set![10u32]);
            assert(auth.view_map().dom() =~= set![10u32]);
            assert(auth.view_map().len() == 1);
        }
    }
    count == 1 && good_ok && !bad_ok
}

/// The name of the consistency self-test's file.
pub const CONSISTENCY_TEST_PATH: &'static str = "tauth.db";

/// The consistency self-test on the volume in `image`: a clean and a dirty record written to a
/// new file, the file read back whole and removed, and the read-back bytes judged by
/// `test_consistency_repair`. Fails as soon as the file cannot be created or written.
pub fn consistency_self_test(image: &mut Vec<u8>) -> (ok: bool)
    ensures
        ({
            let t = CONSISTENCY_TEST_PATH@;
            let (c, i1) = fat_create(old(image)@, t);
            let (w, i2) = fat_write(i1, t, 0, consistency_image_spec());
            let (rb, i3) = volume_file(i2, t);
            let (_d, i4) = fat_remove(i3, t);
            if !c {
                !ok && final(image)@ == i1
            } else if w != Some(true) {
                !ok && final(image)@ == i2
            } else {
                &&& final(image)@ == i4
                &&& ok == (rb matches Some((b, false)) && consistency_verdict(b))
            }
        }),
{
    if !volume_create(image, CONSISTENCY_TEST_PATH) {
        return false;
    }
    let bytes = consistency_test_image();
    match volume_write(image, CONSISTENCY_TEST_PATH, 0, bytes.as_slice()) {
        Some(true) => {},
        _ => return false,
    }
    let back = read_volume_file(image, CONSISTENCY_TEST_PATH);
    let _ = volume_remove(image, CONSISTENCY_TEST_PATH);
    match back {
        Some((b, false)) => test_consistency_repair(b.as_slice()),
        _ => false,
    }
}

/// Loading the self-test's file gives exactly the clean user's credentials.
pub proof fn lemma_consistency_image_loads()
    requires
        consistency_digests_whole(),
    ensures
        load_auth_spec(Map::empty(), consistency_image_spec()) == Map::<u32, (Seq<u8>, Seq<u8>)>::empty().insert(
            10,
            (zero_salt(), sha256(zero_salt() + good_password())),
        ),
{
    let image = consistency_image_spec();
    let h_good = sha256(zero_salt() + good_password());
    let h_bad = sha256(zero_salt() + bad_password());
    let r1 = auth_record(STATUS_CLEAN, 10, zero_salt(), h_good);
    let r2 = auth_record(STATUS_DIRTY, 99, zero_salt(), h_bad);
    lemma_auth_record_round_trip(STATUS_CLEAN, 10, zero_salt(), h_good);
    lemma_auth_record_round_trip(STATUS_DIRTY, 99, zero_salt(), h_bad);
    let rest = image.subrange(AUTH_RECORD_SIZE as int, image.len() as int);
    assert(image.subrange(0, 53) =~= r1);
    assert(rest =~= r2);
    assert(image[0] == STATUS_CLEAN);
    assert(image.subrange(1, 5) =~= r1.subrange(1, 5));
    assert(image.subrange(5, 21) =~= r1.subrange(5, 21));
    assert(image.subrange(21, 53) =~= r1.subrange(21, 53));
    let m1 = Map::<u32, (Seq<u8>, Seq<u8>)>::empty().insert(10, (zero_salt(), h_good));
    assert(load_auth_spec(Map::empty(), image) == load_auth_spec(m1, rest));
    let tail = rest.subrange(AUTH_RECORD_SIZE as int, rest.len() as int);
    assert(tail.len() == 0);
    assert(load_auth_spec(m1, rest) == load_auth_spec(m1, tail));
}

} // verus!
