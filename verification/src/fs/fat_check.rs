//! The check an image passes before the FAT driver is let at it: a boot sector whose numbers
//! fit together, and a directory tree, from the root, whose entries name only clusters of the
//! volume, each the start of a chain in the allocation table that ends and names only clusters
//! of the volume. The driver turns a cluster number into a position by subtracting the two
//! reserved entries, so a cluster number below two that it follows (a FAT32 root directory, a
//! first cluster in a directory entry, a link of a chain it walks) must never reach it, and a
//! chain it walks must end. Chains that no entry reaches are not the driver's concern: it
//! looks at the other entries of the table only to find free ones.
//!
//! The table is read as the driver reads it: the FAT type from the number of data clusters,
//! the first copy of the table right after the reserved sectors, an entry that lies past the
//! table's end read as the end of its chain (the driver's read of it fails). Directories are
//! read as the driver reads them too: 32-byte entries, the scan of a directory stopping at an
//! entry whose first byte is zero or that lies past the image, deleted entries (first byte
//! `0xE5`) and long-name pieces (attribute bits `0x0F` all set) passed over, the high half of
//! a first cluster counted on FAT32 only, and a first cluster of zero meaning none (for a
//! directory entry, the root).
use vstd::prelude::*;

verus! {

/// A table layout of executable numbers, read as integers.
pub open spec fn g_int(g: (u64, u64, u64, u64)) -> (int, int, int, int) {
    (g.0 as int, g.1 as int, g.2 as int, g.3 as int)
}

/// A directory layout of executable numbers, read as integers.
pub open spec fn lay_int(l: (u64, u64, u64, u64, u64, u64)) -> (int, int, int, int, int, int) {
    (l.0 as int, l.1 as int, l.2 as int, l.3 as int, l.4 as int, l.5 as int)
}

/// The little-endian 16-bit number at `o`.
pub open spec fn le16(img: Seq<u8>, o: int) -> int {
    img[o] as int + 256 * img[o + 1] as int
}

/// The little-endian 32-bit number at `o`.
pub open spec fn le32(img: Seq<u8>, o: int) -> int {
    le16(img, o) + 65536 * le16(img, o + 2)
}

/// Whether `n` is one of `1, 2, 4, ..., 128`.
pub open spec fn small_power_of_two(n: int) -> bool {
    n == 1 || n == 2 || n == 4 || n == 8 || n == 16 || n == 32 || n == 64 || n == 128
}

/// The table layout of `img`: FAT width in bits, byte offset and length of the table, and the
/// number one past the last data cluster; `None` when the boot sector is not one the check
/// accepts.
pub open spec fn fat_geometry(img: Seq<u8>) -> Option<(int, int, int, int)> {
    if img.len() < 512 {
        None
    } else {
        let bps = le16(img, 11);
        let spc = img[13] as int;
        let rs = le16(img, 14);
        let fats = img[16] as int;
        let root_entries = le16(img, 17);
        let ts16 = le16(img, 19);
        let spf16 = le16(img, 22);
        let ts32 = le32(img, 32);
        let fat32 = spf16 == 0;
        let spf = if fat32 { le32(img, 36) } else { spf16 };
        let ext = if fat32 { le16(img, 40) } else { 0 };
        let rds = (root_entries * 32 + bps - 1) / bps;
        let first_data = rs + fats * spf + rds;
        let total = if ts16 != 0 { ts16 } else { ts32 };
        let clusters = if total > first_data { (total - first_data) / spc } else { 0 };
        let kind = if clusters < 4085 { 12 } else if clusters < 65525 { 16 } else { 32 };
        if !(bps == 512 || bps == 1024 || bps == 2048 || bps == 4096) || !small_power_of_two(spc) || rs < 1
            || fats < 1 || spf < 1 || (ext / 128) % 2 != 0 || first_data > 0xFFFF_FFFF || total <= first_data
            || spf * bps * 8 > 0xFFFF_FFFF || fat32 != (kind == 32) || rs * bps + spf * bps > img.len() {
            None
        } else {
            Some((kind, rs * bps, spf * bps, clusters + 2))
        }
    }
}

/// Whether the entry of cluster `c` lies wholly inside a table of `flen` bytes of width `kind`.
pub open spec fn in_table(kind: int, flen: int, c: int) -> bool {
    0 <= c && if kind == 12 {
        c + c / 2 + 2 <= flen
    } else if kind == 16 {
        2 * c + 2 <= flen
    } else {
        4 * c + 4 <= flen
    }
}

/// The value of the entry of cluster `c` of the table at `start`.
pub open spec fn fat_entry(img: Seq<u8>, kind: int, start: int, c: int) -> int {
    if kind == 12 {
        let raw = le16(img, start + c + c / 2);
        if c % 2 == 0 {
            raw % 4096
        } else {
            raw / 16
        }
    } else if kind == 16 {
        le16(img, start + 2 * c)
    } else {
        le32(img, start + 4 * c) % 0x1000_0000
    }
}

/// The cluster that follows `c` in its chain: `None` for a free, bad or last cluster, and for a
/// cluster whose entry lies past the table.
pub open spec fn fat_next(img: Seq<u8>, g: (int, int, int, int), c: int) -> Option<int> {
    let (kind, start, flen, end) = g;
    if !in_table(kind, flen, c) {
        None
    } else {
        let v = fat_entry(img, kind, start, c);
        let special: int = if kind == 12 { 0xFF7 } else if kind == 16 { 0xFFF7 } else { 0x0FFF_FFF7 };
        if v == 0 || v >= special {
            None
        } else {
            Some(v)
        }
    }
}

/// Whether the chain from cluster `c` ends within `k` clusters, every link on the way naming
/// a data cluster.
pub open spec fn chain_ok(img: Seq<u8>, g: (int, int, int, int), c: int, k: nat) -> bool
    decreases k,
{
    if k == 0 {
        false
    } else {
        match fat_next(img, g, c) {
            None => true,
            Some(n) => 2 <= n < g.3 && chain_ok(img, g, n, (k - 1) as nat),
        }
    }
}

/// Where the directories of `img` lie: the byte offset of the data area, the bytes and the
/// directory slots (32 bytes each) of a cluster, the byte offset and the slot count of the
/// fixed root directory (FAT12/16), and the root directory's id: its first cluster on FAT32,
/// `0` (the fixed root) otherwise. Meaningful where `fat_geometry` accepts the image.
pub open spec fn fat_layout(img: Seq<u8>) -> (int, int, int, int, int, int) {
    let bps = le16(img, 11);
    let spc = img[13] as int;
    let rs = le16(img, 14);
    let fats = img[16] as int;
    let root_entries = le16(img, 17);
    let spf16 = le16(img, 22);
    let fat32 = spf16 == 0;
    let spf = if fat32 { le32(img, 36) } else { spf16 };
    let rds = (root_entries * 32 + bps - 1) / bps;
    let tables_end = rs + fats * spf;
    (
        (tables_end + rds) * bps,
        spc * bps,
        spc * (bps / 32),
        tables_end * bps,
        rds * (bps / 32),
        if fat32 { le32(img, 44) } else { 0 },
    )
}

/// The first cluster recorded in the directory entry at byte `o` (the high half counts on
/// FAT32 only); `0` means none.
pub open spec fn entry_cluster(img: Seq<u8>, kind: int, o: int) -> int {
    le16(img, o + 26) + if kind == 32 { 65536 * le16(img, o + 20) } else { 0 }
}

/// Whether the live directory entry at byte `o` is sound with respect to the directory ids
/// `s`: a deleted entry and a long-name piece are passed over; any other entry names no
/// cluster, or a data cluster whose chain ends (within as many steps as the table has bytes,
/// which is more than it has entries) naming only data clusters; and one marked as a directory
/// that names a cluster has that cluster in `s`.
pub open spec fn entry_ok(img: Seq<u8>, g: (int, int, int, int), s: Set<int>, o: int) -> bool {
    let attr = img[o + 11] as int;
    if img[o] == 0xE5 || attr % 16 == 15 {
        true
    } else {
        let c = entry_cluster(img, g.0, o);
        &&& c == 0 || (2 <= c < g.3 && chain_ok(img, g, c, g.2 as nat))
        &&& (attr / 16) % 2 == 1 && c != 0 ==> s.contains(c)
    }
}

/// Whether the slot at byte `o` ends the scan of its directory: it lies (partly) past the
/// image, or its first byte is `0`.
pub open spec fn slot_ends(img: Seq<u8>, o: int) -> bool {
    o + 32 > img.len() || img[o] == 0
}

/// Whether the entries of the fixed root directory from slot `j` on are sound (see
/// `entry_ok`), up to the slot that ends the scan.
pub open spec fn root_dir_ok(
    img: Seq<u8>,
    g: (int, int, int, int),
    lay: (int, int, int, int, int, int),
    s: Set<int>,
    j: int,
) -> bool
    decreases lay.4 - j,
{
    if j < 0 || j >= lay.4 {
        true
    } else {
        let o = lay.3 + 32 * j;
        if slot_ends(img, o) {
            true
        } else {
            entry_ok(img, g, s, o) && root_dir_ok(img, g, lay, s, j + 1)
        }
    }
}

/// Whether the entries of a directory held in a cluster chain are sound, from slot `j` of
/// cluster `c` on, following at most `fuel` more links (the chain of a directory that is
/// reached ends sooner, see `entry_ok`), up to the slot that ends the scan or the end of the
/// chain.
pub open spec fn chain_dir_ok(
    img: Seq<u8>,
    g: (int, int, int, int),
    lay: (int, int, int, int, int, int),
    s: Set<int>,
    c: int,
    j: int,
    fuel: nat,
) -> bool
    decreases fuel, lay.2 - j,
{
    if j < 0 {
        true
    } else if j >= lay.2 {
        if fuel == 0 {
            true
        } else {
            match fat_next(img, g, c) {
                None => true,
                Some(n) => chain_dir_ok(img, g, lay, s, n, 0, (fuel - 1) as nat),
            }
        }
    } else {
        let o = lay.0 + (c - 2) * lay.1 + 32 * j;
        if slot_ends(img, o) {
            true
        } else {
            entry_ok(img, g, s, o) && chain_dir_ok(img, g, lay, s, c, j + 1, fuel)
        }
    }
}

/// Whether the directory with id `d` (`0`: the fixed root; otherwise its first cluster) is
/// sound with respect to the directory ids `s`.
pub open spec fn dir_ok(
    img: Seq<u8>,
    g: (int, int, int, int),
    lay: (int, int, int, int, int, int),
    s: Set<int>,
    d: int,
) -> bool {
    if d == 0 {
        root_dir_ok(img, g, lay, s, 0)
    } else {
        chain_dir_ok(img, g, lay, s, d, 0, g.2 as nat)
    }
}

/// Whether `s` holds the root directory and is closed: every directory in it is sound with
/// respect to `s`, so that `s` holds every directory that can be reached from the root.
pub open spec fn dirs_closed(
    img: Seq<u8>,
    g: (int, int, int, int),
    lay: (int, int, int, int, int, int),
    s: Set<int>,
) -> bool {
    &&& s.contains(lay.5)
    &&& forall|d: int| #[trigger] s.contains(d) ==> dir_ok(img, g, lay, s, d)
}

/// Whether the driver may be let at `img`: the boot sector is accepted, a FAT32 root directory
/// starts at a data cluster and its chain is sound, and every directory that can be reached
/// from the root is sound (see `entry_ok`): every chain the driver can follow ends and names
/// only data clusters.
pub open spec fn fat_image_ok(img: Seq<u8>) -> bool {
    match fat_geometry(img) {
        None => false,
        Some(g) => {
            let lay = fat_layout(img);
            &&& g.0 == 32 ==> 2 <= lay.5 < g.3 && chain_ok(img, g, lay.5, g.2 as nat)
            &&& exists|s: Set<int>| #[trigger] dirs_closed(img, g, lay, s)
        },
    }
}

/// Whether `c` may be scanned as a directory: a data cluster whose chain is sound.
pub open spec fn kid_ok(img: Seq<u8>, g: (int, int, int, int), c: u64) -> bool {
    &&& 2 <= c < g.3
    &&& c < 0x1_0000_0000
    &&& chain_ok(img, g, c as int, g.2 as nat)
}

/// Whether every index of `v` names a member of `s`.
pub open spec fn all_in(v: Seq<u64>, s: Set<int>) -> bool {
    forall|k: int| 0 <= k < v.len() ==> s.contains(#[trigger] v[k] as int)
}

fn rd16(img: &Vec<u8>, o: usize) -> (r: u64)
    requires
        o + 1 < img@.len(),
        img@.len() <= usize::MAX,
    ensures
        r == le16(img@, o as int),
        r < 0x1_0000,
{
    let lo = img[o] as u64;
    let hi = img[o + 1] as u64;
    lo + 256 * hi
}

fn rd32(img: &Vec<u8>, o: usize) -> (r: u64)
    requires
        o + 3 < img@.len(),
        img@.len() <= usize::MAX,
    ensures
        r == le32(img@, o as int),
        r < 0x1_0000_0000,
{
    let lo = rd16(img, o);
    let hi = rd16(img, o + 2);
    lo + 65536 * hi
}

/// The table layout of `img` (see `fat_geometry`).
fn geometry(img: &Vec<u8>) -> (r: Option<(u64, u64, u64, u64)>)
    ensures
        match r {
            None => fat_geometry(img@) is None,
            Some((k, s, l, e)) => fat_geometry(img@) == Some((k as int, s as int, l as int, e as int))
                && s + l <= img@.len() && img@.len() <= usize::MAX && 2 <= e
                && ((k == 32) == (le16(img@, 22) == 0)),
        },
{
    if img.len() < 512 {
        return None;
    }
    let bps = rd16(img, 11);
    let spc = img[13] as u64;
    let rs = rd16(img, 14);
    let fats = img[16] as u64;
    let root_entries = rd16(img, 17);
    let ts16 = rd16(img, 19);
    let spf16 = rd16(img, 22);
    let ts32 = rd32(img, 32);
    let fat32 = spf16 == 0;
    let spf = if fat32 { rd32(img, 36) } else { spf16 };
    let ext = if fat32 { rd16(img, 40) } else { 0 };
    if !(bps == 512 || bps == 1024 || bps == 2048 || bps == 4096) {
        return None;
    }
    if !(spc == 1 || spc == 2 || spc == 4 || spc == 8 || spc == 16 || spc == 32 || spc == 64 || spc == 128) {
        return None;
    }
    if rs < 1 || fats < 1 || spf < 1 || (ext / 128) % 2 != 0 {
        return None;
    }
    let rds = (root_entries * 32 + bps - 1) / bps;
    assert(fats * spf <= 255 * 0xFFFF_FFFF) by (nonlinear_arith)
        requires
            fats <= 255,
            spf <= 0xFFFF_FFFF,
    ;
    let first_data = rs + fats * spf + rds;
    let total = if ts16 != 0 { ts16 } else { ts32 };
    let clusters = if total > first_data { (total - first_data) / spc } else { 0 };
    let kind: u64 = if clusters < 4085 { 12 } else if clusters < 65525 { 16 } else { 32 };
    assert(spf * bps * 8 <= 0xFFFF_FFFF * 4096 * 8) by (nonlinear_arith)
        requires
            spf <= 0xFFFF_FFFF,
            bps <= 4096,
    ;
    assert(rs * bps <= 0xFFFF * 4096) by (nonlinear_arith)
        requires
            rs <= 0xFFFF,
            bps <= 4096,
    ;
    if first_data > 0xFFFF_FFFF || total <= first_data || spf * bps * 8 > 0xFFFF_FFFF || fat32 != (kind == 32)
        || rs * bps + spf * bps > img.len() as u64 {
        return None;
    }
    Some((kind, rs * bps, spf * bps, clusters + 2))
}

/// Whether the entry of cluster `c` lies inside the table (see `in_table`).
fn in_table_exec(kind: u64, flen: u64, c: u64) -> (r: bool)
    requires
        c < 0x1_0000_0000,
    ensures
        r == in_table(kind as int, flen as int, c as int),
{
    if kind == 12 {
        c + c / 2 + 2 <= flen
    } else if kind == 16 {
        2 * c + 2 <= flen
    } else {
        4 * c + 4 <= flen
    }
}

/// The cluster after `c` (see `fat_next`).
fn next_exec(img: &Vec<u8>, g: (u64, u64, u64, u64), c: u64) -> (r: Option<u64>)
    requires
        c < 0x1_0000_0000,
        g.1 + g.2 <= img@.len(),
        img@.len() <= usize::MAX,
    ensures
        match r {
            None => fat_next(img@, (g.0 as int, g.1 as int, g.2 as int, g.3 as int), c as int) is None,
            Some(n) => fat_next(img@, (g.0 as int, g.1 as int, g.2 as int, g.3 as int), c as int) == Some(n as int)
                && n < 0x1000_0000,
        },
{
    let (kind, start, flen, _end) = g;
    if !in_table_exec(kind, flen, c) {
        return None;
    }
    let v: u64 = if kind == 12 {
        let raw = rd16(img, (start + c + c / 2) as usize);
        if c % 2 == 0 {
            raw % 4096
        } else {
            raw / 16
        }
    } else if kind == 16 {
        rd16(img, (start + 2 * c) as usize)
    } else {
        rd32(img, (start + 4 * c) as usize) % 0x1000_0000
    };
    let special: u64 = if kind == 12 { 0xFF7 } else if kind == 16 { 0xFFF7 } else { 0x0FFF_FFF7 };
    if v == 0 || v >= special {
        None
    } else {
        Some(v)
    }
}

/// Whether the chain from `c` is sound (see `chain_ok`).
fn chain_check(img: &Vec<u8>, g: (u64, u64, u64, u64), c: u64) -> (r: bool)
    requires
        c < 0x1_0000_0000,
        g.1 + g.2 <= img@.len(),
        img@.len() <= usize::MAX,
    ensures
        r == chain_ok(img@, g_int(g), c as int, g.2 as nat),
{
    let ghost gs = g_int(g);
    let mut cur: u64 = c;
    let mut left: u64 = g.2;
    while left > 0
        invariant
            gs == g_int(g),
            g.1 + g.2 <= img@.len(),
            img@.len() <= usize::MAX,
            cur < 0x1_0000_0000,
            left <= g.2,
            chain_ok(img@, gs, c as int, g.2 as nat) == chain_ok(img@, gs, cur as int, left as nat),
        decreases left,
    {
        match next_exec(img, g, cur) {
            None => {
                return true;
            },
            Some(n) => {
                if n < 2 || n >= g.3 {
                    return false;
                }
                cur = n;
                left = left - 1;
            },
        }
    }
    false
}

/// The directory layout of `img` (see `fat_layout`).
fn layout(img: &Vec<u8>) -> (r: (u64, u64, u64, u64, u64, u64))
    requires
        fat_geometry(img@) is Some,
        img@.len() <= usize::MAX,
    ensures
        lay_int(r) == fat_layout(img@),
        r.0 < 0x0100_0000_0000_0000,
        r.1 <= 0x0100_0000,
        r.2 <= 0x0100_0000,
        r.3 < 0x0100_0000_0000_0000,
        r.4 <= 0x1_0000_0000,
        r.5 < 0x1_0000_0000,
{
    let bps = rd16(img, 11);
    let spc = img[13] as u64;
    let rs = rd16(img, 14);
    let fats = img[16] as u64;
    let root_entries = rd16(img, 17);
    let spf16 = rd16(img, 22);
    let fat32 = spf16 == 0;
    let spf = if fat32 { rd32(img, 36) } else { spf16 };
    assert(512 <= bps <= 4096);
    let rds = (root_entries * 32 + bps - 1) / bps;
    assert(rds <= root_entries * 32 + bps - 1) by (nonlinear_arith)
        requires
            bps >= 1,
            rds as int == (root_entries as int * 32 + bps as int - 1) / (bps as int),
    ;
    assert(fats * spf <= 255 * 0xFFFF_FFFF) by (nonlinear_arith)
        requires
            fats <= 255,
            spf <= 0xFFFF_FFFF,
    ;
    let tables_end = rs + fats * spf;
    assert((tables_end + rds) * bps <= 0x0100_0000_0000 * 4096) by (nonlinear_arith)
        requires
            tables_end + rds <= 0x0100_0000_0000,
            bps <= 4096,
    ;
    assert(tables_end * bps <= 0x0100_0000_0000 * 4096) by (nonlinear_arith)
        requires
            tables_end <= 0x0100_0000_0000,
            bps <= 4096,
    ;
    assert(spc * bps <= 255 * 4096) by (nonlinear_arith)
        requires
            spc <= 255,
            bps <= 4096,
    ;
    assert(spc * (bps / 32) <= 255 * 4096) by (nonlinear_arith)
        requires
            spc <= 255,
            bps / 32 <= 4096,
    ;
    assert(rds * (bps / 32) <= 0x0040_0000 * 128) by (nonlinear_arith)
        requires
            rds <= 0x0040_0000,
            bps / 32 <= 128,
    ;
    let root_id: u64 = if fat32 { rd32(img, 44) } else { 0 };
    ((tables_end + rds) * bps, spc * bps, spc * (bps / 32), tables_end * bps, rds * (bps / 32), root_id)
}

/// Whether the entry at byte `o` is sound (see `entry_ok`), told apart from the sets it is
/// judged against: whether its cluster is in range, and the directory it leads to, if any.
fn entry_check(img: &Vec<u8>, g: (u64, u64, u64, u64), o: u64) -> (r: (bool, Option<u64>))
    requires
        o + 32 <= img@.len(),
        g.1 + g.2 <= img@.len(),
        img@.len() <= usize::MAX,
    ensures
        forall|s: Set<int>|
            #[trigger] entry_ok(img@, g_int(g), s, o as int) <==> (r.0 && (r.1 matches Some(c) ==> s.contains(
                c as int,
            ))),
        r.1 matches Some(c) ==> 2 <= c < g.3 && c < 0x1_0000_0000 && chain_ok(img@, g_int(g), c as int, g.2 as nat),
{
    let oo = o as usize;
    let attr = img[oo + 11];
    if img[oo] == 0xE5 || attr % 16 == 15 {
        return (true, None);
    }
    let lo = rd16(img, oo + 26);
    let c: u64 = if g.0 == 32 { lo + 65536 * rd16(img, oo + 20) } else { lo };
    if !(c == 0 || (2 <= c && c < g.3 && chain_check(img, g, c))) {
        return (false, None);
    }
    if (attr / 16) % 2 == 1 && c != 0 {
        (true, Some(c))
    } else {
        (true, None)
    }
}

proof fn lemma_all_in_push(v: Seq<u64>, x: u64, s: Set<int>)
    ensures
        all_in(v.push(x), s) <==> (all_in(v, s) && s.contains(x as int)),
{
    if all_in(v, s) && s.contains(x as int) {
        assert forall|k: int| 0 <= k < v.push(x).len() implies s.contains(#[trigger] v.push(x)[k] as int) by {
            if k < v.len() {
                assert(v.push(x)[k] == v[k]);
            }
        }
    }
    if all_in(v.push(x), s) {
        assert forall|k: int| 0 <= k < v.len() implies s.contains(#[trigger] v[k] as int) by {
            assert(v.push(x)[k] == v[k]);
        }
        assert(v.push(x)[v.len() as int] == x);
    }
}

/// Scans the fixed root directory: whether its live entries are sound, and the directories
/// they lead to (see `dir_ok`).
fn scan_root(img: &Vec<u8>, g: (u64, u64, u64, u64), lay: (u64, u64, u64, u64, u64, u64)) -> (r: (
    bool,
    Vec<u64>,
))
    requires
        g.1 + g.2 <= img@.len(),
        img@.len() <= usize::MAX,
        lay.3 < 0x0100_0000_0000_0000,
        lay.4 <= 0x1_0000_0000,
    ensures
        forall|s: Set<int>|
            #[trigger] dir_ok(img@, g_int(g), lay_int(lay), s, 0) <==> (r.0 && all_in(r.1@, s)),
        forall|k: int| 0 <= k < r.1@.len() ==> kid_ok(img@, g_int(g), #[trigger] r.1@[k]),
{
    let ghost gi = g_int(g);
    let ghost li = lay_int(lay);
    let mut kids: Vec<u64> = Vec::new();
    let mut j: u64 = 0;
    while j < lay.4
        invariant
            gi == g_int(g),
            li == lay_int(lay),
            g.1 + g.2 <= img@.len(),
            img@.len() <= usize::MAX,
            lay.3 < 0x0100_0000_0000_0000,
            lay.4 <= 0x1_0000_0000,
            j <= lay.4,
            forall|s: Set<int>|
                #[trigger] dir_ok(img@, gi, li, s, 0) <==> (all_in(kids@, s) && root_dir_ok(
                    img@,
                    gi,
                    li,
                    s,
                    j as int,
                )),
            forall|k: int| 0 <= k < kids@.len() ==> kid_ok(img@, gi, #[trigger] kids@[k]),
        decreases lay.4 - j,
    {
        let o = lay.3 + 32 * j;
        if o + 32 > img.len() as u64 || img[o as usize] == 0 {
            proof {
                assert(slot_ends(img@, o as int));
                assert forall|s: Set<int>| #[trigger] dir_ok(img@, gi, li, s, 0) <==> all_in(kids@, s) by {
                    assert(root_dir_ok(img@, gi, li, s, j as int));
                }
            }
            return (true, kids);
        }
        let (ok, kid) = entry_check(img, g, o);
        proof {
            assert forall|s: Set<int>| #[trigger]
                root_dir_ok(img@, gi, li, s, j as int) == (entry_ok(img@, gi, s, o as int) && root_dir_ok(
                    img@,
                    gi,
                    li,
                    s,
                    j + 1,
                )) by {}
        }
        if !ok {
            proof {
                assert forall|s: Set<int>| !#[trigger] dir_ok(img@, gi, li, s, 0) by {
                    assert(!entry_ok(img@, gi, s, o as int));
                    assert(!root_dir_ok(img@, gi, li, s, j as int));
                }
            }
            return (false, kids);
        }
        let ghost kids0 = kids@;
        match kid {
            Some(c) => {
                kids.push(c);
            },
            None => {},
        }
        proof {
            assert forall|s: Set<int>| #[trigger]
                dir_ok(img@, gi, li, s, 0) <==> (all_in(kids@, s) && root_dir_ok(img@, gi, li, s, j + 1)) by {
                assert(root_dir_ok(img@, gi, li, s, j as int) == (entry_ok(img@, gi, s, o as int)
                    && root_dir_ok(img@, gi, li, s, j + 1)));
                if let Some(c) = kid {
                    lemma_all_in_push(kids0, c, s);
                }
            }
        }
        j = j + 1;
    }
    proof {
        assert forall|s: Set<int>| #[trigger] dir_ok(img@, gi, li, s, 0) <==> all_in(kids@, s) by {
            assert(root_dir_ok(img@, gi, li, s, j as int));
        }
    }
    (true, kids)
}

/// Scans the directory held in the chain from cluster `d`: whether its live entries are
/// sound, and the directories they lead to (see `dir_ok`).
fn scan_chain(img: &Vec<u8>, g: (u64, u64, u64, u64), lay: (u64, u64, u64, u64, u64, u64), d: u64) -> (r: (
    bool,
    Vec<u64>,
))
    requires
        g.1 + g.2 <= img@.len(),
        img@.len() <= usize::MAX,
        lay.0 < 0x0100_0000_0000_0000,
        lay.1 <= 0x0100_0000,
        lay.2 <= 0x0100_0000,
        2 <= d < 0x1_0000_0000,
        chain_ok(img@, g_int(g), d as int, g.2 as nat),
    ensures
        forall|s: Set<int>|
            #[trigger] dir_ok(img@, g_int(g), lay_int(lay), s, d as int) <==> (r.0 && all_in(r.1@, s)),
        forall|k: int| 0 <= k < r.1@.len() ==> kid_ok(img@, g_int(g), #[trigger] r.1@[k]),
{
    let ghost gi = g_int(g);
    let ghost li = lay_int(lay);
    let mut kids: Vec<u64> = Vec::new();
    let mut cur: u64 = d;
    let mut fuel: u64 = g.2;
    loop
        invariant
            gi == g_int(g),
            li == lay_int(lay),
            g.1 + g.2 <= img@.len(),
            img@.len() <= usize::MAX,
            lay.0 < 0x0100_0000_0000_0000,
            lay.1 <= 0x0100_0000,
            lay.2 <= 0x0100_0000,
            2 <= cur < 0x1_0000_0000,
            fuel <= g.2,
            chain_ok(img@, gi, cur as int, fuel as nat),
            forall|s: Set<int>|
                #[trigger] dir_ok(img@, gi, li, s, d as int) <==> (all_in(kids@, s) && chain_dir_ok(
                    img@,
                    gi,
                    li,
                    s,
                    cur as int,
                    0,
                    fuel as nat,
                )),
            forall|k: int| 0 <= k < kids@.len() ==> kid_ok(img@, gi, #[trigger] kids@[k]),
        decreases fuel,
    {
        let mut j: u64 = 0;
        assert((cur - 2) * lay.1 <= 0x1_0000_0000 * 0x0100_0000) by (nonlinear_arith)
            requires
                cur - 2 <= 0x1_0000_0000,
                lay.1 <= 0x0100_0000,
        ;
        let base = lay.0 + (cur - 2) * lay.1;
        while j < lay.2
            invariant
                gi == g_int(g),
                li == lay_int(lay),
                g.1 + g.2 <= img@.len(),
                img@.len() <= usize::MAX,
                lay.2 <= 0x0100_0000,
                base == lay.0 + (cur - 2) * lay.1,
                base < 0x0200_0000_0000_0000,
                2 <= cur < 0x1_0000_0000,
                j <= lay.2,
                forall|s: Set<int>|
                    #[trigger] dir_ok(img@, gi, li, s, d as int) <==> (all_in(kids@, s) && chain_dir_ok(
                        img@,
                        gi,
                        li,
                        s,
                        cur as int,
                        j as int,
                        fuel as nat,
                    )),
                forall|k: int| 0 <= k < kids@.len() ==> kid_ok(img@, gi, #[trigger] kids@[k]),
            decreases lay.2 - j,
        {
            let o = base + 32 * j;
            if o + 32 > img.len() as u64 || img[o as usize] == 0 {
                proof {
                    assert(slot_ends(img@, o as int));
                    assert forall|s: Set<int>| #[trigger] dir_ok(img@, gi, li, s, d as int) <==> all_in(kids@, s) by {
                        assert(chain_dir_ok(img@, gi, li, s, cur as int, j as int, fuel as nat));
                    }
                }
                return (true, kids);
            }
            let (ok, kid) = entry_check(img, g, o);
            if !ok {
                proof {
                    assert forall|s: Set<int>| !#[trigger] dir_ok(img@, gi, li, s, d as int) by {
                        assert(!entry_ok(img@, gi, s, o as int));
                        assert(!chain_dir_ok(img@, gi, li, s, cur as int, j as int, fuel as nat));
                    }
                }
                return (false, kids);
            }
            let ghost kids0 = kids@;
            match kid {
                Some(c) => {
                    kids.push(c);
                },
                None => {},
            }
            proof {
                assert forall|s: Set<int>| #[trigger]
                    dir_ok(img@, gi, li, s, d as int) <==> (all_in(kids@, s) && chain_dir_ok(
                        img@,
                        gi,
                        li,
                        s,
                        cur as int,
                        j + 1,
                        fuel as nat,
                    )) by {
                    assert(chain_dir_ok(img@, gi, li, s, cur as int, j as int, fuel as nat) == (entry_ok(
                        img@,
                        gi,
                        s,
                        o as int,
                    ) && chain_dir_ok(img@, gi, li, s, cur as int, j + 1, fuel as nat)));
                    if let Some(c) = kid {
                        lemma_all_in_push(kids0, c, s);
                    }
                }
            }
            j = j + 1;
        }
        if fuel == 0 {
            proof {
                assert forall|s: Set<int>| #[trigger] dir_ok(img@, gi, li, s, d as int) <==> all_in(kids@, s) by {
                    assert(chain_dir_ok(img@, gi, li, s, cur as int, j as int, fuel as nat));
                }
            }
            return (true, kids);
        }
        match next_exec(img, g, cur) {
            None => {
                proof {
                    assert forall|s: Set<int>| #[trigger] dir_ok(img@, gi, li, s, d as int) <==> all_in(kids@, s) by {
                        assert(chain_dir_ok(img@, gi, li, s, cur as int, j as int, fuel as nat));
                    }
                }
                return (true, kids);
            },
            Some(n) => {
                proof {
                    assert(fat_next(img@, gi, cur as int) == Some(n as int));
                    assert(2 <= n < g.3 && chain_ok(img@, gi, n as int, (fuel - 1) as nat));
                    assert forall|s: Set<int>| #[trigger]
                        dir_ok(img@, gi, li, s, d as int) <==> (all_in(kids@, s) && chain_dir_ok(
                            img@,
                            gi,
                            li,
                            s,
                            n as int,
                            0,
                            (fuel - 1) as nat,
                        )) by {
                        assert(chain_dir_ok(img@, gi, li, s, cur as int, j as int, fuel as nat) == chain_dir_ok(
                            img@,
                            gi,
                            li,
                            s,
                            n as int,
                            0,
                            (fuel - 1) as nat,
                        ));
                    }
                }
                cur = n;
                fuel = fuel - 1;
            },
        }
    }
}

/// Whether `x` is one of `v`.
fn has_id(v: &Vec<u64>, x: u64) -> (r: bool)
    ensures
        r <==> exists|i: int| 0 <= i < v@.len() && v@[i] == x,
{
    let mut i: usize = 0;
    while i < v.len()
        invariant
            i <= v@.len(),
            forall|k: int| 0 <= k < i ==> v@[k] != x,
        decreases v@.len() - i,
    {
        if v[i] == x {
            return true;
        }
        i = i + 1;
    }
    false
}

/// Whether some closed set of directory ids holds the root (see `dirs_closed`): a search
/// from the root that scans each directory it reaches once. The directories it has reached
/// lie in every closed set, so a directory that fails its scan leaves none; when none fails,
/// the reached directories are such a set.
fn check_dirs(img: &Vec<u8>, g: (u64, u64, u64, u64), lay: (u64, u64, u64, u64, u64, u64)) -> (r: bool)
    requires
        g.1 + g.2 <= img@.len(),
        img@.len() <= usize::MAX,
        lay.0 < 0x0100_0000_0000_0000,
        lay.1 <= 0x0100_0000,
        lay.2 <= 0x0100_0000,
        lay.3 < 0x0100_0000_0000_0000,
        lay.4 <= 0x1_0000_0000,
        lay.5 == 0 || kid_ok(img@, g_int(g), lay.5),
        2 <= g.3,
    ensures
        r == exists|s: Set<int>| #[trigger] dirs_closed(img@, g_int(g), lay_int(lay), s),
{
    let ghost gi = g_int(g);
    let ghost li = lay_int(lay);
    let mut visited: Vec<u64> = Vec::new();
    visited.push(lay.5);
    let ghost mut vs: Set<int> = Set::empty().insert(lay.5 as int);
    proof {
        assert(visited@[0] == lay.5);
        assert forall|x: int| #[trigger] vs.contains(x) implies exists|i: int|
            0 <= i < visited@.len() && visited@[i] as int == x by {
            assert(visited@[0] as int == x);
        }
        assert forall|s: Set<int>| #[trigger] dirs_closed(img@, gi, li, s) implies vs.subset_of(s) by {}
    }
    let mut idx: usize = 0;
    while idx < visited.len()
        invariant
            gi == g_int(g),
            li == lay_int(lay),
            g.1 + g.2 <= img@.len(),
            img@.len() <= usize::MAX,
            lay.0 < 0x0100_0000_0000_0000,
            lay.1 <= 0x0100_0000,
            lay.2 <= 0x0100_0000,
            lay.3 < 0x0100_0000_0000_0000,
            lay.4 <= 0x1_0000_0000,
            2 <= g.3,
            idx <= visited@.len(),
            vs.finite(),
            vs.len() == visited@.len(),
            vs.contains(lay.5 as int),
            forall|i: int| 0 <= i < visited@.len() ==> vs.contains(#[trigger] visited@[i] as int),
            forall|x: int| #[trigger]
                vs.contains(x) ==> exists|i: int| 0 <= i < visited@.len() && visited@[i] as int == x,
            forall|i: int|
                0 <= i < visited@.len() ==> visited@[i] == 0 || kid_ok(img@, gi, #[trigger] visited@[i]),
            forall|s: Set<int>| #[trigger] dirs_closed(img@, gi, li, s) ==> vs.subset_of(s),
            forall|i: int, s: Set<int>|
                0 <= i < idx && vs.subset_of(s) ==> #[trigger] dir_ok(img@, gi, li, s, visited@[i] as int),
        decreases g.3 - idx,
    {
        proof {
            vstd::set_lib::lemma_int_range(0, g.3 as int);
            assert forall|x: int| #[trigger] vs.contains(x) implies vstd::set_lib::set_int_range(
                0,
                g.3 as int,
            ).contains(x) by {
                let i = choose|i: int| 0 <= i < visited@.len() && visited@[i] as int == x;
                assert(visited@[i] == 0 || kid_ok(img@, gi, visited@[i]));
            }
            vstd::set_lib::lemma_len_subset(vs, vstd::set_lib::set_int_range(0, g.3 as int));
        }
        let d = visited[idx];
        let (ok, kids) = if d == 0 {
            scan_root(img, g, lay)
        } else {
            scan_chain(img, g, lay, d)
        };
        if !ok {
            proof {
                assert forall|s: Set<int>| !#[trigger] dirs_closed(img@, gi, li, s) by {
                    if dirs_closed(img@, gi, li, s) {
                        assert(vs.contains(visited@[idx as int] as int));
                        assert(s.contains(d as int));
                        assert(dir_ok(img@, gi, li, s, d as int));
                    }
                }
            }
            return false;
        }
        proof {
            assert forall|s: Set<int>| #[trigger] dirs_closed(img@, gi, li, s) implies all_in(kids@, s) by {
                assert(vs.contains(visited@[idx as int] as int));
                assert(s.contains(d as int));
                assert(dir_ok(img@, gi, li, s, d as int));
            }
        }
        let mut k: usize = 0;
        while k < kids.len()
            invariant
                gi == g_int(g),
                li == lay_int(lay),
                2 <= g.3,
                idx < visited@.len(),
                visited@[idx as int] == d,
                k <= kids@.len(),
                vs.finite(),
                vs.len() == visited@.len(),
                vs.contains(lay.5 as int),
                forall|i: int| 0 <= i < visited@.len() ==> vs.contains(#[trigger] visited@[i] as int),
                forall|x: int| #[trigger]
                    vs.contains(x) ==> exists|i: int| 0 <= i < visited@.len() && visited@[i] as int == x,
                forall|i: int|
                    0 <= i < visited@.len() ==> visited@[i] == 0 || kid_ok(img@, gi, #[trigger] visited@[i]),
                forall|kk: int| 0 <= kk < kids@.len() ==> kid_ok(img@, gi, #[trigger] kids@[kk]),
                forall|kk: int| 0 <= kk < k ==> vs.contains(#[trigger] kids@[kk] as int),
                forall|s: Set<int>| #[trigger] dirs_closed(img@, gi, li, s) ==> all_in(kids@, s),
                forall|s: Set<int>| #[trigger] dirs_closed(img@, gi, li, s) ==> vs.subset_of(s),
                forall|i: int, s: Set<int>|
                    0 <= i < idx && vs.subset_of(s) ==> #[trigger] dir_ok(img@, gi, li, s, visited@[i] as int),
            decreases kids@.len() - k,
        {
            let x = kids[k];
            if !has_id(&visited, x) {
                let ghost vs0 = vs;
                let ghost v0 = visited@;
                proof {
                    assert(!vs.contains(x as int));
                }
                visited.push(x);
                proof {
                    vs = vs.insert(x as int);
                    assert(visited@[v0.len() as int] == x);
                    assert forall|i: int| 0 <= i < visited@.len() implies vs.contains(#[trigger] visited@[i] as int) by {
                        if i < v0.len() {
                            assert(visited@[i] == v0[i]);
                        }
                    }
                    assert forall|y: int| #[trigger] vs.contains(y) implies exists|i: int|
                        0 <= i < visited@.len() && visited@[i] as int == y by {
                        if y == x as int {
                            assert(visited@[v0.len() as int] as int == y);
                        } else {
                            let i = choose|i: int| 0 <= i < v0.len() && v0[i] as int == y;
                            assert(visited@[i] == v0[i]);
                        }
                    }
                    assert forall|i: int|
                        0 <= i < visited@.len() implies visited@[i] == 0 || kid_ok(img@, gi, #[trigger] visited@[i]) by {
                        if i < v0.len() {
                            assert(visited@[i] == v0[i]);
                        }
                    }
                    assert forall|s: Set<int>| #[trigger] dirs_closed(img@, gi, li, s) implies vs.subset_of(s) by {
                        assert(all_in(kids@, s));
                        assert(s.contains(kids@[k as int] as int));
                        assert(vs0.subset_of(s));
                    }
                    assert forall|i: int, s: Set<int>|
                        0 <= i < idx && vs.subset_of(s) implies #[trigger] dir_ok(
                        img@,
                        gi,
                        li,
                        s,
                        visited@[i] as int,
                    ) by {
                        assert(visited@[i] == v0[i]);
                        assert(vs0.subset_of(s));
                    }
                }
            }
            k = k + 1;
        }
        proof {
            assert forall|i: int, s: Set<int>|
                0 <= i < idx + 1 && vs.subset_of(s) implies #[trigger] dir_ok(
                img@,
                gi,
                li,
                s,
                visited@[i] as int,
            ) by {
                if i == idx {
                    assert forall|kk: int| 0 <= kk < kids@.len() implies s.contains(#[trigger] kids@[kk] as int) by {
                        assert(vs.contains(kids@[kk] as int));
                    }
                    assert(all_in(kids@, s));
                }
            }
        }
        idx = idx + 1;
    }
    proof {
        assert forall|x: int| #[trigger] vs.contains(x) implies dir_ok(img@, gi, li, vs, x) by {
            let i = choose|i: int| 0 <= i < visited@.len() && visited@[i] as int == x;
            assert(vs.subset_of(vs));
            assert(dir_ok(img@, gi, li, vs, visited@[i] as int));
        }
        assert(dirs_closed(img@, gi, li, vs));
    }
    true
}

/// Whether the driver may be let at `img` (see `fat_image_ok`).
pub fn check_fat_image(img: &Vec<u8>) -> (r: bool)
    ensures
        r == fat_image_ok(img@),
{
    let g = match geometry(img) {
        None => return false,
        Some(g) => g,
    };
    let lay = layout(img);
    let ghost gi = g_int(g);
    if g.0 == 32 {
        if !(2 <= lay.5 && lay.5 < g.3) {
            return false;
        }
        if !chain_check(img, g, lay.5) {
            return false;
        }
        assert(kid_ok(img@, gi, lay.5));
    } else {
        assert(lay.5 == 0);
    }
    let r = check_dirs(img, g, lay);
    proof {
        assert(fat_geometry(img@) == Some(gi));
        assert(fat_layout(img@) == lay_int(lay));
        assert(gi.0 == 32 ==> 2 <= lay.5 < gi.3 && chain_ok(img@, gi, lay.5 as int, gi.2 as nat));
    }
    r
}

} // verus!
