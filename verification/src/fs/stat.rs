//! File metadata as reported to user space.
use vstd::prelude::*;

verus! {

/// Size, kind, owner and permission bits of a file, in a fixed C-like layout.
#[derive(Debug, Clone, Copy, PartialEq, Eq, Structural)]
pub struct Stat {
    pub size: u64,
    pub is_dir: u8,
    pub owner_rwx: u8,
    pub group_rwx: u8,
    pub world_rwx: u8,
    pub uid: u32,
    pub gid: u32,
}

/// Bytes in the user-space layout of a `Stat`.
pub const STAT_SIZE: usize = 24;

impl Stat {
    /// All fields zero.
    pub fn zeroed() -> (r: Self)
        ensures
            r.size == 0 && r.is_dir == 0 && r.owner_rwx == 0 && r.group_rwx == 0 && r.world_rwx == 0
                && r.uid == 0 && r.gid == 0,
    {
        Stat { size: 0, is_dir: 0, owner_rwx: 0, group_rwx: 0, world_rwx: 0, uid: 0, gid: 0 }
    }

    /// The bytes user space receives: the fields in declaration order, little-endian, then the
    /// four bytes of tail padding of the C layout, written as zero.
    pub fn to_user_bytes(&self) -> (r: Vec<u8>)
        ensures
            r@.len() == STAT_SIZE,
            r@.subrange(0, 8) == le_bytes_u64(self.size),
            r@[8] == self.is_dir,
            r@[9] == self.owner_rwx,
            r@[10] == self.group_rwx,
            r@[11] == self.world_rwx,
            r@.subrange(12, 16) == le_bytes_u32(self.uid),
            r@.subrange(16, 20) == le_bytes_u32(self.gid),
            r@.subrange(20, 24) == seq![0u8, 0u8, 0u8, 0u8],
            r@ == stat_bytes(*self),
    {
        let mut out: Vec<u8> = Vec::new();
        push_u64_le(&mut out, self.size);
        out.push(self.is_dir);
        out.push(self.owner_rwx);
        out.push(self.group_rwx);
        out.push(self.world_rwx);
        push_u32_le(&mut out, self.uid);
        push_u32_le(&mut out, self.gid);
        out.push(0);
        out.push(0);
        out.push(0);
        out.push(0);
        proof {
            assert(out@.subrange(0, 8) =~= le_bytes_u64(self.size));
            assert(out@.subrange(12, 16) =~= le_bytes_u32(self.uid));
            assert(out@.subrange(16, 20) =~= le_bytes_u32(self.gid));
            assert(out@.subrange(20, 24) =~= seq![0u8, 0u8, 0u8, 0u8]);
            assert(out@ =~= stat_bytes(*self));
        }
        out
    }
}

/// The bytes user space receives for `st`: size, kind, the three rights, owner and group, in
/// that order and little-endian, then four zero bytes of padding.
pub open spec fn stat_bytes(st: Stat) -> Seq<u8> {
    le_bytes_u64(st.size) + seq![st.is_dir, st.owner_rwx, st.group_rwx, st.world_rwx] + le_bytes_u32(st.uid)
        + le_bytes_u32(st.gid) + seq![0u8, 0u8, 0u8, 0u8]
}

/// The little-endian bytes of `v`.
pub open spec fn le_bytes_u32(v: u32) -> Seq<u8> {
    Seq::new(4, |i: int| ((v >> (8 * i) as u32) & 0xff) as u8)
}

/// The little-endian bytes of `v`.
pub open spec fn le_bytes_u64(v: u64) -> Seq<u8> {
    Seq::new(8, |i: int| ((v >> (8 * i) as u64) & 0xff) as u8)
}

/// Appends the little-endian bytes of `v`.
pub fn push_u32_le(out: &mut Vec<u8>, v: u32)
    ensures
        final(out)@ == old(out)@ + le_bytes_u32(v),
{
    let mut i: u32 = 0;
    let ghost start = out@;
    while i < 4
        invariant
            i <= 4,
            out@ == start + le_bytes_u32(v).subrange(0, i as int),
        decreases 4 - i,
    {
        out.push(((v >> (8 * i)) & 0xff) as u8);
        i = i + 1;
        proof {
            assert(out@ =~= start + le_bytes_u32(v).subrange(0, i as int));
        }
    }
    proof {
        assert(le_bytes_u32(v).subrange(0, 4) =~= le_bytes_u32(v));
    }
}

/// Appends the little-endian bytes of `v`.
pub fn push_u64_le(out: &mut Vec<u8>, v: u64)
    ensures
        final(out)@ == old(out)@ + le_bytes_u64(v),
{
    let mut i: u64 = 0;
    let ghost start = out@;
    while i < 8
        invariant
            i <= 8,
            out@ == start + le_bytes_u64(v).subrange(0, i as int),
        decreases 8 - i,
    {
        out.push(((v >> (8 * i)) & 0xff) as u8);
        i = i + 1;
        proof {
            assert(out@ =~= start + le_bytes_u64(v).subrange(0, i as int));
        }
    }
    proof {
        assert(le_bytes_u64(v).subrange(0, 8) =~= le_bytes_u64(v));
    }
}

} // verus!
