//! CRC-32 (IEEE 802.3: reflected, polynomial 0xEDB88320, initial value and final XOR all ones).
use vstd::prelude::*;

verus! {

pub const CRC32_POLY: u32 = 0xEDB8_8320;

/// One bit of the reflected shift register.
pub open spec fn crc_bit(c: u32) -> u32 {
    if c & 1 == 1 {
        (c >> 1) ^ CRC32_POLY
    } else {
        c >> 1
    }
}

/// `n` bits of the shift register.
pub open spec fn crc_bits(c: u32, n: nat) -> u32
    decreases n,
{
    if n == 0 {
        c
    } else {
        crc_bit(crc_bits(c, (n - 1) as nat))
    }
}

/// The register after feeding `byte`.
pub open spec fn crc_byte(c: u32, byte: u8) -> u32 {
    crc_bits(c ^ (byte as u32), 8)
}

/// The register after feeding `data` from `c`.
pub open spec fn crc_update(c: u32, data: Seq<u8>) -> u32
    decreases data.len(),
{
    if data.len() == 0 {
        c
    } else {
        crc_byte(crc_update(c, data.drop_last()), data.last())
    }
}

/// CRC-32 of `data`.
pub open spec fn crc32_spec(data: Seq<u8>) -> u32 {
    !crc_update(0xFFFF_FFFFu32, data)
}

pub fn crc32(data: &[u8]) -> (r: u32)
    ensures
        r == crc32_spec(data@),
{
    let mut c: u32 = 0xFFFF_FFFF;
    let mut i: usize = 0;
    while i < data.len()
        invariant
            i <= data@.len(),
            c == crc_update(0xFFFF_FFFFu32, data@.subrange(0, i as int)),
        decreases data@.len() - i,
    {
        let ghost c0 = c;
        c = c ^ (data[i] as u32);
        let ghost start = c;
        let mut k: u32 = 0;
        while k < 8
            invariant
                k <= 8,
                c == crc_bits(start, k as nat),
            decreases 8 - k,
        {
            if c & 1 == 1 {
                c = (c >> 1) ^ CRC32_POLY;
            } else {
                c = c >> 1;
            }
            k = k + 1;
        }
        proof {
            assert(data@.subrange(0, i as int + 1).drop_last() =~= data@.subrange(0, i as int));
            assert(data@.subrange(0, i as int + 1).last() == data@[i as int]);
        }
        i = i + 1;
    }
    proof {
        assert(data@.subrange(0, data@.len() as int) =~= data@);
    }
    !c
}

} // verus!
