use vstd::prelude::*;

use crate::error::FsError;
use crate::BLOCK_SIZE;

verus! {

/// Marks a formatted device.
pub const SUPERBLOCK_MAGIC: u32 = 0x6969;

/// Bytes of block 0 that the superblock's fields take.
pub const SUPERBLOCK_LEN: usize = 12;

/// The metadata of a formatted device, kept in block 0.
#[derive(Debug, Clone, Copy, PartialEq, Eq, Structural)]
pub struct Superblock {
    pub magic: u32,
    pub block_count: u32,
    pub free_blocks: u32,
}

/// `x` as four bytes, least significant first.
pub open spec fn le_bytes(x: u32) -> Seq<u8> {
    seq![
        (x % 256) as u8,
        ((x / 256) % 256) as u8,
        ((x / 65536) % 256) as u8,
        (x / 16777216) as u8,
    ]
}

/// The number that the four bytes of `b` from `at` on give, least significant first.
pub open spec fn le_value(b: Seq<u8>, at: int) -> int {
    b[at] + 256 * b[at + 1] + 65536 * b[at + 2] + 16777216 * b[at + 3]
}

/// Block 0 of a device formatted with `s`: magic, block count and free block
/// count at offsets 0, 4 and 8, each least significant byte first; zeros after.
pub open spec fn superblock_image(s: Superblock) -> Seq<u8> {
    le_bytes(s.magic) + le_bytes(s.block_count) + le_bytes(s.free_blocks) + Seq::new(
        (BLOCK_SIZE - SUPERBLOCK_LEN) as nat,
        |i: int| 0u8,
    )
}

proof fn lemma_le_round_trip(x: u32)
    ensures
        le_value(le_bytes(x), 0) == x,
{
    let b = le_bytes(x);
    assert(b[0] == x % 256);
    assert(b[1] == (x / 256) % 256);
    assert(b[2] == (x / 65536) % 256);
    assert(b[3] == x / 16777216);
    assert(x == x % 256 + 256 * ((x / 256) % 256) + 65536 * ((x / 65536) % 256) + 16777216 * (x
        / 16777216)) by (nonlinear_arith);
}

fn push_le(out: &mut Vec<u8>, x: u32)
    ensures
        final(out)@ == old(out)@ + le_bytes(x),
{
    out.push((x % 256) as u8);
    out.push(((x / 256) % 256) as u8);
    out.push(((x / 65536) % 256) as u8);
    out.push((x / 16777216) as u8);
    assert(final(out)@ =~= old(out)@ + le_bytes(x));
}

fn read_le(b: &[u8], at: usize) -> (r: u32)
    requires
        at + 4 <= b@.len(),
    ensures
        r == le_value(b@, at as int),
{
    b[at] as u32 + 256 * (b[at + 1] as u32) + 65536 * (b[at + 2] as u32) + 16777216 * (b[at
        + 3] as u32)
}

impl Superblock {
    /// The superblock of a device of `block_count` blocks: every block but
    /// block 0 is free.
    pub fn new(block_count: u32) -> (r: Superblock)
        requires
            block_count >= 1,
        ensures
            r.magic == SUPERBLOCK_MAGIC,
            r.block_count == block_count,
            r.free_blocks == block_count - 1,
    {
        Superblock { magic: SUPERBLOCK_MAGIC, block_count, free_blocks: block_count - 1 }
    }

    /// The block-sized image of this superblock.
    pub fn encode(&self) -> (r: Vec<u8>)
        ensures
            r@ == superblock_image(*self),
    {
        let mut out: Vec<u8> = Vec::new();
        push_le(&mut out, self.magic);
        push_le(&mut out, self.block_count);
        push_le(&mut out, self.free_blocks);
        let mut k: usize = SUPERBLOCK_LEN;
        while k < BLOCK_SIZE
            invariant
                SUPERBLOCK_LEN <= k <= BLOCK_SIZE,
                out@ =~= le_bytes(self.magic) + le_bytes(self.block_count) + le_bytes(
                    self.free_blocks,
                ) + Seq::new((k - SUPERBLOCK_LEN) as nat, |i: int| 0u8),
            decreases BLOCK_SIZE - k,
        {
            out.push(0u8);
            k += 1;
        }
        out
    }

    /// Reads the fields back from the leading bytes of `bytes`; fails with
    /// `DeviceError` when there are fewer than `SUPERBLOCK_LEN`.
    pub fn decode(bytes: &[u8]) -> (r: Result<Superblock, FsError>)
        ensures
            bytes@.len() < SUPERBLOCK_LEN <==> r == Err::<Superblock, FsError>(FsError::DeviceError),
            r matches Ok(s) ==> s.magic == le_value(bytes@, 0) && s.block_count == le_value(
                bytes@,
                4,
            ) && s.free_blocks == le_value(bytes@, 8),
    {
        if bytes.len() < SUPERBLOCK_LEN {
            return Err(FsError::DeviceError);
        }
        Ok(
            Superblock {
                magic: read_le(bytes, 0),
                block_count: read_le(bytes, 4),
                free_blocks: read_le(bytes, 8),
            },
        )
    }
}

/// Decoding the image of a superblock gives the superblock back.
pub proof fn lemma_superblock_round_trip(s: Superblock, bytes: Seq<u8>)
    requires
        bytes == superblock_image(s),
    ensures
        le_value(bytes, 0) == s.magic,
        le_value(bytes, 4) == s.block_count,
        le_value(bytes, 8) == s.free_blocks,
{
    lemma_le_round_trip(s.magic);
    lemma_le_round_trip(s.block_count);
    lemma_le_round_trip(s.free_blocks);
    let m = le_bytes(s.magic);
    let c = le_bytes(s.block_count);
    let f = le_bytes(s.free_blocks);
    assert(bytes[0] == m[0] && bytes[1] == m[1] && bytes[2] == m[2] && bytes[3] == m[3]);
    assert(bytes[4] == c[0] && bytes[5] == c[1] && bytes[6] == c[2] && bytes[7] == c[3]);
    assert(bytes[8] == f[0] && bytes[9] == f[1] && bytes[10] == f[2] && bytes[11] == f[3]);
}

} // verus!
