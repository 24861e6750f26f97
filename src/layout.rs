use vstd::prelude::*;

verus! {

/// Size in bytes of one record.
pub const WIDTH: u64 = 8;

/// Transfer granularity of direct I/O, in bytes.
pub const BLOCK_WIDTH: u64 = 512;

/// Absolute byte offset of the record with the given key.
pub open spec fn offset_of(key: int) -> int {
    key * WIDTH as int
}

/// Where a record sits relative to the block that holds it.
#[derive(Clone, Copy, Debug, PartialEq, Eq, Structural)]
pub struct BlockWindow {
    /// Offset of the block in the file, a multiple of `BLOCK_WIDTH`.
    pub block_offset: u64,
    /// Offset of the record inside its block.
    pub intra_block_offset: u64,
}

impl BlockWindow {
    /// The window of the record that starts at byte `offset`.
    pub open spec fn of_offset(offset: int) -> BlockWindow {
        BlockWindow {
            block_offset: (offset - offset % BLOCK_WIDTH as int) as u64,
            intra_block_offset: (offset % BLOCK_WIDTH as int) as u64,
        }
    }

    /// The window is block aligned and the record does not cross the block's end.
    pub open spec fn is_aligned(self) -> bool {
        &&& self.block_offset % BLOCK_WIDTH == 0
        &&& self.intra_block_offset + WIDTH <= BLOCK_WIDTH
    }
}

/// Splits the offset of record `key` into the offset of its block and its place
/// inside that block.
pub fn block_window(key: u64) -> (w: BlockWindow)
    requires
        key * WIDTH <= u64::MAX,
    ensures
        w == BlockWindow::of_offset(offset_of(key as int)),
        w.block_offset + w.intra_block_offset == offset_of(key as int),
        w.is_aligned(),
{
    let offset: u64 = key * WIDTH;
    let intra_block_offset: u64 = offset % BLOCK_WIDTH;
    let block_offset: u64 = offset - intra_block_offset;
    proof {
        lemma_window_aligned(key as int);
    }
    BlockWindow { block_offset, intra_block_offset }
}

/// For every key, the window of its record starts on a block boundary and the
/// record ends inside that block.
pub proof fn lemma_window_aligned(key: int)
    requires
        key >= 0,
    ensures
        (offset_of(key) - offset_of(key) % BLOCK_WIDTH as int) % BLOCK_WIDTH as int == 0,
        offset_of(key) % BLOCK_WIDTH as int + WIDTH <= BLOCK_WIDTH,
{
    let off = offset_of(key);
    let q = key / 64;
    let r = key % 64;
    vstd::arithmetic::div_mod::lemma_fundamental_div_mod(key, 64);
    assert(off == q * 512 + 8 * r) by (nonlinear_arith)
        requires
            off == key * 8,
            key == 64 * q + r,
    ;
    vstd::arithmetic::div_mod::lemma_fundamental_div_mod_converse(off, 512, q, 8 * r);
    vstd::arithmetic::div_mod::lemma_mod_multiples_basic(q, 512);
    assert(off - off % 512 == q * 512);
}

} // verus!
