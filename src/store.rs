use crate::codec::{decode_record, is_dataset, le_value, lemma_dataset_holds_keys};
use crate::layout::{block_window, lemma_window_aligned, offset_of, BlockWindow, BLOCK_WIDTH, WIDTH};
use vstd::prelude::*;

verus! {

/// Why a lookup, an open or a ring operation failed.
#[derive(Clone, Copy, Debug, PartialEq, Eq, Structural)]
pub enum DbError {
    /// The key is not below the number of records.
    OutOfRange { key: u64, records: u64 },
    /// The transfer delivered fewer bytes than the record needs.
    ShortRead { got: u64 },
    /// The operating system reported this error code.
    Io { code: i64 },
    /// A file length that is not a whole number of records, or, for direct
    /// I/O, of blocks.
    Misaligned { len: u64 },
    /// Every slot of the ring already holds an outstanding request.
    Capacity { depth: u64 },
    /// A completion arrived for a slot that holds no outstanding request.
    UnknownCompletion { slot: u64 },
    /// The latency histogram could not be built, or refused a sample or a merge.
    Histogram,
}

/// A store of records addressed by key, whatever way it reads them.
pub trait Db {
    /// The value of the record at `key`.
    fn get(&self, key: u64) -> Result<u64, DbError>;
}

/// The value of record `key` in the file bytes `b`.
pub open spec fn record_at(b: Seq<u8>, key: int) -> nat {
    le_value(b.subrange(offset_of(key), offset_of(key) + WIDTH))
}

/// What a lookup of `key` in the file bytes `b` returns.
pub open spec fn lookup_spec(b: Seq<u8>, key: u64) -> Result<u64, DbError> {
    let records = b.len() as int / WIDTH as int;
    if key < records {
        Ok(record_at(b, key as int) as u64)
    } else {
        Err(DbError::OutOfRange { key, records: records as u64 })
    }
}

/// The number of records in a file of `len` bytes; the length must be a whole
/// number of records.
pub fn records_in(len: u64) -> (r: Result<u64, DbError>)
    ensures
        len % WIDTH == 0 ==> r == Ok::<u64, DbError>(len / WIDTH),
        len % WIDTH != 0 ==> r == Err::<u64, DbError>(DbError::Misaligned { len }),
{
    if len % WIDTH == 0 {
        Ok(len / WIDTH)
    } else {
        Err(DbError::Misaligned { len })
    }
}

/// The byte offset of record `key` in a file of `records` records, or the
/// range error when the key is past the end.
pub fn record_offset(key: u64, records: u64) -> (r: Result<u64, DbError>)
    requires
        records * WIDTH <= u64::MAX,
    ensures
        key < records ==> r == Ok::<u64, DbError>((key * WIDTH) as u64),
        key >= records ==> r == Err::<u64, DbError>(DbError::OutOfRange { key, records }),
{
    if key < records {
        Ok(key * WIDTH)
    } else {
        Err(DbError::OutOfRange { key, records })
    }
}

/// The record that starts at `start` in `buf`, where a transfer filled the
/// first `n_read` bytes of `buf`; a transfer that stopped short of the
/// record's end is a short read.
pub fn decode_read(buf: &[u8], start: usize, n_read: usize) -> (r: Result<u64, DbError>)
    requires
        start + WIDTH <= buf@.len(),
    ensures
        n_read >= start + WIDTH ==> r == Ok::<u64, DbError>(
            le_value(buf@.subrange(start as int, start + WIDTH)) as u64,
        ),
        n_read < start + WIDTH ==> r == Err::<u64, DbError>(DbError::ShortRead { got: n_read as u64 }),
{
    let len: usize = buf.len();
    if n_read < start + 8 {
        Err(DbError::ShortRead { got: n_read as u64 })
    } else {
        Ok(decode_record(buf, start))
    }
}

/// Looks up `key` in the bytes of a whole file held in memory, such as a
/// read-only mapping of it: the range is checked before any byte is touched.
pub fn lookup_mapped(bytes: &[u8], key: u64) -> (r: Result<u64, DbError>)
    ensures
        r == lookup_spec(bytes@, key),
{
    let len: usize = bytes.len();
    let records: u64 = (len / 8) as u64;
    if key < records {
        let start: usize = (key * WIDTH) as usize;
        Ok(decode_record(bytes, start))
    } else {
        Err(DbError::OutOfRange { key, records })
    }
}

/// A file opened for direct I/O: its descriptor and its number of records.
/// Its length is a whole number of blocks, so that every block-sized read at a
/// block offset lies inside it.
pub struct DirectPreadDb {
    fd: i32,
    records: u64,
}

impl DirectPreadDb {
    /// The file holds a whole number of blocks of records.
    pub open spec fn wf(&self) -> bool {
        &&& self.spec_records() * WIDTH <= u64::MAX
        &&& (self.spec_records() * WIDTH) % BLOCK_WIDTH as int == 0
    }

    pub closed spec fn spec_fd(&self) -> i32 {
        self.fd
    }

    pub closed spec fn spec_records(&self) -> u64 {
        self.records
    }

    /// Takes an open descriptor of a file of `file_len` bytes; a length that is
    /// not a multiple of the block width is refused.
    pub fn new(fd: i32, file_len: u64) -> (r: Result<DirectPreadDb, DbError>)
        ensures
            file_len % BLOCK_WIDTH == 0 <==> r is Ok,
            r matches Ok(db) ==> db.wf() && db.spec_fd() == fd && db.spec_records() == file_len
                / WIDTH,
            file_len % BLOCK_WIDTH != 0 ==> r == Err::<DirectPreadDb, DbError>(
                DbError::Misaligned { len: file_len },
            ),
    {
        if file_len % BLOCK_WIDTH == 0 {
            Ok(DirectPreadDb { fd, records: file_len / WIDTH })
        } else {
            Err(DbError::Misaligned { len: file_len })
        }
    }

    /// The file descriptor.
    pub fn fd(&self) -> (r: i32)
        ensures
            r == self.spec_fd(),
    {
        self.fd
    }

    /// The number of records in the file.
    pub fn records(&self) -> (r: u64)
        ensures
            r == self.spec_records(),
    {
        self.records
    }

    /// The block to read for `key`, and the record's place in it.
    pub fn window(&self, key: u64) -> (r: Result<BlockWindow, DbError>)
        requires
            self.wf(),
        ensures
            key < self.spec_records() ==> r == Ok::<BlockWindow, DbError>(
                BlockWindow::of_offset(offset_of(key as int)),
            ),
            key < self.spec_records() ==> r->Ok_0.is_aligned() && r->Ok_0.block_offset
                + BLOCK_WIDTH <= self.spec_records() * WIDTH,
            key >= self.spec_records() ==> r == Err::<BlockWindow, DbError>(
                DbError::OutOfRange { key, records: self.spec_records() },
            ),
    {
        if key < self.records {
            let w = block_window(key);
            proof {
                lemma_block_inside_file(self.records as int, key as int);
            }
            Ok(w)
        } else {
            Err(DbError::OutOfRange { key, records: self.records })
        }
    }

    /// The record of window `w` out of the block buffer `block`, of which a
    /// transfer filled the first `n_read` bytes.
    pub fn read_block(&self, w: BlockWindow, block: &[u8], n_read: usize) -> (r: Result<
        u64,
        DbError,
    >)
        requires
            w.is_aligned(),
            block@.len() == BLOCK_WIDTH,
        ensures
            r == block_record(block@, w, n_read as int),
    {
        decode_block(block, w, n_read)
    }
}

/// The record of window `w` out of a block buffer of which a transfer filled
/// the first `n_read` bytes.
pub fn decode_block(block: &[u8], w: BlockWindow, n_read: usize) -> (r: Result<u64, DbError>)
    requires
        w.is_aligned(),
        block@.len() == BLOCK_WIDTH,
    ensures
        r == block_record(block@, w, n_read as int),
{
    decode_read(block, w.intra_block_offset as usize, n_read)
}

/// The record at window `w` in a block buffer of which `n_read` bytes were
/// filled.
pub open spec fn block_record(block: Seq<u8>, w: BlockWindow, n_read: int) -> Result<u64, DbError> {
    if n_read >= w.intra_block_offset + WIDTH {
        Ok(
            le_value(
                block.subrange(
                    w.intra_block_offset as int,
                    w.intra_block_offset + WIDTH,
                ),
            ) as u64,
        )
    } else {
        Err(DbError::ShortRead { got: n_read as u64 })
    }
}

/// In a file of whole blocks, the block that holds a record lies inside the file.
pub proof fn lemma_block_inside_file(records: int, key: int)
    requires
        0 <= key < records,
        (records * WIDTH) % BLOCK_WIDTH as int == 0,
    ensures
        BlockWindow::of_offset(offset_of(key)).block_offset + BLOCK_WIDTH <= records * WIDTH,
{
    lemma_window_aligned(key);
    let off = offset_of(key);
    let bo = off - off % 512;
    let len = records * 8;
    vstd::arithmetic::div_mod::lemma_fundamental_div_mod(off, 512);
    vstd::arithmetic::div_mod::lemma_fundamental_div_mod(len, 512);
    assert(bo == 512 * (off / 512));
    assert(len == 512 * (len / 512));
    assert(off < len) by (nonlinear_arith)
        requires
            off == key * 8,
            len == records * 8,
            key < records,
    ;
    assert(off / 512 < len / 512) by (nonlinear_arith)
        requires
            off < len,
            len == 512 * (len / 512),
            off >= 512 * (off / 512),
    ;
    assert(512 * (off / 512) + 512 <= 512 * (len / 512)) by (nonlinear_arith)
        requires
            off / 512 < len / 512,
    ;
}

/// Every backend reads back the key it is asked for, when the file is a
/// dataset whose record at each key holds that key: a lookup in the whole
/// file, a record-sized read at the record's offset, and a block-sized read
/// at the record's block offset (the direct-I/O and ring backends).
pub proof fn lemma_get_returns_key(file: Seq<u8>, n: nat, key: u64)
    requires
        is_dataset(file, n),
        n * WIDTH <= u64::MAX,
        key < n,
    ensures
        lookup_spec(file, key) == Ok::<u64, DbError>(key),
        le_value(file.subrange(offset_of(key as int), offset_of(key as int) + WIDTH)) == key,
        (n * WIDTH) % BLOCK_WIDTH as int == 0 ==> ({
            let w = BlockWindow::of_offset(offset_of(key as int));
            &&& w.block_offset + BLOCK_WIDTH <= file.len()
            &&& block_record(
                file.subrange(w.block_offset as int, w.block_offset + BLOCK_WIDTH),
                w,
                BLOCK_WIDTH as int,
            ) == Ok::<u64, DbError>(key)
        }),
{
    lemma_dataset_holds_keys(file, n, key as nat);
    assert(file.len() / 8 == n);
    assert(offset_of(key as int) == 8 * key as int);
    if (n * WIDTH) % BLOCK_WIDTH as int == 0 {
        let w = BlockWindow::of_offset(offset_of(key as int));
        lemma_window_aligned(key as int);
        lemma_block_inside_file(n as int, key as int);
        let off = offset_of(key as int);
        assert(0 <= off % 512 < 512);
        assert(w.block_offset == off - off % 512);
        assert(w.intra_block_offset == off % 512);
        let block = file.subrange(w.block_offset as int, w.block_offset + BLOCK_WIDTH);
        assert(block.subrange(w.intra_block_offset as int, w.intra_block_offset + WIDTH)
            =~= file.subrange(offset_of(key as int), offset_of(key as int) + WIDTH));
    }
}

} // verus!
