use vstd::prelude::*;

use crate::error::FsError;
use crate::file_table::{fresh_table, FileTable, TableView};
use crate::BLOCK_SIZE;

verus! {

/// spin's spin lock, declared so that a device can hold its table in one;
/// Verus sees nothing inside it.
#[verifier::external_type_specification]
#[verifier::external_body]
#[verifier::reject_recursive_types(T)]
#[verifier::reject_recursive_types(R)]
pub struct ExMutex<T: ?Sized, R>(spin::mutex::Mutex<T, R>);

/// The default waiting strategy of spin's lock, which its type names.
#[verifier::external_type_specification]
#[verifier::external_body]
pub struct ExSpin(spin::relax::Spin);

/// What a lock around a file table holds, as a value: the lock is a container
/// of one table, and this is its content.
pub uninterp spec fn guarded_table(m: spin::Mutex<FileTable>) -> TableView;

/// Relies on spin::Mutex::new: the new lock holds `t`.
#[verifier::external_body]
fn guard_table(t: FileTable) -> (m: spin::Mutex<FileTable>)
    ensures
        guarded_table(m) == t@,
{
    spin::Mutex::new(t)
}

/// Relies on spin::Mutex::get_mut: the exclusive borrow of the lock gives the
/// held table with no other holder possible, and what is done through the
/// returned reference is what the lock holds afterwards.
#[verifier::external_body]
fn table_in(m: &mut spin::Mutex<FileTable>) -> (r: &mut FileTable)
    ensures
        (*r)@ == guarded_table(*old(m)),
        guarded_table(*final(m)) == (*final(r))@,
{
    m.get_mut()
}

/// A block of zero bytes.
pub open spec fn zero_block() -> Seq<u8> {
    Seq::new(BLOCK_SIZE as nat, |i: int| 0u8)
}

/// The block `id` after `data` was written to its start.
pub open spec fn overwrite(block: Seq<u8>, data: Seq<u8>) -> Seq<u8> {
    data + block.skip(data.len() as int)
}

/// A store of fixed-size blocks, addressed by index, paired with the file table
/// that describes it. The table sits behind the device's lock: holding the
/// device exclusively is what lets an operation reach it.
pub trait BlockDevice {
    /// The medium, block by block.
    spec fn blocks(&self) -> Seq<Seq<u8>>;

    /// The file table behind the lock.
    spec fn table(&self) -> TableView;

    /// Every block is `BLOCK_SIZE` bytes long.
    proof fn lemma_block_size(&self)
        ensures
            forall|i: int| 0 <= i < self.blocks().len() ==> (#[trigger] self.blocks()[i]).len() == BLOCK_SIZE;

    /// The number of blocks.
    fn block_count(&self) -> (r: usize)
        ensures
            r == self.blocks().len();

    /// Copies the first `data_size` bytes of block `block_id` into the start of
    /// `buf`, leaving the rest of `buf` as it was. Fails with `DeviceError`,
    /// copying nothing, when the block does not exist, `data_size` exceeds a
    /// block, or `buf` is shorter than `data_size`.
    fn read_block(&self, block_id: usize, data_size: usize, buf: &mut [u8]) -> (r: Result<(), FsError>)
        ensures
            r is Ok <==> block_id < self.blocks().len() && data_size <= BLOCK_SIZE && data_size <= old(buf)@.len(),
            r is Ok ==> final(buf)@ == self.blocks()[block_id as int].take(data_size as int) + old(buf)@.skip(data_size as int),
            r is Err ==> r == Err::<(), FsError>(FsError::DeviceError) && final(buf)@ == old(buf)@;

    /// Copies `buf` to the start of block `block_id`. Fails with `DeviceError`,
    /// writing nothing, when the block does not exist or `buf` exceeds a block.
    fn write_block(&mut self, block_id: usize, buf: &[u8]) -> (r: Result<(), FsError>)
        ensures
            r is Ok <==> block_id < old(self).blocks().len() && buf@.len() <= BLOCK_SIZE,
            r is Ok ==> final(self).blocks() == old(self).blocks().update(
                block_id as int,
                overwrite(old(self).blocks()[block_id as int], buf@),
            ),
            r is Err ==> r == Err::<(), FsError>(FsError::DeviceError) && final(self).blocks() == old(self).blocks(),
            final(self).table() == old(self).table();

    /// The file table, held for the caller until the returned borrow ends.
    fn get_file_table(&mut self) -> (r: &mut FileTable)
        ensures
            (*r)@ == old(self).table(),
            final(self).table() == (*final(r))@,
            final(self).blocks() == old(self).blocks();
}

/// The blocks of a byte store: consecutive runs of `BLOCK_SIZE` bytes; bytes
/// after the last whole block are not part of any.
pub open spec fn blocks_of_bytes(s: Seq<u8>) -> Seq<Seq<u8>> {
    Seq::new(
        s.len() / (BLOCK_SIZE as nat),
        |i: int| s.subrange(i * BLOCK_SIZE, i * BLOCK_SIZE + BLOCK_SIZE),
    )
}

/// A block device over a byte vector in memory.
pub struct MyBlockDevice {
    storage: Vec<u8>,
    files_table: spin::Mutex<FileTable>,
}

impl MyBlockDevice {
    /// A device over `storage`, with a table that has every block but block 0
    /// free and no files.
    pub fn new(storage: Vec<u8>) -> (r: MyBlockDevice)
        ensures
            r.blocks() == blocks_of_bytes(storage@),
            r.table() == fresh_table(
                if r.blocks().len() == 0 {
                    0nat
                } else {
                    (r.blocks().len() - 1) as nat
                },
            ),
            r.table().wf(),
    {
        let count = storage.len() / BLOCK_SIZE;
        let usable = if count == 0 {
            0
        } else {
            count - 1
        };
        let table = FileTable::new(usable);
        MyBlockDevice { storage, files_table: guard_table(table) }
    }
}

impl BlockDevice for MyBlockDevice {
    closed spec fn blocks(&self) -> Seq<Seq<u8>> {
        blocks_of_bytes(self.storage@)
    }

    closed spec fn table(&self) -> TableView {
        guarded_table(self.files_table)
    }

    proof fn lemma_block_size(&self) {
        assert forall|i: int| 0 <= i < self.blocks().len() implies (#[trigger] self.blocks()[i]).len()
            == BLOCK_SIZE by {
            assert(i * BLOCK_SIZE + BLOCK_SIZE <= self.storage@.len()) by (nonlinear_arith)
                requires
                    0 <= i < self.storage@.len() / (BLOCK_SIZE as nat),
            ;
        }
    }

    fn block_count(&self) -> (r: usize) {
        self.storage.len() / BLOCK_SIZE
    }

    fn read_block(&self, block_id: usize, data_size: usize, buf: &mut [u8]) -> (r: Result<(), FsError>) {
        if block_id >= self.storage.len() / BLOCK_SIZE || data_size > BLOCK_SIZE || data_size > buf.len() {
            return Err(FsError::DeviceError);
        }
        proof {
            self.lemma_block_size();
            assert(block_id * BLOCK_SIZE + BLOCK_SIZE <= self.storage@.len()) by (nonlinear_arith)
                requires
                    block_id < self.storage@.len() / (BLOCK_SIZE as nat),
            ;
        }
        let start = block_id * BLOCK_SIZE;
        let len = self.storage.len();
        let ghost block = self.blocks()[block_id as int];
        assert(block =~= self.storage@.subrange(start as int, start + BLOCK_SIZE));
        let mut k: usize = 0;
        while k < data_size
            invariant
                k <= data_size <= BLOCK_SIZE,
                len == self.storage@.len(),
                start + BLOCK_SIZE <= len,
                block == self.storage@.subrange(start as int, start + BLOCK_SIZE),
                data_size <= old(buf)@.len(),
                buf@ =~= block.take(k as int) + old(buf)@.skip(k as int),
            decreases data_size - k,
        {
            buf[k] = self.storage[start + k];
            k += 1;
            assert(buf@ =~= block.take(k as int) + old(buf)@.skip(k as int));
        }
        Ok(())
    }

    fn write_block(&mut self, block_id: usize, buf: &[u8]) -> (r: Result<(), FsError>) {
        if block_id >= self.storage.len() / BLOCK_SIZE || buf.len() > BLOCK_SIZE {
            return Err(FsError::DeviceError);
        }
        proof {
            assert(block_id * BLOCK_SIZE + BLOCK_SIZE <= self.storage@.len()) by (nonlinear_arith)
                requires
                    block_id < self.storage@.len() / (BLOCK_SIZE as nat),
            ;
        }
        let start = block_id * BLOCK_SIZE;
        let ghost before = self.storage@;
        let mut k: usize = 0;
        while k < buf.len()
            invariant
                k <= buf@.len() <= BLOCK_SIZE,
                start == block_id * BLOCK_SIZE,
                start + BLOCK_SIZE <= before.len(),
                self.storage@.len() == before.len(),
                forall|p: int|
                    0 <= p < before.len() ==> #[trigger] self.storage@[p] == if start <= p < start + k {
                        buf@[p - start]
                    } else {
                        before[p]
                    },
                self.files_table == old(self).files_table,
            decreases buf.len() - k,
        {
            self.storage.set(start + k, buf[k]);
            k += 1;
        }
        proof {
            let old_blocks = blocks_of_bytes(before);
            let new_blocks = blocks_of_bytes(self.storage@);
            let want = old_blocks.update(
                block_id as int,
                overwrite(old_blocks[block_id as int], buf@),
            );
            assert forall|i: int| 0 <= i < new_blocks.len() implies #[trigger] new_blocks[i] == want[i] by {
                assert(i * BLOCK_SIZE + BLOCK_SIZE <= before.len()) by (nonlinear_arith)
                    requires
                        0 <= i < before.len() / (BLOCK_SIZE as nat),
                ;
                if i == block_id {
                    assert(new_blocks[i] =~= want[i]);
                } else {
                    assert(i < block_id || i > block_id);
                    assert(i * BLOCK_SIZE + BLOCK_SIZE <= start || i * BLOCK_SIZE >= start + BLOCK_SIZE)
                        by (nonlinear_arith)
                        requires
                            i != block_id,
                            start == block_id * BLOCK_SIZE,
                    ;
                    assert(new_blocks[i] =~= want[i]);
                }
            }
            assert(new_blocks =~= want);
        }
        Ok(())
    }

    fn get_file_table(&mut self) -> (r: &mut FileTable) {
        table_in(&mut self.files_table)
    }
}

} // verus!
