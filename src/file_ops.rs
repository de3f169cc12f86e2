use vstd::prelude::*;
use vstd::string::StringSliceAdditionalSpecFns;

use crate::block_device::{overwrite, zero_block, BlockDevice};
use crate::error::FsError;
use crate::file_table::{
    after_create, after_release, after_remove, after_resize, blocks_for, byte_strings,
    create_outcome, fresh_table, lemma_entry_blocks, resize_outcome, EntryView,
    FileTable, TableView,
};
use crate::superblock::{superblock_image, Superblock, SUPERBLOCK_MAGIC};
use crate::BLOCK_SIZE;

verus! {

/// A device whose table is consistent and names only blocks the device has.
pub open spec fn device_ok(t: TableView, blocks: Seq<Seq<u8>>) -> bool {
    t.wf() && t.blocks_amount < blocks.len()
}

/// The bytes of the file recorded by `e`: its first `size` bytes, laid out
/// across its blocks in order.
pub open spec fn content(blocks: Seq<Seq<u8>>, e: EntryView) -> Seq<u8> {
    Seq::new(
        e.size,
        |k: int| blocks[e.blocks[k / (BLOCK_SIZE as int)] as int][k % (BLOCK_SIZE as int)],
    )
}

/// What reading the file named `q` answers.
pub open spec fn read_outcome(t: TableView, blocks: Seq<Seq<u8>>, q: Seq<u8>) -> Result<
    Seq<u8>,
    FsError,
> {
    if t.has_file(q) {
        Ok(content(blocks, t.entries[t.index_of(q)]))
    } else {
        Err(FsError::NotFound)
    }
}

/// What writing `size` bytes to the file named `q` answers.
pub open spec fn write_outcome(t: TableView, q: Seq<u8>, size: nat) -> Result<(), FsError> {
    if !t.has_file(q) {
        Err(FsError::NotFound)
    } else {
        match resize_outcome(t, t.index_of(q), size) {
            Ok(_) => Ok(()),
            Err(e) => Err(e),
        }
    }
}

/// The blocks that writing `size` bytes to the file named `q` gives up.
pub open spec fn write_released(t: TableView, q: Seq<u8>, size: nat) -> Seq<usize> {
    resize_outcome(t, t.index_of(q), size)->Ok_0
}

/// The table after a successful write of `size` bytes to the file named `q`:
/// the file resized, its surplus blocks back on the free list.
pub open spec fn table_after_write(t: TableView, q: Seq<u8>, size: nat) -> TableView {
    after_release(after_resize(t, t.index_of(q), size), write_released(t, q, size))
}

/// The medium after `data` went to the file now recorded by `e` and the blocks
/// of `released` were zeroed: the file holds `data`, the released blocks hold
/// zeros, and every other block is as it was.
pub open spec fn medium_after_write(
    before: Seq<Seq<u8>>,
    after: Seq<Seq<u8>>,
    e: EntryView,
    released: Seq<usize>,
    data: Seq<u8>,
) -> bool {
    &&& after.len() == before.len()
    &&& content(after, e) == data
    &&& forall|k: int| 0 <= k < released.len() ==> after[#[trigger] released[k] as int] == zero_block()
    &&& forall|b: usize|
        b < before.len() && !e.blocks.contains(b) && !released.contains(b) ==> #[trigger] after[b as int]
            == before[b as int]
}

/// The medium after the blocks of `ids` were zeroed, every other block as it was.
pub open spec fn medium_after_erase(before: Seq<Seq<u8>>, after: Seq<Seq<u8>>, ids: Seq<usize>) -> bool {
    &&& after.len() == before.len()
    &&& forall|b: usize|
        b < before.len() ==> #[trigger] after[b as int] == if ids.contains(b) {
            zero_block()
        } else {
            before[b as int]
        }
}

/// A file whose blocks all kept their contents kept its bytes.
proof fn lemma_content_frame(b0: Seq<Seq<u8>>, b1: Seq<Seq<u8>>, e: EntryView)
    requires
        e.blocks.len() == blocks_for(e.size),
        forall|k: int| 0 <= k < e.blocks.len() ==> b1[#[trigger] e.blocks[k] as int] == b0[e.blocks[k] as int],
    ensures
        content(b1, e) == content(b0, e),
{
    assert forall|k: int| 0 <= k < e.size implies #[trigger] content(b1, e)[k] == content(b0, e)[k] by {
        assert(k / (BLOCK_SIZE as int) < e.blocks.len()) by (nonlinear_arith)
            requires
                0 <= k < e.size,
                e.blocks.len() == blocks_for(e.size),
        ;
    }
    assert(content(b1, e) =~= content(b0, e));
}

/// A block of zeros.
fn zero_buffer() -> (r: Vec<u8>)
    ensures
        r@ == zero_block(),
{
    let mut out: Vec<u8> = Vec::new();
    let mut k: usize = 0;
    while k < BLOCK_SIZE
        invariant
            k <= BLOCK_SIZE,
            out@ =~= Seq::new(k as nat, |i: int| 0u8),
        decreases BLOCK_SIZE - k,
    {
        out.push(0u8);
        k += 1;
    }
    out
}

/// Writes a block of zeros to each block of `ids`.
fn zero_blocks<D: BlockDevice>(device: &mut D, ids: &Vec<usize>)
    requires
        forall|k: int| 0 <= k < ids@.len() ==> #[trigger] ids@[k] < old(device).blocks().len(),
    ensures
        final(device).table() == old(device).table(),
        medium_after_erase(old(device).blocks(), final(device).blocks(), ids@),
{
    let zeros = zero_buffer();
    let ghost before = device.blocks();
    let mut k: usize = 0;
    while k < ids.len()
        invariant
            k <= ids@.len(),
            zeros@ == zero_block(),
            forall|m: int| 0 <= m < ids@.len() ==> #[trigger] ids@[m] < before.len(),
            device.table() == old(device).table(),
            before == old(device).blocks(),
            medium_after_erase(before, device.blocks(), ids@.take(k as int)),
        decreases ids.len() - k,
    {
        let id = ids[k];
        proof {
            device.lemma_block_size();
        }
        let ghost mid = device.blocks();
        let res = device.write_block(id, zeros.as_slice());
        assert(res is Ok);
        proof {
            assert(overwrite(mid[id as int], zeros@) =~= zero_block());
            let now = device.blocks();
            let done = ids@.take(k as int);
            assert(ids@.take(k + 1) =~= done.push(id));
            assert forall|b: usize| b < before.len() implies #[trigger] now[b as int] == if done.push(
                id,
            ).contains(b) {
                zero_block()
            } else {
                before[b as int]
            } by {
                if b == id {
                    assert(done.push(id)[done.len() as int] == id);
                } else {
                    assert(now[b as int] == mid[b as int]);
                    if done.contains(b) {
                        let m = choose|m: int| 0 <= m < done.len() && done[m] == b;
                        assert(done.push(id)[m] == b);
                    }
                    if done.push(id).contains(b) {
                        let m = choose|m: int| 0 <= m < done.len() + 1 && done.push(id)[m] == b;
                        assert(done[m] == b);
                    }
                }
            }
        }
        k += 1;
    }
    assert(ids@.take(k as int) =~= ids@);
}

/// Writes `data` across the blocks of `ids`, `BLOCK_SIZE` bytes to each, in order.
fn write_chunks<D: BlockDevice>(device: &mut D, ids: &Vec<usize>, data: &[u8])
    requires
        ids@.no_duplicates(),
        forall|k: int| 0 <= k < ids@.len() ==> #[trigger] ids@[k] < old(device).blocks().len(),
        data@.len() <= ids@.len() * BLOCK_SIZE,
    ensures
        final(device).table() == old(device).table(),
        final(device).blocks().len() == old(device).blocks().len(),
        forall|k: int|
            0 <= k < data@.len() ==> final(device).blocks()[ids@[k / (BLOCK_SIZE as int)] as int][k
                % (BLOCK_SIZE as int)] == #[trigger] data@[k],
        forall|b: usize|
            b < old(device).blocks().len() && !ids@.contains(b) ==> #[trigger] final(device).blocks()[b as int]
                == old(device).blocks()[b as int],
{
    let len = data.len();
    let ghost before = device.blocks();
    let mut off: usize = 0;
    let mut j: usize = 0;
    while off < len
        invariant
            off <= len == data@.len(),
            len <= ids@.len() * BLOCK_SIZE,
            off < len ==> off == j * BLOCK_SIZE,
            j <= ids@.len(),
            ids@.no_duplicates(),
            forall|k: int| 0 <= k < ids@.len() ==> #[trigger] ids@[k] < before.len(),
            device.table() == old(device).table(),
            before == old(device).blocks(),
            device.blocks().len() == before.len(),
            forall|k: int| 0 <= k < off ==> #[trigger] (k / (BLOCK_SIZE as int)) < j,
            forall|k: int|
                0 <= k < off ==> device.blocks()[ids@[k / (BLOCK_SIZE as int)] as int][k
                    % (BLOCK_SIZE as int)] == #[trigger] data@[k],
            forall|b: usize|
                b < before.len() && !ids@.take(j as int).contains(b) ==> #[trigger] device.blocks()[b as int]
                    == before[b as int],
        decreases len - off,
    {
        let end = if len - off < BLOCK_SIZE {
            len
        } else {
            off + BLOCK_SIZE
        };
        assert(j < ids@.len()) by (nonlinear_arith)
            requires
                off == j * BLOCK_SIZE,
                off < len,
                len <= ids@.len() * BLOCK_SIZE,
        ;
        let id = ids[j];
        let chunk = vstd::slice::slice_subrange(data, off, end);
        proof {
            device.lemma_block_size();
        }
        let ghost mid = device.blocks();
        let res = device.write_block(id, chunk);
        assert(res is Ok);
        proof {
            let now = device.blocks();
            assert forall|k: int| 0 <= k < end implies now[ids@[k / (BLOCK_SIZE as int)] as int][k
                % (BLOCK_SIZE as int)] == #[trigger] data@[k] && (k / (BLOCK_SIZE as int)) < j + 1 by {
                if k < off {
                    assert(k / (BLOCK_SIZE as int) < j);
                    assert(ids@[k / (BLOCK_SIZE as int)] != id);
                } else {
                    assert(k / (BLOCK_SIZE as int) == j && k % (BLOCK_SIZE as int) == k - off)
                        by (nonlinear_arith)
                        requires
                            off == j * BLOCK_SIZE,
                            off <= k < end,
                            end <= off + BLOCK_SIZE,
                    ;
                    assert(now[id as int] == overwrite(mid[id as int], chunk@));
                    assert(now[id as int][k - off] == chunk@[k - off]);
                }
            }
            let done = ids@.take(j as int);
            assert(ids@.take(j + 1) =~= done.push(id));
            assert forall|b: usize|
                b < before.len() && !done.push(id).contains(b) implies #[trigger] now[b as int]
                == before[b as int] by {
                assert(done.push(id)[done.len() as int] == id);
                if done.contains(b) {
                    let m = choose|m: int| 0 <= m < done.len() && done[m] == b;
                    assert(done.push(id)[m] == b);
                }
            }
        }
        off = end;
        j += 1;
    }
    proof {
        assert forall|b: usize|
            b < before.len() && !ids@.contains(b) implies #[trigger] device.blocks()[b as int]
            == before[b as int] by {
            if ids@.take(j as int).contains(b) {
                let m = choose|m: int| 0 <= m < j && ids@.take(j as int)[m] == b;
                assert(ids@[m] == b);
            }
        }
    }
}

/// Appends the first `n` bytes of `src` to `out`.
fn append_prefix(out: &mut Vec<u8>, src: &Vec<u8>, n: usize)
    requires
        n <= src@.len(),
    ensures
        final(out)@ == old(out)@ + src@.take(n as int),
{
    let mut k: usize = 0;
    while k < n
        invariant
            k <= n <= src@.len(),
            out@ =~= old(out)@ + src@.take(k as int),
        decreases n - k,
    {
        out.push(src[k]);
        k += 1;
        assert(out@ =~= old(out)@ + src@.take(k as int));
    }
}

/// Appends the first `size` bytes laid out across the blocks of `ids` to `out`.
fn read_chunks<D: BlockDevice>(device: &D, ids: &Vec<usize>, size: usize, out: &mut Vec<u8>)
    requires
        forall|k: int| 0 <= k < ids@.len() ==> #[trigger] ids@[k] < device.blocks().len(),
        size <= ids@.len() * BLOCK_SIZE,
        old(out)@.len() == 0,
    ensures
        final(out)@ == Seq::new(
            size as nat,
            |k: int| device.blocks()[ids@[k / (BLOCK_SIZE as int)] as int][k % (BLOCK_SIZE as int)],
        ),
{
    let ghost want = Seq::new(
        size as nat,
        |k: int| device.blocks()[ids@[k / (BLOCK_SIZE as int)] as int][k % (BLOCK_SIZE as int)],
    );
    proof {
        device.lemma_block_size();
    }
    let mut off: usize = 0;
    let mut j: usize = 0;
    while off < size
        invariant
            off <= size,
            size <= ids@.len() * BLOCK_SIZE,
            off < size ==> off == j * BLOCK_SIZE,
            forall|k: int| 0 <= k < ids@.len() ==> #[trigger] ids@[k] < device.blocks().len(),
            forall|i: int|
                0 <= i < device.blocks().len() ==> (#[trigger] device.blocks()[i]).len() == BLOCK_SIZE,
            want == Seq::new(
                size as nat,
                |k: int| device.blocks()[ids@[k / (BLOCK_SIZE as int)] as int][k % (BLOCK_SIZE as int)],
            ),
            out@ =~= want.take(off as int),
        decreases size - off,
    {
        let n = if size - off < BLOCK_SIZE {
            size - off
        } else {
            BLOCK_SIZE
        };
        assert(j < ids@.len()) by (nonlinear_arith)
            requires
                off == j * BLOCK_SIZE,
                off < size,
                size <= ids@.len() * BLOCK_SIZE,
        ;
        let id = ids[j];
        let ghost before = out@;
        let mut tmp = zero_buffer();
        let res = device.read_block(id, n, tmp.as_mut_slice());
        assert(res is Ok);
        append_prefix(out, &tmp, n);
        proof {
            let block = device.blocks()[id as int];
            assert(block.len() == BLOCK_SIZE);
            assert(tmp@.take(n as int) =~= block.take(n as int));
            assert(off + n <= size);
            assert(out@ =~= before + block.take(n as int));
            assert forall|k: int| off <= k < off + n implies #[trigger] want[k] == block[k - off] by {
                assert(k / (BLOCK_SIZE as int) == j && k % (BLOCK_SIZE as int) == k - off)
                    by (nonlinear_arith)
                    requires
                        off == j * BLOCK_SIZE,
                        off <= k < off + n,
                        n <= BLOCK_SIZE,
                ;
                assert(ids@[k / (BLOCK_SIZE as int)] == id);
            }
            assert(out@ =~= want.take(off + n));
        }
        off = off + n;
        j += 1;
    }
    assert(want.take(off as int) =~= want);
}

/// Formats the device for `total_blocks` blocks: writes the superblock to block
/// 0 and installs a fresh table of `total_blocks - 1` usable blocks, ids 1 to
/// `total_blocks - 1` all free, discarding any files. Fails with `DeviceError`, changing nothing, when `total_blocks` is
/// zero or more than the device holds.
pub fn format_fs<D: BlockDevice>(device: &mut D, total_blocks: u32) -> (r: Result<(), FsError>)
    ensures
        r is Ok <==> 1 <= total_blocks <= old(device).blocks().len(),
        r is Err ==> r == Err::<(), FsError>(FsError::DeviceError) && *final(device) == *old(device)
            && final(device).table() == old(device).table() && final(device).blocks() == old(device).blocks(),
        r is Ok ==> final(device).table() == fresh_table((total_blocks - 1) as nat)
            && final(device).table().free.len() == total_blocks - 1
            && final(device).table().entries.len() == 0 && final(device).blocks()
            == old(device).blocks().update(
            0,
            superblock_image(
                (Superblock {
                    magic: SUPERBLOCK_MAGIC,
                    block_count: total_blocks,
                    free_blocks: (total_blocks - 1) as u32,
                }),
            ),
        ) && device_ok(final(device).table(), final(device).blocks()),
{
    let count = device.block_count();
    if total_blocks == 0 || total_blocks as usize > count {
        return Err(FsError::DeviceError);
    }
    let superblock = Superblock::new(total_blocks);
    let image = superblock.encode();
    proof {
        device.lemma_block_size();
    }
    let res = device.write_block(0, image.as_slice());
    assert(res is Ok);
    let fresh = FileTable::new(total_blocks as usize - 1);
    let table = device.get_file_table();
    *table = fresh;
    proof {
        assert(overwrite(old(device).blocks()[0], image@) =~= image@);
    }
    Ok(())
}

/// Creates an empty file named `filename`: the table's `add_file`, with no
/// data written.
pub fn create_file<D: BlockDevice>(device: &mut D, filename: &str) -> (r: Result<(), FsError>)
    requires
        device_ok(old(device).table(), old(device).blocks()),
    ensures
        r == create_outcome(old(device).table(), filename.spec_bytes()),
        r is Ok ==> final(device).table() == after_create(old(device).table(), filename.spec_bytes()),
        r is Err ==> final(device).table() == old(device).table(),
        final(device).blocks() == old(device).blocks(),
        device_ok(final(device).table(), final(device).blocks()),
{
    let table = device.get_file_table();
    table.add_file(filename)
}

/// Replaces the contents of the file named `file_name` with `data`. The file
/// grows by blocks taken from the end of the free list or gives its surplus
/// trailing blocks back, zeroed, and `data` is laid out across its blocks in
/// order. Fails with `NotFound` when there is no such file and with `NoSpace`
/// when the free blocks cannot hold the growth; a failed write changes nothing.
/// The table change and the block writes form one transaction: the device is
/// held exclusively from the lookup to the release of the surplus blocks.
pub fn write_file<D: BlockDevice>(device: &mut D, file_name: &str, data: &[u8]) -> (r: Result<
    (),
    FsError,
>)
    requires
        device_ok(old(device).table(), old(device).blocks()),
    ensures
        r == write_outcome(old(device).table(), file_name.spec_bytes(), data@.len()),
        r is Ok ==> final(device).table() == table_after_write(
            old(device).table(),
            file_name.spec_bytes(),
            data@.len(),
        ) && medium_after_write(
            old(device).blocks(),
            final(device).blocks(),
            final(device).table().entries[old(device).table().index_of(file_name.spec_bytes())],
            write_released(old(device).table(), file_name.spec_bytes(), data@.len()),
            data@,
        ) && forall|j: int|
            0 <= j < final(device).table().entries.len() && j != old(device).table().index_of(
                file_name.spec_bytes(),
            ) ==> content(final(device).blocks(), #[trigger] final(device).table().entries[j])
                == content(old(device).blocks(), final(device).table().entries[j]),
        r is Err ==> final(device).table() == old(device).table() && final(device).blocks() == old(device).blocks(),
        device_ok(final(device).table(), final(device).blocks()),
{
    let ghost t0 = device.table();
    let ghost b0 = device.blocks();
    let ghost q = file_name.spec_bytes();
    let table = device.get_file_table();
    let idx = match table.position(file_name.as_bytes()) {
        Some(i) => i,
        None => {
            return Err(FsError::NotFound);
        },
    };
    let surplus = match table.resize_entry(idx, data.len()) {
        Ok(v) => v,
        Err(e) => {
            return Err(e);
        },
    };
    let ids = table.blocks_of(idx);
    let ghost t1 = table@;
    proof {
        assert(t1 == after_resize(t0, idx as int, data@.len()));
        lemma_entry_blocks(t1, surplus@, idx as int);
        crate::file_table::lemma_held_blocks(t1, surplus@);
        assert(data@.len() <= ids@.len() * BLOCK_SIZE) by (nonlinear_arith)
            requires
                ids@.len() == blocks_for(data@.len()),
        ;
    }
    zero_blocks(device, &surplus);
    let ghost bz = device.blocks();
    write_chunks(device, &ids, data);
    let ghost b2 = device.blocks();
    let table = device.get_file_table();
    table.release(surplus);
    proof {
        let t2 = device.table();
        let e = t2.entries[idx as int];
        assert(e == t1.entries[idx as int]);
        assert(content(b2, e) =~= data@);
        assert forall|k: int| 0 <= k < surplus@.len() implies b2[#[trigger] surplus@[k] as int]
            == zero_block() by {
            assert(!ids@.contains(surplus@[k]));
            assert(surplus@.contains(surplus@[k]));
        }
        assert forall|j: int| 0 <= j < t2.entries.len() && j != idx implies content(
            b2,
            #[trigger] t2.entries[j],
        ) == content(b0, t2.entries[j]) by {
            let other = t2.entries[j];
            assert(other == t1.entries[j]);
            lemma_entry_blocks(t1, surplus@, j);
            assert forall|k: int| 0 <= k < other.blocks.len() implies b2[#[trigger] other.blocks[k] as int]
                == b0[other.blocks[k] as int] by {
                let b = other.blocks[k];
                assert(!t1.entries[idx as int].blocks.contains(b));
                assert(!surplus@.contains(b));
            }
            lemma_content_frame(b0, b2, other);
        }
    }
    Ok(())
}

/// The contents of the file named `file_name`: exactly its `size` bytes, read
/// across its blocks in order. Fails with `NotFound` when there is no such file.
/// Like every operation it holds the device exclusively, since the table is
/// reached through the device's lock.
pub fn read_file<D: BlockDevice>(device: &mut D, file_name: &str) -> (r: Result<Vec<u8>, FsError>)
    requires
        device_ok(old(device).table(), old(device).blocks()),
    ensures
        match r {
            Ok(v) => read_outcome(old(device).table(), old(device).blocks(), file_name.spec_bytes())
                == Ok::<Seq<u8>, FsError>(v@),
            Err(e) => read_outcome(old(device).table(), old(device).blocks(), file_name.spec_bytes())
                == Err::<Seq<u8>, FsError>(e),
        },
        final(device).table() == old(device).table(),
        final(device).blocks() == old(device).blocks(),
{
    let table = device.get_file_table();
    let idx = match table.position(file_name.as_bytes()) {
        Some(i) => i,
        None => {
            return Err(FsError::NotFound);
        },
    };
    let size = table.entries[idx].size;
    let ids = table.blocks_of(idx);
    let ghost t = table@;
    proof {
        lemma_entry_blocks(t, Seq::empty(), idx as int);
        assert(size <= ids@.len() * BLOCK_SIZE) by (nonlinear_arith)
            requires
                ids@.len() == blocks_for(size as nat),
        ;
    }
    let mut out: Vec<u8> = Vec::new();
    read_chunks(device, &ids, size, &mut out);
    assert(out@ =~= content(device.blocks(), t.entries[idx as int]));
    Ok(out)
}

/// Deletes the file named `file_name`: removes its entry, writes zeros over
/// each of its blocks, and puts them back on the free list. Fails with
/// `NotFound`, changing nothing, when there is no such file.
pub fn delete_file<D: BlockDevice>(device: &mut D, file_name: &str) -> (r: Result<(), FsError>)
    requires
        device_ok(old(device).table(), old(device).blocks()),
    ensures
        r is Ok <==> old(device).table().has_file(file_name.spec_bytes()),
        r is Err ==> r == Err::<(), FsError>(FsError::NotFound) && final(device).table() == old(device).table() && final(device).blocks() == old(device).blocks(),
        r is Ok ==> final(device).table() == after_release(
            after_remove(old(device).table(), file_name.spec_bytes()),
            old(device).table().entries[old(device).table().index_of(file_name.spec_bytes())].blocks,
        ) && medium_after_erase(
            old(device).blocks(),
            final(device).blocks(),
            old(device).table().entries[old(device).table().index_of(file_name.spec_bytes())].blocks,
        ) && forall|j: int|
            0 <= j < final(device).table().entries.len() ==> content(
                final(device).blocks(),
                #[trigger] final(device).table().entries[j],
            ) == content(old(device).blocks(), final(device).table().entries[j]),
        device_ok(final(device).table(), final(device).blocks()),
{
    let ghost b0 = device.blocks();
    let table = device.get_file_table();
    let blocks = match table.delete_file_by_name(file_name) {
        Ok(v) => v,
        Err(e) => {
            return Err(e);
        },
    };
    let ghost t1 = table@;
    proof {
        crate::file_table::lemma_held_blocks(t1, blocks@);
    }
    zero_blocks(device, &blocks);
    let ghost b1 = device.blocks();
    let table = device.get_file_table();
    table.release(blocks);
    proof {
        let t2 = device.table();
        assert forall|j: int| 0 <= j < t2.entries.len() implies content(b1, #[trigger] t2.entries[j])
            == content(b0, t2.entries[j]) by {
            let other = t2.entries[j];
            assert(other == t1.entries[j]);
            lemma_entry_blocks(t1, blocks@, j);
            assert forall|k: int| 0 <= k < other.blocks.len() implies b1[#[trigger] other.blocks[k] as int]
                == b0[other.blocks[k] as int] by {
                assert(!blocks@.contains(other.blocks[k]));
            }
            lemma_content_frame(b0, b1, other);
        }
    }
    Ok(())
}

/// The trimmed names of the live files, in the order they were created.
pub fn list_files<D: BlockDevice>(device: &mut D) -> (r: Vec<Vec<u8>>)
    ensures
        byte_strings(r@) == old(device).table().names(),
        final(device).table() == old(device).table(),
        final(device).blocks() == old(device).blocks(),
{
    let table = device.get_file_table();
    table.list_files()
}

// ---------------------------------------------------------------------------
// Laws of the file operations
// ---------------------------------------------------------------------------

/// Round trip: a payload that the free blocks can hold, written to a live file,
/// is accepted, and reading the file afterwards gives exactly the payload.
pub proof fn lemma_round_trip(
    t0: TableView,
    b0: Seq<Seq<u8>>,
    t1: TableView,
    b1: Seq<Seq<u8>>,
    q: Seq<u8>,
    data: Seq<u8>,
)
    requires
        device_ok(t0, b0),
        t0.has_file(q),
        data.len() <= t0.free.len() * BLOCK_SIZE,
        t1 == table_after_write(t0, q, data.len()),
        medium_after_write(b0, b1, t1.entries[t0.index_of(q)], write_released(t0, q, data.len()), data),
    ensures
        write_outcome(t0, q, data.len()) == Ok::<(), FsError>(()),
        read_outcome(t1, b1, q) == Ok::<Seq<u8>, FsError>(data),
{
    let i = t0.index_of(q);
    let e = t0.entries[i];
    let len = data.len();
    assert(blocks_for(len) <= e.blocks.len() + t0.free.len()) by {
        if len > 0 {
            assert((len + BLOCK_SIZE - 1) / (BLOCK_SIZE as int) <= t0.free.len()) by (nonlinear_arith)
                requires
                    0 < len <= t0.free.len() * BLOCK_SIZE,
            ;
        }
    }
    assert forall|j: int| 0 <= j < t1.entries.len() implies (#[trigger] t1.entries[j]).trimmed_name()
        == t0.entries[j].trimmed_name() by {}
    assert(t1.entries[i].trimmed_name() == q);
    assert(t1.has_file(q));
    let c = t1.index_of(q);
    if c != i {
        if c < i {
            assert(t0.entries[c].trimmed_name() != t0.entries[i].trimmed_name());
        } else {
            assert(t0.entries[i].trimmed_name() != t0.entries[c].trimmed_name());
        }
    }
}

/// Deletion reclaims exactly its blocks: after a file is deleted, every block
/// it owned is on the free list and owned by no remaining entry.
pub proof fn lemma_delete_reclaims(t0: TableView, q: Seq<u8>, b: usize)
    requires
        t0.wf(),
        t0.has_file(q),
        t0.entries[t0.index_of(q)].blocks.contains(b),
    ensures
        ({
            let t1 = after_release(after_remove(t0, q), t0.entries[t0.index_of(q)].blocks);
            &&& t1.free.contains(b)
            &&& forall|j: int| 0 <= j < t1.entries.len() ==> !(#[trigger] t1.entries[j]).blocks.contains(b)
        }),
{
    let i = t0.index_of(q);
    let owned = t0.entries[i].blocks;
    let t1 = after_release(after_remove(t0, q), owned);
    let k = choose|k: int| 0 <= k < owned.len() && owned[k] == b;
    assert(t1.free[t0.free.len() + k] == b);
    lemma_entry_blocks(t0, Seq::empty(), i);
    assert forall|j: int| 0 <= j < t1.entries.len() implies !(#[trigger] t1.entries[j]).blocks.contains(b) by {
        let j0 = if j < i { j } else { j + 1 };
        assert(t1.entries[j] == t0.entries[j0]);
        assert(!t0.entries[j0].blocks.contains(owned[k]));
    }
}

/// Partial-failure atomicity: a write of more bytes than the file's blocks and
/// the free blocks together hold fails with `NoSpace` (and `write_file` then
/// changes nothing).
pub proof fn lemma_write_too_large(t: TableView, q: Seq<u8>, size: nat)
    requires
        t.wf(),
        t.has_file(q),
        size > (t.entries[t.index_of(q)].blocks.len() + t.free.len()) * BLOCK_SIZE,
    ensures
        write_outcome(t, q, size) == Err::<(), FsError>(FsError::NoSpace),
{
    let have = t.entries[t.index_of(q)].blocks.len() + t.free.len();
    assert((size + BLOCK_SIZE - 1) / (BLOCK_SIZE as int) > have) by (nonlinear_arith)
        requires
            size > have * BLOCK_SIZE,
    ;
}

/// Idempotent listing: listing leaves the table as it was, so a second listing
/// with nothing in between gives the same names in the same order.
pub proof fn lemma_listing_idempotent(
    t0: TableView,
    t1: TableView,
    first: Seq<Seq<u8>>,
    second: Seq<Seq<u8>>,
)
    requires
        first == t0.names(),
        t1 == t0,
        second == t1.names(),
    ensures
        first == second,
{
}

} // verus!
