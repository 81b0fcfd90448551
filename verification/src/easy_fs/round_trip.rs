use vstd::prelude::*;
use crate::codec::{le_u32, splice};
use crate::easy_fs::layout::{data_blocks_of, min_of, write_chunks, InodeView};
use crate::easy_fs::Disk;

verus! {

/// Whether the two disks hold the same in the index blocks through which
/// the first `n` blocks of the content of `v` are found on `disk`.
pub open spec fn same_index(v: InodeView, disk: Disk, other: Disk, n: int) -> bool {
    &&& n > 28 ==> other[v.indirect1 as usize] == disk[v.indirect1 as usize]
    &&& n > 156 ==> other[v.indirect2 as usize] == disk[v.indirect2 as usize]
    &&& forall|m: int|
        0 <= m && 156 + 128 * m < n ==> other[#[trigger] le_u32(disk[v.indirect2 as usize], 4 * m) as usize]
            == disk[le_u32(disk[v.indirect2 as usize], 4 * m) as usize]
}

/// Whether block `b` is none of the index blocks through which the first
/// `n` blocks of the content of `v` are found on `disk`.
pub open spec fn no_index(v: InodeView, disk: Disk, b: u32, n: int) -> bool {
    &&& n > 28 ==> b != v.indirect1
    &&& n > 156 ==> b != v.indirect2
    &&& forall|m: int| 0 <= m && 156 + 128 * m < n ==> b != #[trigger] le_u32(disk[v.indirect2 as usize], 4 * m)
}

/// Whether the blocks from number `first` up to `last` of the content of
/// `v`, which has `n` blocks, are blocks of 512 bytes, each another block,
/// and none of them an index block.
pub open spec fn blocks_apart(v: InodeView, disk: Disk, first: int, last: int, n: int) -> bool {
    &&& forall|i: int, j: int|
        first <= i < j < last ==> #[trigger] v.block_id(disk, i) != #[trigger] v.block_id(disk, j)
    &&& forall|i: int|
        first <= i < last ==> no_index(v, disk, #[trigger] v.block_id(disk, i), n) && disk[v.block_id(disk, i) as usize].len()
            == 512
}

/// Where the index blocks hold the same, each block of the content is
/// found at the same place.
pub proof fn lemma_same_blocks(v: InodeView, disk: Disk, other: Disk, k: int, n: int)
    requires
        same_index(v, disk, other, n),
        0 <= k < n,
    ensures
        v.block_id(other, k) == v.block_id(disk, k),
{
    if k >= 156 {
        let m = (k - 156) / 128;
        assert(0 <= m && 156 + 128 * m < n);
        assert(other[le_u32(disk[v.indirect2 as usize], 4 * m) as usize] == disk[le_u32(
            disk[v.indirect2 as usize],
            4 * m,
        ) as usize]);
    }
}

/// What writing block by block leaves: the index blocks and every block
/// that is no block of the written part hold what they held, and the
/// written part holds the bytes that were written.
pub proof fn lemma_chunks_written(
    v: InodeView,
    disk0: Disk,
    disk: Disk,
    start: int,
    end: int,
    data: Seq<u8>,
    done: int,
    n: int,
)
    requires
        0 <= start <= end <= 512 * n,
        0 <= done,
        done + (end - start) <= data.len(),
        blocks_apart(v, disk0, start / 512, (end + 511) / 512, n),
        same_index(v, disk0, disk, n),
        forall|i: int|
            start / 512 <= i < (end + 511) / 512 ==> disk[#[trigger] v.block_id(disk0, i) as usize].len() == 512,
    ensures
        same_index(v, disk0, write_chunks(v, disk, start, end, data, done), n),
        forall|pos: int|
            start <= pos < end ==> write_chunks(v, disk, start, end, data, done)[v.block_id(disk0, pos / 512) as usize][pos
                % 512] == #[trigger] data[done + pos - start],
        forall|b: usize|
            (forall|i: int| start / 512 <= i < (end + 511) / 512 ==> b != #[trigger] v.block_id(disk0, i))
                ==> #[trigger] write_chunks(v, disk, start, end, data, done)[b] == disk[b],
    decreases end - start,
{
    if start < end {
        let k = start / 512;
        let stop = min_of((k + 1) * 512, end);
        lemma_same_blocks(v, disk0, disk, k, n);
        let id = v.block_id(disk0, k) as usize;
        let chunk = data.subrange(done, done + stop - start);
        let disk1 = disk.insert(id, splice(disk[id], start % 512, chunk));
        let d = write_chunks(v, disk, start, end, data, done);
        assert(d == write_chunks(v, disk1, stop, end, data, done + stop - start));
        assert(no_index(v, disk0, v.block_id(disk0, k), n));
        assert(same_index(v, disk0, disk1, n)) by {
            assert forall|m: int| 0 <= m && 156 + 128 * m < n implies disk1[#[trigger] le_u32(
                disk0[v.indirect2 as usize],
                4 * m,
            ) as usize] == disk0[le_u32(disk0[v.indirect2 as usize], 4 * m) as usize] by {
                assert(v.block_id(disk0, k) != le_u32(disk0[v.indirect2 as usize], 4 * m));
            }
        }
        if stop < end {
            assert(stop == (k + 1) * 512);
            assert(stop / 512 == k + 1);
            assert forall|i: int| stop / 512 <= i < (end + 511) / 512 implies disk1[#[trigger] v.block_id(disk0, i) as usize].len()
                == 512 by {
                assert(v.block_id(disk0, k) != v.block_id(disk0, i));
            }
            assert(blocks_apart(v, disk0, stop / 512, (end + 511) / 512, n));
            lemma_chunks_written(v, disk0, disk1, stop, end, data, done + stop - start, n);
            assert forall|pos: int| start <= pos < end implies d[v.block_id(disk0, pos / 512) as usize][pos % 512]
                == #[trigger] data[done + pos - start] by {
                if pos < stop {
                    assert(pos / 512 == k);
                    assert forall|i: int| stop / 512 <= i < (end + 511) / 512 implies id != #[trigger] v.block_id(
                        disk0,
                        i,
                    ) by {
                        assert(v.block_id(disk0, k) != v.block_id(disk0, i));
                    }
                    assert(d[id] == disk1[id]);
                    assert(disk1[id][pos % 512] == chunk[pos % 512 - start % 512]);
                } else {
                    assert(data[(done + stop - start) + pos - stop] == data[done + pos - start]);
                }
            }
            assert forall|b: usize|
                (forall|i: int| start / 512 <= i < (end + 511) / 512 ==> b != #[trigger] v.block_id(disk0, i)) implies #[trigger] d[b]
                == disk[b] by {
                assert(b != v.block_id(disk0, k));
                assert forall|i: int| stop / 512 <= i < (end + 511) / 512 implies b != #[trigger] v.block_id(disk0, i) by {}
                assert(d[b] == disk1[b]);
            }
        } else {
            assert(d == disk1);
            assert forall|pos: int| start <= pos < end implies d[v.block_id(disk0, pos / 512) as usize][pos % 512]
                == #[trigger] data[done + pos - start] by {
                assert(pos / 512 == k);
                assert(disk1[id][pos % 512] == chunk[pos % 512 - start % 512]);
            }
            assert forall|b: usize|
                (forall|i: int| start / 512 <= i < (end + 511) / 512 ==> b != #[trigger] v.block_id(disk0, i)) implies #[trigger] d[b]
                == disk[b] by {
                assert(b != v.block_id(disk0, k));
            }
        }
    }
}

/// The bytes that were written to a part of the content are the bytes
/// that are read from it, in a file whose blocks of that part are each
/// another block of 512 bytes and none of them an index block of the file.
pub proof fn lemma_written_bytes_are_read(v: InodeView, disk: Disk, offset: int, data: Seq<u8>)
    requires
        v.wf(),
        0 <= offset,
        offset + data.len() <= v.size,
        blocks_apart(
            v,
            disk,
            offset / 512,
            (offset + data.len() + 511) / 512,
            data_blocks_of(v.size as int),
        ),
    ensures
        v.bytes(write_chunks(v, disk, offset, offset + data.len(), data, 0), offset, data.len() as int) == data,
{
    let end = offset + data.len();
    let n = data_blocks_of(v.size as int);
    let d = write_chunks(v, disk, offset, end, data, 0);
    assert(same_index(v, disk, disk, n));
    lemma_chunks_written(v, disk, disk, offset, end, data, 0, n);
    assert forall|k: int| 0 <= k < data.len() implies v.byte(d, offset + k) == data[k] by {
        let pos = offset + k;
        lemma_same_blocks(v, disk, d, pos / 512, n);
        assert(d[v.block_id(disk, pos / 512) as usize][pos % 512] == data[0 + pos - offset]);
    }
    assert(v.bytes(d, offset, data.len() as int) =~= data);
}

} // verus!
