use vstd::prelude::*;
use vstd::std_specs::bits::{axiom_u64_trailing_ones, u64_trailing_ones};
use crate::codec::{lemma_with_u64_other, lemma_with_u64_same};
use crate::easy_fs::bitmap::Bitmap;
use crate::easy_fs::block_dev::BlockDevice;
use crate::easy_fs::efs::EasyFileSystem;
use crate::codec::le_u32;
use crate::easy_fs::grow_law::{data_pos, distinct, entry1, entry2, leaf_of, leaf_pos, lemma_wired, wired};
use crate::easy_fs::layout::{
    blocks_for,
    data_blocks_of,
    grow,
    lemma_inode_stored,
    total_blocks_of,
    transfer_len,
    write_chunks,
    GrowState,
    InodeView,
};
use crate::easy_fs::round_trip::{blocks_apart, lemma_chunks_written, lemma_same_blocks, no_index, same_index};
use crate::easy_fs::vfs::{alloc_n, can_alloc_n, grown, Inode};
use crate::easy_fs::Disk;

verus! {

/// Whether each block of the bitmap `bm` has 512 bytes on `disk`.
pub open spec fn bitmap_blocks(bm: Bitmap, disk: Disk) -> bool {
    forall|p: int| 0 <= p < bm.len() ==> disk[#[trigger] ((bm.start() + p) as usize)].len() == 512
}

/// An allocation takes a bit that was not set and sets it; no other bit
/// changes, and no block but those of the bitmap.
pub proof fn lemma_alloc_step(bm: Bitmap, disk: Disk)
    requires
        bm.has_free(disk),
        bitmap_blocks(bm, disk),
        bm.start() + bm.len() <= usize::MAX,
    ensures
        0 <= bm.next_bit(disk) < bm.len() * 4096,
        !bm.is_set(disk, bm.next_bit(disk)),
        bm.is_set(bm.after_alloc(disk), bm.next_bit(disk)),
        forall|c: int|
            0 <= c < bm.len() * 4096 && c != bm.next_bit(disk) ==> #[trigger] bm.is_set(bm.after_alloc(disk), c)
                == bm.is_set(disk, c),
        forall|id: usize|
            !(bm.start() <= id < bm.start() + bm.len()) ==> #[trigger] bm.after_alloc(disk)[id] == disk[id],
        forall|id: usize| (#[trigger] bm.after_alloc(disk)[id]).len() == disk[id].len(),
{
    let p = bm.first_free(disk);
    assert(bm.is_first_free(disk, p));
    let w = bm.word_at(disk, p);
    axiom_u64_trailing_ones(w);
    let t = u64_trailing_ones(w);
    assert(t < 64);
    let b = p * 64 + t;
    assert(b / 64 == p && b % 64 == t);
    let tt = t as u64;
    let w2 = w | (1u64 << tt);
    let d = bm.after_alloc(disk);
    let id = (bm.start() + p / 64) as usize;
    assert(disk[id].len() == 512);
    assert(d == disk.insert(id, crate::codec::with_u64(disk[id], 8 * (p % 64), w2)));
    lemma_with_u64_same(disk[id], 8 * (p % 64), w2);
    assert(bm.word_at(d, p) == w2);
    assert((w2 >> tt) & 1 == 1) by (bit_vector)
        requires
            w2 == w | (1u64 << tt),
            tt < 64,
    ;
    assert forall|c: int| 0 <= c < bm.len() * 4096 && c != b implies #[trigger] bm.is_set(d, c) == bm.is_set(
        disk,
        c,
    ) by {
        let q = c / 64;
        let s = (c % 64) as u64;
        if q == p {
            assert(s != tt);
            assert((w2 >> s) & 1 == (w >> s) & 1) by (bit_vector)
                requires
                    w2 == w | (1u64 << tt),
                    tt < 64,
                    s < 64,
                    s != tt,
            ;
        } else if q / 64 == p / 64 {
            lemma_with_u64_other(disk[id], 8 * (p % 64), w2, 8 * (q % 64));
        } else {
            assert((bm.start() + q / 64) as usize != id);
        }
    }
    assert forall|x: usize| (#[trigger] d[x]).len() == disk[x].len() by {}
}

/// What `n` allocations in a row give: `n` blocks of the data region, each
/// another block, whose bits were not set before and are set after. No bit
/// that was set is cleared, and no block but those of the bitmap changes.
pub proof fn lemma_alloc_n(bm: Bitmap, start: u32, disk: Disk, n: int)
    requires
        0 <= n,
        can_alloc_n(bm, start, disk, n),
        bitmap_blocks(bm, disk),
        bm.start() + bm.len() <= usize::MAX,
    ensures
        alloc_n(bm, start, disk, n).0.len() == n,
        bitmap_blocks(bm, alloc_n(bm, start, disk, n).1),
        forall|i: int|
            0 <= i < n ==> {
                let b = #[trigger] alloc_n(bm, start, disk, n).0[i];
                &&& start <= b
                &&& b - start < bm.len() * 4096
                &&& !bm.is_set(disk, b - start)
                &&& bm.is_set(alloc_n(bm, start, disk, n).1, b - start)
            },
        forall|i: int, j: int|
            0 <= i < j < n ==> #[trigger] alloc_n(bm, start, disk, n).0[i] != #[trigger] alloc_n(bm, start, disk, n).0[j],
        forall|c: int|
            0 <= c < bm.len() * 4096 && bm.is_set(disk, c) ==> #[trigger] bm.is_set(alloc_n(bm, start, disk, n).1, c),
        forall|id: usize|
            !(bm.start() <= id < bm.start() + bm.len()) ==> #[trigger] alloc_n(bm, start, disk, n).1[id] == disk[id],
        forall|id: usize| (#[trigger] alloc_n(bm, start, disk, n).1[id]).len() == disk[id].len(),
    decreases n,
{
    if n > 0 {
        lemma_alloc_n(bm, start, disk, n - 1);
        let (bs, d) = alloc_n(bm, start, disk, n - 1);
        let (bs2, d2) = alloc_n(bm, start, disk, n);
        lemma_alloc_step(bm, d);
        let bit = bm.next_bit(d);
        assert(bs2 == bs.push((bit + start) as u32));
        assert(d2 == bm.after_alloc(d));
        assert forall|i: int| 0 <= i < n implies {
            let b = #[trigger] bs2[i];
            &&& start <= b
            &&& b - start < bm.len() * 4096
            &&& !bm.is_set(disk, b - start)
            &&& bm.is_set(d2, b - start)
        } by {
            if i < n - 1 {
                assert(bs2[i] == bs[i]);
                assert(bm.is_set(d, bs[i] - start));
                assert(bs[i] - start != bit);
            } else {
                assert(bs2[i] - start == bit);
                if bm.is_set(disk, bit) {
                    assert(bm.is_set(d, bit));
                }
            }
        }
        assert forall|i: int, j: int| 0 <= i < j < n implies #[trigger] bs2[i] != #[trigger] bs2[j] by {
            if j < n - 1 {
                assert(bs[i] != bs[j]);
            } else {
                assert(bs2[i] == bs[i]);
                assert(bm.is_set(d, bs[i] - start));
            }
        }
        assert forall|c: int| 0 <= c < bm.len() * 4096 && bm.is_set(disk, c) implies #[trigger] bm.is_set(d2, c) by {
            assert(bm.is_set(d, c));
        }
        assert forall|id: usize| !(bm.start() <= id < bm.start() + bm.len()) implies #[trigger] d2[id] == disk[id] by {
            assert(d[id] == disk[id]);
        }
        assert forall|id: usize| (#[trigger] d2[id]).len() == disk[id].len() by {
            assert(d[id].len() == disk[id].len());
        }
        assert(bitmap_blocks(bm, d2)) by {
            assert forall|p: int| 0 <= p < bm.len() implies d2[#[trigger] ((bm.start() + p) as usize)].len() == 512 by {
                assert(d[((bm.start() + p) as usize)].len() == 512);
            }
        }
    }
}

/// Whether the first `n` blocks of the content of `w` and the index
/// blocks through which they are found on `disk` are blocks from number
/// `start` on.
pub open spec fn blocks_behind(w: InodeView, disk: Disk, start: u32, n: int) -> bool {
    &&& forall|i: int| 0 <= i < n ==> #[trigger] w.block_id(disk, i) >= start
    &&& n > 28 ==> w.indirect1 >= start
    &&& n > 156 ==> w.indirect2 >= start
    &&& forall|m: int| 0 <= m && 156 + 128 * m < n ==> #[trigger] le_u32(disk[w.indirect2 as usize], 4 * m) >= start
}

/// The blocks of a file that is wired are found at their places in the
/// list of new blocks, and so are its index blocks.
pub proof fn lemma_wired_blocks(w: InodeView, disk: Disk, base: Disk, nb: Seq<u32>, n: int)
    requires
        0 <= n <= 156 + 128 * 128,
        wired(w, disk, base, nb, n),
        nb.len() >= blocks_for(n),
        distinct(nb),
    ensures
        forall|i: int| 0 <= i < n ==> #[trigger] w.block_id(disk, i) == nb[data_pos(i)],
        forall|m: int|
            0 <= m && 156 + 128 * m < n ==> #[trigger] le_u32(disk[w.indirect2 as usize], 4 * m) == nb[leaf_pos(m)],
        blocks_apart(w, disk, 0, n, n),
{
    assert forall|i: int| 0 <= i < n implies #[trigger] w.block_id(disk, i) == nb[data_pos(i)] by {
        if i < 28 {
            assert(w.direct[i] == nb[i]);
        } else if i < 156 {
            assert(entry1(disk, nb, i) == nb[i + 1]);
        } else {
            let m = (i - 156) / 128;
            assert(0 <= m && 156 + 128 * m < n);
            assert(leaf_of(disk, nb, m) == nb[leaf_pos(m)]);
            assert(entry2(disk, nb, i) == nb[data_pos(i)]);
        }
    }
    assert forall|m: int| 0 <= m && 156 + 128 * m < n implies #[trigger] le_u32(disk[w.indirect2 as usize], 4 * m)
        == nb[leaf_pos(m)] by {
        assert(leaf_of(disk, nb, m) == nb[leaf_pos(m)]);
    }
    assert forall|i: int, j: int| 0 <= i < j < n implies #[trigger] w.block_id(disk, i) != #[trigger] w.block_id(
        disk,
        j,
    ) by {
        lemma_data_pos(i, n);
        lemma_data_pos(j, n);
        assert(data_pos(i) < data_pos(j));
        assert(nb[data_pos(i)] != nb[data_pos(j)]);
    }
    assert forall|i: int| 0 <= i < n implies no_index(w, disk, #[trigger] w.block_id(disk, i), n) && disk[w.block_id(
        disk,
        i,
    ) as usize].len() == 512 by {
        lemma_data_pos(i, n);
        let p = data_pos(i);
        if n > 28 {
            assert(p != 28);
            assert(nb[p] != nb[28]);
        }
        if n > 156 {
            assert(p != 157);
            assert(nb[p] != nb[157]);
        }
        assert forall|m: int| 0 <= m && 156 + 128 * m < n implies w.block_id(disk, i) != #[trigger] le_u32(
            disk[w.indirect2 as usize],
            4 * m,
        ) by {
            assert(le_u32(disk[w.indirect2 as usize], 4 * m) == nb[leaf_pos(m)]);
            assert(leaf_pos(m) < blocks_for(n));
            assert(p != leaf_pos(m));
            assert(nb[p] != nb[leaf_pos(m)]);
        }
    }
}

/// The places of the blocks of the content in the list of new blocks go
/// up with the blocks, lie within the list, and are no places of index blocks.
pub proof fn lemma_data_pos(i: int, n: int)
    requires
        0 <= i < n,
    ensures
        0 <= data_pos(i) < blocks_for(n),
        data_pos(i) != 28,
        data_pos(i) != 157,
        forall|m: int| 0 <= m ==> data_pos(i) != #[trigger] leaf_pos(m),
        forall|j: int| i < j ==> data_pos(i) < #[trigger] data_pos(j),
{
    assert forall|m: int| 0 <= m implies data_pos(i) != #[trigger] leaf_pos(m) by {
        if i >= 156 {
            let a = (i - 156) / 128;
            let b = (i - 156) % 128;
            assert(data_pos(i) == 159 + 129 * a + b);
            if m <= a {
                assert(leaf_pos(m) <= 158 + 129 * a);
            } else {
                assert(leaf_pos(m) >= 158 + 129 * (a + 1));
            }
        }
    }
    assert forall|j: int| i < j implies data_pos(i) < #[trigger] data_pos(j) by {
        if j >= 156 && i >= 156 {
            assert((i - 156) / 128 <= (j - 156) / 128);
        }
    }
}

/// What growing an empty file gives: an inode of the new size whose
/// blocks are blocks of the data region, each another block of 512 bytes
/// and none of them an index block of the file.
pub proof fn lemma_grown_new(bm: Bitmap, start: u32, v: InodeView, disk: Disk, len: int)
    requires
        v.wf(),
        v.size == 0,
        0 <= len,
        data_blocks_of(len) <= 156 + 128 * 128,
        can_alloc_n(bm, start, disk, total_blocks_of(len)),
        forall|id: usize| (#[trigger] disk[id]).len() == 512,
        bm.start() + bm.len() <= usize::MAX,
    ensures
        grown(bm, start, v, disk, len).inode.size == len,
        grown(bm, start, v, disk, len).inode.direct.len() == 28,
        grown(bm, start, v, disk, len).inode.is_dir == v.is_dir,
        blocks_apart(
            grown(bm, start, v, disk, len).inode,
            grown(bm, start, v, disk, len).disk,
            0,
            data_blocks_of(len),
            data_blocks_of(len),
        ),
        blocks_behind(
            grown(bm, start, v, disk, len).inode,
            grown(bm, start, v, disk, len).disk,
            start,
            data_blocks_of(len),
        ),
        forall|id: usize| (#[trigger] grown(bm, start, v, disk, len).disk[id]).len() == 512,
{
    let n = data_blocks_of(len);
    let k = total_blocks_of(len);
    assert(k == blocks_for(n));
    assert(total_blocks_of(0) == 0);
    assert(bitmap_blocks(bm, disk));
    lemma_alloc_n(bm, start, disk, k);
    let (bs, d1) = alloc_n(bm, start, disk, k);
    assert(distinct(bs));
    let st0 = GrowState { inode: v, disk: d1, used: 0 };
    lemma_wired(v, d1, bs, n);
    let st = grow(st0, 0, n, bs);
    let g = grown(bm, start, v, disk, len);
    assert(g.disk == st.disk);
    let w = g.inode;
    assert(w == (InodeView { size: len as u32, ..st.inode }));
    assert(wired(w, g.disk, d1, bs, n));
    lemma_wired_blocks(w, g.disk, d1, bs, n);
    assert forall|i: int| 0 <= i < n implies #[trigger] w.block_id(g.disk, i) >= start by {
        lemma_data_pos(i, n);
        assert(bs[data_pos(i)] >= start);
    }
    if n > 28 {
        assert(blocks_for(n) > 28);
        assert(bs[28] >= start);
    }
    if n > 156 {
        assert(blocks_for(n) > 157);
        assert(bs[157] >= start);
    }
    assert forall|m: int| 0 <= m && 156 + 128 * m < n implies #[trigger] le_u32(g.disk[w.indirect2 as usize], 4 * m)
        >= start by {
        assert(leaf_pos(m) < blocks_for(n));
        assert(bs[leaf_pos(m)] >= start);
    }
}

/// A new file that is written from its beginning holds what was written:
/// after `write_at(0, data)` on a file of size 0, the file has the size of
/// `data`, and `read_at(0, ..)` reads `data`. The blocks of the device have
/// 512 bytes, the data region lies behind the data bitmap, and the inode
/// of the file lies before the data region.
pub proof fn lemma_new_file_round_trip<D: BlockDevice>(fs: &EasyFileSystem<D>, file: Inode, data: Seq<u8>)
    requires
        forall|id: usize| (#[trigger] fs.disk()[id]).len() == 512,
        fs.data_bitmap.start() + fs.data_bitmap.len() <= fs.data_area_start_block,
        file.block_id < fs.data_area_start_block,
        file.block_offset + 128 <= 512,
        file.node(fs.disk()).wf(),
        file.node(fs.disk()).size == 0,
        data_blocks_of(data.len() as int) <= 156 + 128 * 128,
        can_alloc_n(fs.data_bitmap, fs.data_area_start_block, fs.disk(), total_blocks_of(data.len() as int)),
    ensures
        file.node(fs.after_write(file, 0, data)).size == data.len(),
        file.node(fs.after_write(file, 0, data)).bytes(fs.after_write(file, 0, data), 0, data.len() as int) == data,
{
    let disk = fs.disk();
    let start = fs.data_area_start_block;
    let v = file.node(disk);
    let len = data.len() as int;
    lemma_grown_new(fs.data_bitmap, start, v, disk, len);
    let g = grown(fs.data_bitmap, start, v, disk, len);
    let w = g.inode;
    let d1 = g.disk;
    assert(transfer_len(w.size as int, 0, len) == len);
    let d2 = write_chunks(w, d1, 0, len, data, 0);
    let d = fs.after_write(file, 0, data);
    assert(d == crate::easy_fs::vfs::with_inode(d2, file.block_id, file.block_offset as int, w));
    lemma_stored_file(w, d1, file, data, start);
}

/// What is read from a file after its bytes were written block by block
/// and its inode was stored, where the blocks of the file are each another
/// block of 512 bytes behind the block of the inode.
pub proof fn lemma_stored_file(w: InodeView, d1: Disk, file: Inode, data: Seq<u8>, start: u32)
    requires
        w.direct.len() == 28,
        w.size == data.len(),
        data_blocks_of(data.len() as int) <= 156 + 128 * 128,
        file.block_id < start,
        file.block_offset + 128 <= 512,
        blocks_apart(w, d1, 0, data_blocks_of(data.len() as int), data_blocks_of(data.len() as int)),
        blocks_behind(w, d1, start, data_blocks_of(data.len() as int)),
        forall|id: usize| (#[trigger] d1[id]).len() == 512,
    ensures
        ({
            let d2 = write_chunks(w, d1, 0, data.len() as int, data, 0);
            let d = crate::easy_fs::vfs::with_inode(d2, file.block_id, file.block_offset as int, w);
            &&& file.node(d) == w
            &&& w.bytes(d, 0, data.len() as int) == data
        }),
{
    let len = data.len() as int;
    let n = data_blocks_of(len);
    let d2 = write_chunks(w, d1, 0, len, data, 0);
    assert(same_index(w, d1, d1, n));
    assert((len + 511) / 512 == n);
    lemma_chunks_written(w, d1, d1, 0, len, data, 0, n);
    assert forall|i: int| 0 <= i < n implies file.block_id != #[trigger] w.block_id(d1, i) by {
        assert(w.block_id(d1, i) >= start);
    }
    assert(d2[file.block_id] == d1[file.block_id]);
    assert forall|k: int| 0 <= k < len implies d2[w.block_id(d1, k / 512) as usize][k % 512] == #[trigger] data[k] by {
        assert(d2[w.block_id(d1, k / 512) as usize][k % 512] == data[0 + k - 0]);
    }
    lemma_after_store(w, d1, d2, file, data, start);
}

/// Storing the inode of a file in a block that lies before the blocks of
/// the file leaves the content of the file as it is.
pub proof fn lemma_after_store(w: InodeView, d1: Disk, d2: Disk, file: Inode, data: Seq<u8>, start: u32)
    requires
        w.direct.len() == 28,
        file.block_id < start,
        file.block_offset + 128 <= 512,
        d2[file.block_id].len() == 512,
        blocks_behind(w, d1, start, data_blocks_of(data.len() as int)),
        same_index(w, d1, d2, data_blocks_of(data.len() as int)),
        forall|k: int| 0 <= k < data.len() ==> d2[w.block_id(d1, k / 512) as usize][k % 512] == #[trigger] data[k],
    ensures
        file.node(crate::easy_fs::vfs::with_inode(d2, file.block_id, file.block_offset as int, w)) == w,
        w.bytes(
            crate::easy_fs::vfs::with_inode(d2, file.block_id, file.block_offset as int, w),
            0,
            data.len() as int,
        ) == data,
{
    let len = data.len() as int;
    let n = data_blocks_of(len);
    let d = crate::easy_fs::vfs::with_inode(d2, file.block_id, file.block_offset as int, w);
    lemma_inode_stored(d2[file.block_id], file.block_offset as int, w);
    assert(file.node(d) == w);
    assert(same_index(w, d1, d, n)) by {
        assert forall|m: int| 0 <= m && 156 + 128 * m < n implies d[#[trigger] le_u32(d1[w.indirect2 as usize], 4 * m) as usize]
            == d1[le_u32(d1[w.indirect2 as usize], 4 * m) as usize] by {
            assert(le_u32(d1[w.indirect2 as usize], 4 * m) >= start);
        }
    }
    assert forall|k: int| 0 <= k < len implies w.byte(d, k) == data[k] by {
        let i = k / 512;
        assert(0 <= i < n);
        lemma_same_blocks(w, d1, d, i, n);
        assert(w.block_id(d1, i) >= start);
        assert(d[w.block_id(d1, i) as usize] == d2[w.block_id(d1, i) as usize]);
    }
    assert(w.bytes(d, 0, len) =~= data);
}

} // verus!
