use vstd::prelude::*;
use crate::codec::{le_u32, lemma_with_u32_other, lemma_with_u32_same, with_u32};
use crate::easy_fs::layout::{blocks_for, grow, grow_step, lemma_grow_used, GrowState, InodeView};
use crate::easy_fs::Disk;

verus! {

/// The place in the list of new blocks of block `i` of the content of a
/// file that grows from nothing: each index block stands before the first
/// block that is found through it.
pub open spec fn data_pos(i: int) -> int {
    if i < 28 {
        i
    } else if i < 156 {
        i + 1
    } else {
        i + 3 + (i - 156) / 128
    }
}

/// The place in the list of new blocks of index block `a` below the second index block.
pub open spec fn leaf_pos(a: int) -> int {
    158 + 129 * a
}

/// The number that the first index block holds for block `i` of the content.
pub open spec fn entry1(disk: Disk, nb: Seq<u32>, i: int) -> u32 {
    le_u32(disk[nb[28] as usize], 4 * (i - 28))
}

/// The number that the second index block holds for the index block `a` below it.
pub open spec fn leaf_of(disk: Disk, nb: Seq<u32>, a: int) -> u32 {
    le_u32(disk[nb[157] as usize], 4 * a)
}

/// The number that the index block below the second index block holds
/// for block `i` of the content.
pub open spec fn entry2(disk: Disk, nb: Seq<u32>, i: int) -> u32 {
    le_u32(disk[nb[leaf_pos((i - 156) / 128)] as usize], 4 * ((i - 156) % 128))
}

/// Whether block `id` is none of the first `k` new blocks.
pub open spec fn fresh(nb: Seq<u32>, k: int, id: usize) -> bool {
    forall|j: int| 0 <= j < k ==> id != #[trigger] nb[j]
}

/// Whether the first `t` blocks of the content are wired into the inode
/// and the index blocks on `disk` as a file that grows from nothing
/// wires them: each block at its place in the list `nb`, and every block
/// that is none of the new blocks as on the disk `base`.
pub open spec fn wired(inode: InodeView, disk: Disk, base: Disk, nb: Seq<u32>, t: int) -> bool {
    &&& inode.direct.len() == 28
    &&& forall|i: int| 0 <= i < t && i < 28 ==> #[trigger] inode.direct[i] == nb[i]
    &&& t > 28 ==> inode.indirect1 == nb[28]
    &&& t > 156 ==> inode.indirect2 == nb[157]
    &&& forall|i: int| 28 <= i < t && i < 156 ==> #[trigger] entry1(disk, nb, i) == nb[i + 1]
    &&& forall|a: int| 0 <= a && 156 + 128 * a < t ==> #[trigger] leaf_of(disk, nb, a) == nb[leaf_pos(a)]
    &&& forall|i: int| 156 <= i < t ==> #[trigger] entry2(disk, nb, i) == nb[data_pos(i)]
    &&& forall|id: usize| fresh(nb, blocks_for(t), id) ==> #[trigger] disk[id] == base[id]
    &&& forall|id: usize| (#[trigger] disk[id]).len() == 512
}

/// Whether the numbers of `nb` are each another number.
pub open spec fn distinct(nb: Seq<u32>) -> bool {
    forall|i: int, j: int| 0 <= i < j < nb.len() ==> #[trigger] nb[i] != #[trigger] nb[j]
}

/// Adding one of the first 28 blocks keeps the file wired.
pub proof fn lemma_wire_direct(st: GrowState, base: Disk, nb: Seq<u32>, t: int)
    requires
        0 <= t < 28,
        wired(st.inode, st.disk, base, nb, t),
        st.used == blocks_for(t),
    ensures
        wired(grow_step(st, t, nb).inode, grow_step(st, t, nb).disk, base, nb, t + 1),
{
    let s = grow_step(st, t, nb);
    assert forall|id: usize| fresh(nb, blocks_for(t + 1), id) implies #[trigger] s.disk[id] == base[id] by {
        assert(fresh(nb, blocks_for(t), id));
    }
}

/// Adding one of the blocks found through the first index block keeps the file wired.
pub proof fn lemma_wire_single(st: GrowState, base: Disk, nb: Seq<u32>, t: int)
    requires
        28 <= t < 156,
        wired(st.inode, st.disk, base, nb, t),
        st.used == blocks_for(t),
        nb.len() >= blocks_for(t + 1),
        distinct(nb),
    ensures
        wired(grow_step(st, t, nb).inode, grow_step(st, t, nb).disk, base, nb, t + 1),
{
    let s = grow_step(st, t, nb);
    let ind1 = nb[28];
    assert(st.used == if t == 28 {
        28int
    } else {
        t + 1
    });
    assert(s.inode.indirect1 == ind1);
    let block = st.disk[ind1 as usize];
    assert(block.len() == 512);
    assert(s.disk == st.disk.insert(ind1 as usize, with_u32(block, 4 * (t - 28), nb[t + 1])));
    lemma_with_u32_same(block, 4 * (t - 28), nb[t + 1]);
    assert forall|i: int| 28 <= i < t + 1 && i < 156 implies #[trigger] entry1(s.disk, nb, i) == nb[i + 1] by {
        if i < t {
            assert(entry1(st.disk, nb, i) == nb[i + 1]);
            lemma_with_u32_other(block, 4 * (t - 28), nb[t + 1], 4 * (i - 28));
        }
    }
    assert forall|id: usize| fresh(nb, blocks_for(t + 1), id) implies #[trigger] s.disk[id] == base[id] by {
        assert(fresh(nb, blocks_for(t), id));
        assert(id != nb[28]);
    }
    assert forall|id: usize| (#[trigger] s.disk[id]).len() == 512 by {
        assert(st.disk[id].len() == 512);
    }
}


/// Adding one of the blocks found through the second index block keeps the file wired.
pub proof fn lemma_wire_double(st: GrowState, base: Disk, nb: Seq<u32>, t: int)
    requires
        156 <= t < 156 + 128 * 128,
        wired(st.inode, st.disk, base, nb, t),
        st.used == blocks_for(t),
        nb.len() >= blocks_for(t + 1),
        distinct(nb),
    ensures
        wired(grow_step(st, t, nb).inode, grow_step(st, t, nb).disk, base, nb, t + 1),
{
    let s = grow_step(st, t, nb);
    let a = (t - 156) / 128;
    let b = (t - 156) % 128;
    let ind2 = nb[157];
    let lp = leaf_pos(a);
    let dp = data_pos(t);
    assert(0 <= a < 128 && 0 <= b < 128);
    assert(blocks_for(t + 1) == t + 4 + a);
    assert(dp == t + 3 + a);
    assert(lp <= dp - 1 && 157 < lp);
    assert(s.inode.indirect2 == ind2);
    let k1 = if t == 156 {
        st.used + 1
    } else {
        st.used
    };
    if b == 0 {
        assert(k1 == lp);
    } else {
        assert(k1 == dp);
        assert(156 + 128 * a < t);
    }
    let disk1 = if b == 0 {
        st.disk.insert(ind2 as usize, with_u32(st.disk[ind2 as usize], 4 * a, nb[lp]))
    } else {
        st.disk
    };
    assert(st.disk[ind2 as usize].len() == 512);
    if b == 0 {
        lemma_with_u32_same(st.disk[ind2 as usize], 4 * a, nb[lp]);
    } else {
        assert(leaf_of(st.disk, nb, a) == nb[leaf_pos(a)]);
    }
    let leaf = le_u32(disk1[ind2 as usize], 4 * a);
    assert(leaf == nb[lp]);
    assert(nb[lp] != nb[157]);
    assert(nb[lp] != nb[28]);
    assert(nb[157] != nb[28]);
    let lblock = disk1[leaf as usize];
    assert(lblock == st.disk[leaf as usize]);
    assert(lblock.len() == 512);
    assert(s.disk == disk1.insert(leaf as usize, with_u32(lblock, 4 * b, nb[dp])));
    lemma_with_u32_same(lblock, 4 * b, nb[dp]);
    assert forall|i: int| 28 <= i < t + 1 && i < 156 implies #[trigger] entry1(s.disk, nb, i) == nb[i + 1] by {
        assert(entry1(st.disk, nb, i) == nb[i + 1]);
        assert(s.disk[nb[28] as usize] == st.disk[nb[28] as usize]);
    }
    assert forall|x: int| 0 <= x && 156 + 128 * x < t + 1 implies #[trigger] leaf_of(s.disk, nb, x) == nb[leaf_pos(x)] by {
        assert(s.disk[ind2 as usize] == disk1[ind2 as usize]);
        if x != a {
            assert(156 + 128 * x < t);
            assert(leaf_of(st.disk, nb, x) == nb[leaf_pos(x)]);
            if b == 0 {
                lemma_with_u32_other(st.disk[ind2 as usize], 4 * a, nb[lp], 4 * x);
            }
        }
    }
    assert forall|i: int| 156 <= i < t + 1 implies #[trigger] entry2(s.disk, nb, i) == nb[data_pos(i)] by {
        let x = (i - 156) / 128;
        let y = (i - 156) % 128;
        if i < t {
            assert(entry2(st.disk, nb, i) == nb[data_pos(i)]);
            if x == a {
                assert(y != b);
                assert(b != 0);
                lemma_with_u32_other(lblock, 4 * b, nb[dp], 4 * y);
            } else {
                assert(0 <= x < 128);
                assert(leaf_pos(x) != lp && leaf_pos(x) != 157 && leaf_pos(x) < nb.len());
                assert(nb[leaf_pos(x)] != nb[lp]);
                assert(nb[leaf_pos(x)] != nb[157]);
                assert(s.disk[nb[leaf_pos(x)] as usize] == st.disk[nb[leaf_pos(x)] as usize]);
            }
        }
    }
    assert forall|id: usize| fresh(nb, blocks_for(t + 1), id) implies #[trigger] s.disk[id] == base[id] by {
        assert(fresh(nb, blocks_for(t), id));
        assert(id != nb[157]);
        assert(id != nb[lp]);
    }
    assert forall|id: usize| (#[trigger] s.disk[id]).len() == 512 by {
        assert(st.disk[id].len() == 512);
        if b == 0 {
            assert(disk1[id].len() == 512);
        }
    }
}

/// A file that grows from nothing to `t` blocks is wired: each of its
/// blocks and index blocks is the block at its place in the list `nb`
/// of new blocks.
pub proof fn lemma_wired(v: InodeView, base: Disk, nb: Seq<u32>, t: int)
    requires
        0 <= t <= 156 + 128 * 128,
        v.direct.len() == 28,
        nb.len() >= blocks_for(t),
        distinct(nb),
        forall|id: usize| (#[trigger] base[id]).len() == 512,
    ensures
        wired(
            grow(GrowState { inode: v, disk: base, used: 0 }, 0, t, nb).inode,
            grow(GrowState { inode: v, disk: base, used: 0 }, 0, t, nb).disk,
            base,
            nb,
            t,
        ),
        grow(GrowState { inode: v, disk: base, used: 0 }, 0, t, nb).used == blocks_for(t),
        grow(GrowState { inode: v, disk: base, used: 0 }, 0, t, nb).inode.size == v.size,
        grow(GrowState { inode: v, disk: base, used: 0 }, 0, t, nb).inode.is_dir == v.is_dir,
    decreases t,
{
    let st0 = GrowState { inode: v, disk: base, used: 0 };
    lemma_grow_used(st0, 0, t, nb);
    if t > 0 {
        lemma_wired(v, base, nb, t - 1);
        lemma_grow_used(st0, 0, t - 1, nb);
        let st = grow(st0, 0, t - 1, nb);
        assert(grow(st0, 0, t, nb) == grow_step(st, t - 1, nb));
        if t - 1 < 28 {
            lemma_wire_direct(st, base, nb, t - 1);
        } else if t - 1 < 156 {
            lemma_wire_single(st, base, nb, t - 1);
        } else {
            lemma_wire_double(st, base, nb, t - 1);
        }
    }
}

} // verus!
