use vstd::prelude::*;

verus! {

/// The little-endian `u32` stored in the four bytes of `b` that start at `off`.
pub open spec fn le_u32(b: Seq<u8>, off: int) -> u32 {
    (b[off] as u32) | ((b[off + 1] as u32) << 8) | ((b[off + 2] as u32) << 16) | ((b[off + 3] as u32)
        << 24)
}

/// The little-endian `u64` stored in the eight bytes of `b` that start at `off`.
pub open spec fn le_u64(b: Seq<u8>, off: int) -> u64 {
    (b[off] as u64) | ((b[off + 1] as u64) << 8) | ((b[off + 2] as u64) << 16) | ((b[off + 3] as u64)
        << 24) | ((b[off + 4] as u64) << 32) | ((b[off + 5] as u64) << 40) | ((b[off + 6] as u64)
        << 48) | ((b[off + 7] as u64) << 56)
}

/// The four bytes of `v`, least significant first.
pub open spec fn u32_bytes(v: u32) -> Seq<u8> {
    seq![
        (v & 0xff) as u8,
        ((v >> 8) & 0xff) as u8,
        ((v >> 16) & 0xff) as u8,
        ((v >> 24) & 0xff) as u8,
    ]
}

/// The eight bytes of `v`, least significant first.
pub open spec fn u64_bytes(v: u64) -> Seq<u8> {
    seq![
        (v & 0xff) as u8,
        ((v >> 8) & 0xff) as u8,
        ((v >> 16) & 0xff) as u8,
        ((v >> 24) & 0xff) as u8,
        ((v >> 32) & 0xff) as u8,
        ((v >> 40) & 0xff) as u8,
        ((v >> 48) & 0xff) as u8,
        ((v >> 56) & 0xff) as u8,
    ]
}

/// `b` with the bytes from `off` on replaced by `src`.
pub open spec fn splice(b: Seq<u8>, off: int, src: Seq<u8>) -> Seq<u8> {
    Seq::new(b.len(), |i: int| if off <= i < off + src.len() { src[i - off] } else { b[i] })
}

/// `b` with `v` stored little-endian at `off`.
pub open spec fn with_u32(b: Seq<u8>, off: int, v: u32) -> Seq<u8> {
    splice(b, off, u32_bytes(v))
}

/// `b` with `v` stored little-endian at `off`.
pub open spec fn with_u64(b: Seq<u8>, off: int, v: u64) -> Seq<u8> {
    splice(b, off, u64_bytes(v))
}

proof fn lemma_u32_compose(v: u32)
    ensures
        v == (((v & 0xff) as u8) as u32) | ((((v >> 8) & 0xff) as u8) as u32) << 8 | ((((v >> 16)
            & 0xff) as u8) as u32) << 16 | ((((v >> 24) & 0xff) as u8) as u32) << 24,
{
    assert(v == (((v & 0xff) as u8) as u32) | ((((v >> 8) & 0xff) as u8) as u32) << 8 | ((((v >> 16)
        & 0xff) as u8) as u32) << 16 | ((((v >> 24) & 0xff) as u8) as u32) << 24) by (bit_vector);
}

proof fn lemma_u64_compose(v: u64)
    ensures
        v == (((v & 0xff) as u8) as u64) | ((((v >> 8) & 0xff) as u8) as u64) << 8 | ((((v >> 16)
            & 0xff) as u8) as u64) << 16 | ((((v >> 24) & 0xff) as u8) as u64) << 24 | ((((v >> 32)
            & 0xff) as u8) as u64) << 32 | ((((v >> 40) & 0xff) as u8) as u64) << 40 | ((((v >> 48)
            & 0xff) as u8) as u64) << 48 | ((((v >> 56) & 0xff) as u8) as u64) << 56,
{
    assert(v == (((v & 0xff) as u8) as u64) | ((((v >> 8) & 0xff) as u8) as u64) << 8 | ((((v >> 16)
        & 0xff) as u8) as u64) << 16 | ((((v >> 24) & 0xff) as u8) as u64) << 24 | ((((v >> 32)
        & 0xff) as u8) as u64) << 32 | ((((v >> 40) & 0xff) as u8) as u64) << 40 | ((((v >> 48)
        & 0xff) as u8) as u64) << 48 | ((((v >> 56) & 0xff) as u8) as u64) << 56) by (bit_vector);
}

/// Four bytes that are the bytes of `v` are read back as `v`.
pub proof fn lemma_le_u32_of_bytes(b: Seq<u8>, off: int, v: u32)
    requires
        0 <= off,
        off + 4 <= b.len(),
        forall|i: int| 0 <= i < 4 ==> b[off + i] == #[trigger] u32_bytes(v)[i],
    ensures
        le_u32(b, off) == v,
{
    lemma_u32_compose(v);
    assert(b[off + 0] == u32_bytes(v)[0]);
    assert(b[off + 1] == u32_bytes(v)[1]);
    assert(b[off + 2] == u32_bytes(v)[2]);
    assert(b[off + 3] == u32_bytes(v)[3]);
}

/// Eight bytes that are the bytes of `v` are read back as `v`.
pub proof fn lemma_le_u64_of_bytes(b: Seq<u8>, off: int, v: u64)
    requires
        0 <= off,
        off + 8 <= b.len(),
        forall|i: int| 0 <= i < 8 ==> b[off + i] == #[trigger] u64_bytes(v)[i],
    ensures
        le_u64(b, off) == v,
{
    lemma_u64_compose(v);
    assert(b[off + 0] == u64_bytes(v)[0]);
    assert(b[off + 1] == u64_bytes(v)[1]);
    assert(b[off + 2] == u64_bytes(v)[2]);
    assert(b[off + 3] == u64_bytes(v)[3]);
    assert(b[off + 4] == u64_bytes(v)[4]);
    assert(b[off + 5] == u64_bytes(v)[5]);
    assert(b[off + 6] == u64_bytes(v)[6]);
    assert(b[off + 7] == u64_bytes(v)[7]);
}

/// A value stored at `off` is the value read back from `off`.
pub proof fn lemma_with_u32_same(b: Seq<u8>, off: int, v: u32)
    requires
        0 <= off,
        off + 4 <= b.len(),
    ensures
        le_u32(with_u32(b, off, v), off) == v,
        with_u32(b, off, v).len() == b.len(),
{
    lemma_u32_compose(v);
}

/// A value stored at `off` leaves a value that does not overlap it unchanged.
pub proof fn lemma_with_u32_other(b: Seq<u8>, off: int, v: u32, at: int)
    requires
        0 <= off,
        off + 4 <= b.len(),
        0 <= at,
        at + 4 <= b.len(),
        at + 4 <= off || off + 4 <= at,
    ensures
        le_u32(with_u32(b, off, v), at) == le_u32(b, at),
{
}

/// A value stored at `off` is the value read back from `off`.
pub proof fn lemma_with_u64_same(b: Seq<u8>, off: int, v: u64)
    requires
        0 <= off,
        off + 8 <= b.len(),
    ensures
        le_u64(with_u64(b, off, v), off) == v,
        with_u64(b, off, v).len() == b.len(),
{
    lemma_u64_compose(v);
}

/// A value stored at `off` leaves a value that does not overlap it unchanged.
pub proof fn lemma_with_u64_other(b: Seq<u8>, off: int, v: u64, at: int)
    requires
        0 <= off,
        off + 8 <= b.len(),
        0 <= at,
        at + 8 <= b.len(),
        at + 8 <= off || off + 8 <= at,
    ensures
        le_u64(with_u64(b, off, v), at) == le_u64(b, at),
{
}

/// Reads the little-endian `u32` at `off`.
pub fn read_u32(b: &[u8], off: usize) -> (v: u32)
    requires
        off + 4 <= b@.len(),
    ensures
        v == le_u32(b@, off as int),
{
    (b[off] as u32) | ((b[off + 1] as u32) << 8) | ((b[off + 2] as u32) << 16) | ((b[off + 3] as u32)
        << 24)
}

/// Reads the little-endian `u64` at `off`.
pub fn read_u64(b: &[u8], off: usize) -> (v: u64)
    requires
        off + 8 <= b@.len(),
    ensures
        v == le_u64(b@, off as int),
{
    (b[off] as u64) | ((b[off + 1] as u64) << 8) | ((b[off + 2] as u64) << 16) | ((b[off + 3] as u64)
        << 24) | ((b[off + 4] as u64) << 32) | ((b[off + 5] as u64) << 40) | ((b[off + 6] as u64)
        << 48) | ((b[off + 7] as u64) << 56)
}

/// Stores `v` little-endian at `off`.
pub fn write_u32(b: &mut [u8], off: usize, v: u32)
    requires
        off + 4 <= old(b)@.len(),
    ensures
        final(b)@ == with_u32(old(b)@, off as int, v),
{
    b[off] = (v & 0xff) as u8;
    b[off + 1] = ((v >> 8) & 0xff) as u8;
    b[off + 2] = ((v >> 16) & 0xff) as u8;
    b[off + 3] = ((v >> 24) & 0xff) as u8;
}

/// Stores `v` little-endian at `off`.
pub fn write_u64(b: &mut [u8], off: usize, v: u64)
    requires
        off + 8 <= old(b)@.len(),
    ensures
        final(b)@ == with_u64(old(b)@, off as int, v),
{
    b[off] = (v & 0xff) as u8;
    b[off + 1] = ((v >> 8) & 0xff) as u8;
    b[off + 2] = ((v >> 16) & 0xff) as u8;
    b[off + 3] = ((v >> 24) & 0xff) as u8;
    b[off + 4] = ((v >> 32) & 0xff) as u8;
    b[off + 5] = ((v >> 40) & 0xff) as u8;
    b[off + 6] = ((v >> 48) & 0xff) as u8;
    b[off + 7] = ((v >> 56) & 0xff) as u8;
}

/// Copies `src` into `b` from `off` on.
pub fn write_bytes(b: &mut [u8], off: usize, src: &[u8])
    requires
        off + src@.len() <= old(b)@.len(),
    ensures
        final(b)@ == splice(old(b)@, off as int, src@),
{
    let n = src.len();
    let total = b.len();
    let mut i: usize = 0;
    while i < n
        invariant
            n == src@.len(),
            i <= n,
            off + n <= total == b@.len(),
            b@.len() == old(b)@.len(),
            b@ == splice(old(b)@, off as int, src@.subrange(0, i as int)),
        decreases n - i,
    {
        b[off + i] = src[i];
        i += 1;
    }
    assert(src@.subrange(0, n as int) == src@);
}


/// The bytes of the numbers `ws`, each little-endian in eight bytes, one after the other.
pub open spec fn words64_bytes(ws: Seq<u64>) -> Seq<u8> {
    Seq::new(8 * ws.len(), |i: int| u64_bytes(ws[i / 8])[i % 8])
}

/// The `n` numbers stored in `b` from `off` on, eight bytes each.
pub open spec fn words64_at(b: Seq<u8>, off: int, n: int) -> Seq<u64> {
    Seq::new(n as nat, |k: int| le_u64(b, off + 8 * k))
}

/// Numbers stored one after the other are read back as they were stored.
pub proof fn lemma_words64_stored(b: Seq<u8>, off: int, ws: Seq<u64>)
    requires
        0 <= off,
        off + 8 * ws.len() <= b.len(),
    ensures
        words64_at(splice(b, off, words64_bytes(ws)), off, ws.len() as int) == ws,
        splice(b, off, words64_bytes(ws)).len() == b.len(),
{
    let s = splice(b, off, words64_bytes(ws));
    assert forall|k: int| 0 <= k < ws.len() implies le_u64(s, off + 8 * k) == ws[k] by {
        assert forall|i: int| 0 <= i < 8 implies s[off + 8 * k + i] == #[trigger] u64_bytes(ws[k])[i] by {
            assert((8 * k + i) / 8 == k);
            assert((8 * k + i) % 8 == i);
        }
        lemma_le_u64_of_bytes(s, off + 8 * k, ws[k]);
    }
    assert(words64_at(s, off, ws.len() as int) =~= ws);
}

/// The bytes of the numbers of `ws`, for storing them.
pub fn words64_to_bytes(ws: &[u64]) -> (r: Vec<u8>)
    requires
        8 * ws@.len() <= usize::MAX,
    ensures
        r@ == words64_bytes(ws@),
{
    let mut r: Vec<u8> = Vec::new();
    let n = ws.len();
    let mut k: usize = 0;
    while k < n
        invariant
            k <= n == ws@.len(),
            8 * n <= usize::MAX,
            r@.len() == 8 * k,
            forall|i: int| 0 <= i < 8 * k ==> r@[i] == #[trigger] words64_bytes(ws@)[i],
        decreases n - k,
    {
        let v = ws[k];
        let ghost before = r@;
        r.push((v & 0xff) as u8);
        r.push(((v >> 8) & 0xff) as u8);
        r.push(((v >> 16) & 0xff) as u8);
        r.push(((v >> 24) & 0xff) as u8);
        r.push(((v >> 32) & 0xff) as u8);
        r.push(((v >> 40) & 0xff) as u8);
        r.push(((v >> 48) & 0xff) as u8);
        r.push(((v >> 56) & 0xff) as u8);
        proof {
            assert forall|i: int| 0 <= i < 8 * k + 8 implies r@[i] == #[trigger] words64_bytes(ws@)[i] by {
                if i < 8 * k {
                    assert(r@[i] == before[i]);
                } else {
                    assert(i / 8 == k);
                    assert(i % 8 == i - 8 * k);
                }
            }
        }
        k += 1;
    }
    assert(r@ =~= words64_bytes(ws@));
    r
}

} // verus!
