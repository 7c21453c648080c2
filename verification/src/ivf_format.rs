//! The binary layout of an IVF index file.
//!
//! ```text
//! header (16 bytes): magic(u32), n(u32), k(u32), dim(u32), little-endian
//! centroids:    k * dim * 4 bytes (f32 bit patterns, row-major)
//! list_offsets: k * 4 bytes (u32, first record of each cluster)
//! list_counts:  k * 4 bytes (u32, records per cluster)
//! vector_data:  n * dim bytes (u8, quantized, grouped by cluster)
//! labels:       n bytes (u8, same order as vector_data)
//! ```

use vstd::prelude::*;

verus! {

/// "IVF\x01" read as a little-endian u32.
pub const MAGIC: u32 = 0x49564601;

/// Size of the fixed header.
pub const HEADER_BYTES: usize = 16;

/// The little-endian u32 stored at `off` in `b`.
pub open spec fn le_u32_at(b: Seq<u8>, off: int) -> u32 {
    (b[off] as int + b[off + 1] as int * 256 + b[off + 2] as int * 65536 + b[off + 3] as int
        * 16777216) as u32
}

/// The four little-endian bytes of `x`.
pub open spec fn u32_le(x: u32) -> Seq<u8> {
    seq![
        (x & 0xff) as u8,
        ((x >> 8u32) & 0xff) as u8,
        ((x >> 16u32) & 0xff) as u8,
        ((x >> 24u32) & 0xff) as u8,
    ]
}

/// The little-endian bytes of every word of `ws`, in order.
pub open spec fn words_le(ws: Seq<u32>) -> Seq<u8>
    decreases ws.len(),
{
    if ws.len() == 0 {
        Seq::empty()
    } else {
        words_le(ws.drop_last()) + u32_le(ws.last())
    }
}

/// Total size of a file holding `n` records of `dim` bytes in `k` clusters.
pub open spec fn index_len(n: int, k: int, dim: int) -> int {
    16 + k * dim * 4 + k * 4 + k * 4 + n * dim + n
}

/// Where each section starts, computed once when the file is opened.
#[derive(Clone, Copy, Debug, PartialEq, Eq, Structural)]
pub struct Layout {
    pub n: usize,
    pub k: usize,
    pub dim: usize,
    pub centroids_off: usize,
    pub list_offsets_off: usize,
    pub list_counts_off: usize,
    pub vector_data_off: usize,
    pub labels_off: usize,
}

/// The layout of a file whose header holds `n`, `k` and `dim`.
pub open spec fn layout_of(n: int, k: int, dim: int) -> Layout {
    Layout {
        n: n as usize,
        k: k as usize,
        dim: dim as usize,
        centroids_off: 16,
        list_offsets_off: (16 + k * dim * 4) as usize,
        list_counts_off: (16 + k * dim * 4 + k * 4) as usize,
        vector_data_off: (16 + k * dim * 4 + k * 4 + k * 4) as usize,
        labels_off: (16 + k * dim * 4 + k * 4 + k * 4 + n * dim) as usize,
    }
}

/// Why a buffer is not a valid index.
#[derive(Clone, Copy, Debug, PartialEq, Eq, Structural)]
pub enum OpenError {
    /// Fewer bytes than the header needs.
    TooShort { len: usize },
    /// The first word is not `MAGIC`.
    BadMagic { found: u32 },
    /// The size does not match what the header announces.
    SizeMismatch { actual: usize, expected: u128 },
}

/// The outcome of opening a buffer holding `b`.
pub open spec fn open_result(b: Seq<u8>) -> Result<Layout, OpenError> {
    if b.len() < 16 {
        Err(OpenError::TooShort { len: b.len() as usize })
    } else if le_u32_at(b, 0) != MAGIC {
        Err(OpenError::BadMagic { found: le_u32_at(b, 0) })
    } else {
        let n = le_u32_at(b, 4) as int;
        let k = le_u32_at(b, 8) as int;
        let dim = le_u32_at(b, 12) as int;
        if b.len() != index_len(n, k, dim) {
            Err(OpenError::SizeMismatch {
                actual: b.len() as usize,
                expected: index_len(n, k, dim) as u128,
            })
        } else {
            Ok(layout_of(n, k, dim))
        }
    }
}

/// Row `p` of `dim` bytes lies inside `n` rows when `p < n`.
pub proof fn lemma_row_in_bounds(p: int, n: int, dim: int)
    requires
        0 <= p < n,
        0 <= dim,
    ensures
        p * dim + dim <= n * dim,
        0 <= p * dim,
{
    assert(p * dim + dim <= n * dim) by (nonlinear_arith)
        requires
            0 <= p < n,
            0 <= dim,
    ;
    assert(0 <= p * dim) by (nonlinear_arith)
        requires
            0 <= p,
            0 <= dim,
    ;
}

/// Bytes of two different rows never coincide.
pub proof fn lemma_rows_disjoint(p: int, q: int, dim: int, j: int, l: int)
    requires
        0 <= p,
        0 <= q,
        p != q,
        0 <= j < dim,
        0 <= l < dim,
    ensures
        p * dim + j != q * dim + l,
        !(q * dim <= p * dim + j < q * dim + dim),
{
    if p < q {
        assert(p * dim + dim <= q * dim) by (nonlinear_arith)
            requires
                p < q,
                0 <= dim,
        ;
    } else {
        assert(q * dim + dim <= p * dim) by (nonlinear_arith)
            requires
                q < p,
                0 <= dim,
        ;
    }
}

/// Reads the little-endian u32 at `off`.
pub fn read_u32(buf: &[u8], off: usize) -> (r: u32)
    requires
        off + 4 <= buf@.len(),
    ensures
        r == le_u32_at(buf@, off as int),
{
    buf[off] as u32 + buf[off + 1] as u32 * 256 + buf[off + 2] as u32 * 65536 + buf[off + 3] as u32
        * 16777216
}

proof fn lemma_index_len_bounds(n: int, k: int, dim: int)
    requires
        0 <= n < 0x1_0000_0000,
        0 <= k < 0x1_0000_0000,
        0 <= dim < 0x1_0000_0000,
    ensures
        0 <= k * dim < 0x1_0000_0000_0000_0000,
        0 <= n * dim < 0x1_0000_0000_0000_0000,
        index_len(n, k, dim) < 0x1_0000_0000_0000_0000_0000,
{
    assert(0 <= k * dim < 0x1_0000_0000_0000_0000) by (nonlinear_arith)
        requires
            0 <= k < 0x1_0000_0000,
            0 <= dim < 0x1_0000_0000,
    ;
    assert(0 <= n * dim < 0x1_0000_0000_0000_0000) by (nonlinear_arith)
        requires
            0 <= n < 0x1_0000_0000,
            0 <= dim < 0x1_0000_0000,
    ;
}

/// Reads the header of `bytes` and checks that the size matches it.
pub fn parse_layout(bytes: &[u8]) -> (r: Result<Layout, OpenError>)
    ensures
        r == open_result(bytes@),
{
    let len = bytes.len();
    if len < HEADER_BYTES {
        return Err(OpenError::TooShort { len });
    }
    let magic = read_u32(bytes, 0);
    if magic != MAGIC {
        return Err(OpenError::BadMagic { found: magic });
    }
    let n32 = read_u32(bytes, 4);
    let k32 = read_u32(bytes, 8);
    let dim32 = read_u32(bytes, 12);
    proof {
        lemma_index_len_bounds(n32 as int, k32 as int, dim32 as int);
    }
    let kd = k32 as u128 * dim32 as u128;
    let nd = n32 as u128 * dim32 as u128;
    let expected: u128 = 16 + kd * 4 + k32 as u128 * 4 + k32 as u128 * 4 + nd + n32 as u128;
    if expected != len as u128 {
        return Err(OpenError::SizeMismatch { actual: len, expected });
    }
    let centroids_off: usize = HEADER_BYTES;
    let list_offsets_off = (16 + kd * 4) as usize;
    let list_counts_off = (16 + kd * 4 + k32 as u128 * 4) as usize;
    let vector_data_off = (16 + kd * 4 + k32 as u128 * 8) as usize;
    let labels_off = (16 + kd * 4 + k32 as u128 * 8 + nd) as usize;
    Ok(
        Layout {
            n: n32 as usize,
            k: k32 as usize,
            dim: dim32 as usize,
            centroids_off,
            list_offsets_off,
            list_counts_off,
            vector_data_off,
            labels_off,
        },
    )
}

/// The bytes of an index file with the given header and sections.
pub open spec fn index_bytes(
    n: u32,
    k: u32,
    dim: u32,
    centroid_words: Seq<u32>,
    list_offsets: Seq<u32>,
    list_counts: Seq<u32>,
    vector_data: Seq<u8>,
    labels: Seq<u8>,
) -> Seq<u8> {
    u32_le(MAGIC) + u32_le(n) + u32_le(k) + u32_le(dim) + words_le(centroid_words) + words_le(
        list_offsets,
    ) + words_le(list_counts) + vector_data + labels
}

/// The four bytes of `u32_le(x)` read back give `x`.
pub proof fn lemma_u32_le_reads_back(x: u32)
    ensures
        u32_le(x).len() == 4,
        le_u32_at(u32_le(x), 0) == x,
{
    let b = u32_le(x);
    assert(((x & 0xff) as u8) as u32 + (((x >> 8u32) & 0xff) as u8) as u32 * 256 + (((x >> 16u32)
        & 0xff) as u8) as u32 * 65536 + (((x >> 24u32) & 0xff) as u8) as u32 * 16777216 == x)
        by (bit_vector);
    assert(b[0] as int + b[1] as int * 256 + b[2] as int * 65536 + b[3] as int * 16777216 == x);
}

/// Word `i` of `ws` occupies bytes `4 * i .. 4 * i + 4` of `words_le(ws)`.
pub proof fn lemma_words_le_layout(ws: Seq<u32>)
    ensures
        words_le(ws).len() == 4 * ws.len(),
        forall|i: int, j: int|
            0 <= i < ws.len() && 0 <= j < 4 ==> #[trigger] words_le(ws)[4 * i + j] == u32_le(
                ws[i],
            )[j],
    decreases ws.len(),
{
    if ws.len() > 0 {
        let init = ws.drop_last();
        lemma_words_le_layout(init);
        assert forall|i: int, j: int| 0 <= i < ws.len() && 0 <= j < 4 implies #[trigger] words_le(
            ws,
        )[4 * i + j] == u32_le(ws[i])[j] by {
            if i < init.len() {
                assert(words_le(init)[4 * i + j] == u32_le(init[i])[j]);
            }
        }
    }
}

/// The word stored at `off` in `b` when bytes `off .. off + 4` equal `u32_le(x)`.
pub proof fn lemma_reads_word(b: Seq<u8>, off: int, x: u32)
    requires
        0 <= off,
        off + 4 <= b.len(),
        forall|j: int| 0 <= j < 4 ==> b[off + j] == #[trigger] u32_le(x)[j],
    ensures
        le_u32_at(b, off) == x,
{
    lemma_u32_le_reads_back(x);
    assert(b[off] == u32_le(x)[0]);
    assert(b[off + 1] == u32_le(x)[1]);
    assert(b[off + 2] == u32_le(x)[2]);
    assert(b[off + 3] == u32_le(x)[3]);
}

/// Word `i` of `ws` read back from `b` where `words_le(ws)` starts at `base`.
proof fn lemma_reads_section_word(b: Seq<u8>, base: int, ws: Seq<u32>, i: int)
    requires
        0 <= base,
        0 <= i < ws.len(),
        base + 4 * ws.len() <= b.len(),
        forall|p: int| 0 <= p < 4 * ws.len() ==> b[base + p] == #[trigger] words_le(ws)[p],
    ensures
        le_u32_at(b, base + 4 * i) == ws[i],
{
    lemma_words_le_layout(ws);
    assert forall|j: int| 0 <= j < 4 implies b[base + 4 * i + j] == #[trigger] u32_le(ws[i])[j] by {
        assert(b[base + (4 * i + j)] == words_le(ws)[4 * i + j]);
    }
    lemma_reads_word(b, base + 4 * i, ws[i]);
}

/// An encoded index opens, and every section reads back what was written.
pub proof fn lemma_encoded_index_opens(
    n: u32,
    k: u32,
    dim: u32,
    centroid_words: Seq<u32>,
    list_offsets: Seq<u32>,
    list_counts: Seq<u32>,
    vector_data: Seq<u8>,
    labels: Seq<u8>,
)
    requires
        centroid_words.len() == k * dim,
        list_offsets.len() == k,
        list_counts.len() == k,
        vector_data.len() == n * dim,
        labels.len() == n,
        index_len(n as int, k as int, dim as int) <= usize::MAX,
    ensures
        ({
            let b = index_bytes(
                n,
                k,
                dim,
                centroid_words,
                list_offsets,
                list_counts,
                vector_data,
                labels,
            );
            let l = layout_of(n as int, k as int, dim as int);
            &&& open_result(b) == Ok::<Layout, OpenError>(l)
            &&& forall|i: int|
                0 <= i < k * dim ==> #[trigger] le_u32_at(b, l.centroids_off + 4 * i)
                    == centroid_words[i]
            &&& forall|c: int|
                0 <= c < k ==> #[trigger] le_u32_at(b, l.list_offsets_off + 4 * c) == list_offsets[c]
            &&& forall|c: int|
                0 <= c < k ==> #[trigger] le_u32_at(b, l.list_counts_off + 4 * c) == list_counts[c]
            &&& forall|p: int| 0 <= p < n * dim ==> #[trigger] b[l.vector_data_off + p] == vector_data[p]
            &&& forall|p: int| 0 <= p < n ==> #[trigger] b[l.labels_off + p] == labels[p]
        }),
{
    let b = index_bytes(
        n,
        k,
        dim,
        centroid_words,
        list_offsets,
        list_counts,
        vector_data,
        labels,
    );
    let l = layout_of(n as int, k as int, dim as int);
    lemma_words_le_layout(centroid_words);
    lemma_words_le_layout(list_offsets);
    lemma_words_le_layout(list_counts);
    lemma_u32_le_reads_back(MAGIC);
    lemma_u32_le_reads_back(n);
    lemma_u32_le_reads_back(k);
    lemma_u32_le_reads_back(dim);
    lemma_index_len_bounds(n as int, k as int, dim as int);
    let h = u32_le(MAGIC) + u32_le(n) + u32_le(k) + u32_le(dim);
    let cw = words_le(centroid_words);
    let lo = words_le(list_offsets);
    let lc = words_le(list_counts);
    let kd = k * dim;
    assert(b.len() == index_len(n as int, k as int, dim as int));
    assert(l.centroids_off == 16);
    assert(l.list_offsets_off == 16 + 4 * kd);
    assert(l.list_counts_off == 16 + 4 * kd + 4 * k);
    assert(l.vector_data_off == 16 + 4 * kd + 8 * k);
    assert(l.labels_off == 16 + 4 * kd + 8 * k + n * dim);
    assert forall|j: int| 0 <= j < 4 implies b[0 + j] == #[trigger] u32_le(MAGIC)[j] by {}
    lemma_reads_word(b, 0, MAGIC);
    assert forall|j: int| 0 <= j < 4 implies b[4 + j] == #[trigger] u32_le(n)[j] by {}
    lemma_reads_word(b, 4, n);
    assert forall|j: int| 0 <= j < 4 implies b[8 + j] == #[trigger] u32_le(k)[j] by {}
    lemma_reads_word(b, 8, k);
    assert forall|j: int| 0 <= j < 4 implies b[12 + j] == #[trigger] u32_le(dim)[j] by {}
    lemma_reads_word(b, 12, dim);
    assert forall|i: int| 0 <= i < k * dim implies #[trigger] le_u32_at(b, l.centroids_off + 4 * i)
        == centroid_words[i] by {
        assert forall|p: int| 0 <= p < 4 * centroid_words.len() implies b[16 + p]
            == #[trigger] cw[p] by {}
        lemma_reads_section_word(b, 16, centroid_words, i);
    }
    assert forall|c: int| 0 <= c < k implies #[trigger] le_u32_at(b, l.list_offsets_off + 4 * c)
        == list_offsets[c] by {
        assert forall|p: int| 0 <= p < 4 * list_offsets.len() implies b[16 + 4 * kd + p]
            == #[trigger] lo[p] by {}
        lemma_reads_section_word(b, 16 + 4 * kd, list_offsets, c);
    }
    assert forall|c: int| 0 <= c < k implies #[trigger] le_u32_at(b, l.list_counts_off + 4 * c)
        == list_counts[c] by {
        assert forall|p: int| 0 <= p < 4 * list_counts.len() implies b[16 + 4 * kd + 4 * k + p]
            == #[trigger] lc[p] by {}
        lemma_reads_section_word(b, 16 + 4 * kd + 4 * k, list_counts, c);
    }
}

fn push_u32_le(out: &mut Vec<u8>, x: u32)
    ensures
        final(out)@ == old(out)@ + u32_le(x),
{
    out.push((x & 0xff) as u8);
    out.push(((x >> 8) & 0xff) as u8);
    out.push(((x >> 16) & 0xff) as u8);
    out.push(((x >> 24) & 0xff) as u8);
    assert(final(out)@ =~= old(out)@ + u32_le(x));
}

fn push_words_le(out: &mut Vec<u8>, ws: &[u32])
    ensures
        final(out)@ == old(out)@ + words_le(ws@),
{
    let ghost start = out@;
    let mut i: usize = 0;
    while i < ws.len()
        invariant
            i <= ws@.len(),
            out@ == start + words_le(ws@.subrange(0, i as int)),
        decreases ws@.len() - i,
    {
        push_u32_le(out, ws[i]);
        assert(ws@.subrange(0, i + 1).drop_last() =~= ws@.subrange(0, i as int));
        i += 1;
    }
    assert(ws@.subrange(0, ws@.len() as int) =~= ws@);
}

fn push_bytes(out: &mut Vec<u8>, bs: &[u8])
    ensures
        final(out)@ == old(out)@ + bs@,
{
    let ghost start = out@;
    let mut i: usize = 0;
    while i < bs.len()
        invariant
            i <= bs@.len(),
            out@ == start + bs@.subrange(0, i as int),
        decreases bs@.len() - i,
    {
        out.push(bs[i]);
        assert(start + bs@.subrange(0, i + 1) =~= start + bs@.subrange(0, i as int) + seq![bs@[i as int]]);
        i += 1;
    }
    assert(bs@.subrange(0, bs@.len() as int) =~= bs@);
}

/// Serializes an index: header, centroids, list offsets, list counts,
/// quantized vectors and labels.
pub fn encode_index(
    n: u32,
    k: u32,
    dim: u32,
    centroid_words: &[u32],
    list_offsets: &[u32],
    list_counts: &[u32],
    vector_data: &[u8],
    labels: &[u8],
) -> (r: Vec<u8>)
    ensures
        r@ == index_bytes(
            n,
            k,
            dim,
            centroid_words@,
            list_offsets@,
            list_counts@,
            vector_data@,
            labels@,
        ),
{
    let mut out: Vec<u8> = Vec::new();
    push_u32_le(&mut out, MAGIC);
    push_u32_le(&mut out, n);
    push_u32_le(&mut out, k);
    push_u32_le(&mut out, dim);
    push_words_le(&mut out, centroid_words);
    push_words_le(&mut out, list_offsets);
    push_words_le(&mut out, list_counts);
    push_bytes(&mut out, vector_data);
    push_bytes(&mut out, labels);
    out
}

} // verus!
