//! Integer parts of the index build: scanning the labelled records out of
//! the decompressed JSON bytes, and grouping records by cluster into the
//! order the index file stores them in.

use vstd::prelude::*;
use crate::ivf::Ivf;
use crate::ivf_format::{index_bytes, index_len, lemma_words_le_layout, lemma_encoded_index_opens, lemma_row_in_bounds, lemma_rows_disjoint, layout_of};
use crate::vectorize::DIM;
use crate::kmeans::{count_in, count_total, lemma_counts_add_up};

verus! {

/// Records in the clusters before cluster `c`: the running sum of counts.
pub open spec fn prefix_total(counts: Seq<u32>, c: int) -> int
    decreases c,
{
    if c <= 0 {
        0
    } else {
        prefix_total(counts, c - 1) + counts[c - 1] as int
    }
}

/// Where record `i` lands in the grouped order: after the records of the
/// earlier clusters and after the earlier records of its own cluster.
pub open spec fn grouped_pos(assignments: Seq<u32>, counts: Seq<u32>, i: int) -> int {
    prefix_total(counts, assignments[i] as int) + count_in(
        assignments.subrange(0, i),
        assignments[i] as int,
    ) as int
}

/// `counts[c]` is the number of records assigned to cluster `c`.
pub open spec fn counts_match(assignments: Seq<u32>, counts: Seq<u32>) -> bool {
    &&& forall|i: int| 0 <= i < assignments.len() ==> #[trigger] assignments[i] < counts.len()
    &&& forall|c: int| 0 <= c < counts.len() ==> #[trigger] counts[c] == count_in(assignments, c)
}

proof fn lemma_count_prefix_step(a: Seq<u32>, m: int, c: int)
    requires
        0 <= m < a.len(),
    ensures
        count_in(a.subrange(0, m + 1), c) == count_in(a.subrange(0, m), c) + if a[m] == c {
            1nat
        } else {
            0nat
        },
{
    assert(a.subrange(0, m + 1).drop_last() =~= a.subrange(0, m));
}

proof fn lemma_count_prefix_mono(a: Seq<u32>, m1: int, m2: int, c: int)
    requires
        0 <= m1 <= m2 <= a.len(),
    ensures
        count_in(a.subrange(0, m1), c) <= count_in(a.subrange(0, m2), c),
    decreases m2 - m1,
{
    if m1 < m2 {
        lemma_count_prefix_mono(a, m1, m2 - 1, c);
        lemma_count_prefix_step(a, m2 - 1, c);
    }
}

proof fn lemma_prefix_total_is_count_total(a: Seq<u32>, counts: Seq<u32>, c: int)
    requires
        counts_match(a, counts),
        0 <= c <= counts.len(),
    ensures
        prefix_total(counts, c) == count_total(a, c as nat),
    decreases c,
{
    if c > 0 {
        lemma_prefix_total_is_count_total(a, counts, c - 1);
        assert(counts[c - 1] == count_in(a, c - 1));
    }
}

proof fn lemma_prefix_total_mono(counts: Seq<u32>, c1: int, c2: int)
    requires
        0 <= c1 <= c2 <= counts.len(),
    ensures
        prefix_total(counts, c1) <= prefix_total(counts, c2),
    decreases c2 - c1,
{
    if c1 < c2 {
        lemma_prefix_total_mono(counts, c1, c2 - 1);
    }
}

/// Record `i` lands inside the block of its cluster, which ends before the
/// blocks of the later clusters begin; all blocks lie within the `n`
/// positions.
pub proof fn lemma_grouped_pos_in_block(a: Seq<u32>, counts: Seq<u32>, i: int)
    requires
        counts_match(a, counts),
        0 <= i < a.len(),
    ensures
        prefix_total(counts, a[i] as int) <= grouped_pos(a, counts, i),
        grouped_pos(a, counts, i) < prefix_total(counts, a[i] + 1),
        prefix_total(counts, counts.len() as int) == a.len(),
{
    let c = a[i] as int;
    lemma_count_prefix_step(a, i, c);
    lemma_count_prefix_mono(a, i + 1, a.len() as int, c);
    assert(a.subrange(0, a.len() as int) =~= a);
    lemma_prefix_total_is_count_total(a, counts, counts.len() as int);
    lemma_counts_add_up(a, counts.len() as nat);
}

/// Distinct records land at distinct positions.
pub proof fn lemma_grouped_pos_injective(a: Seq<u32>, counts: Seq<u32>, i1: int, i2: int)
    requires
        counts_match(a, counts),
        0 <= i1 < i2 < a.len(),
    ensures
        grouped_pos(a, counts, i1) != grouped_pos(a, counts, i2),
{
    let c1 = a[i1] as int;
    let c2 = a[i2] as int;
    lemma_grouped_pos_in_block(a, counts, i1);
    lemma_grouped_pos_in_block(a, counts, i2);
    if c1 == c2 {
        lemma_count_prefix_step(a, i1, c1);
        lemma_count_prefix_mono(a, i1 + 1, i2, c1);
    } else if c1 < c2 {
        lemma_prefix_total_mono(counts, c1 + 1, c2);
    } else {
        lemma_prefix_total_mono(counts, c2 + 1, c1);
    }
}

/// Records of one cluster keep their input order in the grouped order, and
/// every record of an earlier cluster comes before every record of a later
/// one.
pub proof fn lemma_grouped_pos_keeps_order(a: Seq<u32>, counts: Seq<u32>, i1: int, i2: int)
    requires
        counts_match(a, counts),
        0 <= i1 < a.len(),
        0 <= i2 < a.len(),
    ensures
        a[i1] == a[i2] && i1 < i2 ==> grouped_pos(a, counts, i1) < grouped_pos(a, counts, i2),
        a[i1] < a[i2] ==> grouped_pos(a, counts, i1) < grouped_pos(a, counts, i2),
{
    let c1 = a[i1] as int;
    let c2 = a[i2] as int;
    lemma_grouped_pos_in_block(a, counts, i1);
    lemma_grouped_pos_in_block(a, counts, i2);
    if c1 == c2 && i1 < i2 {
        lemma_count_prefix_step(a, i1, c1);
        lemma_count_prefix_mono(a, i1 + 1, i2, c1);
    } else if c1 < c2 {
        lemma_prefix_total_mono(counts, c1 + 1, c2);
    }
}

/// Copies `len` bytes of `src` starting at `src_off` over the bytes of
/// `dst` starting at `dst_off`.
fn copy_row(dst: &mut Vec<u8>, dst_off: usize, src: &[u8], src_off: usize, len: usize)
    requires
        dst_off + len <= old(dst)@.len(),
        src_off + len <= src@.len(),
    ensures
        final(dst)@.len() == old(dst)@.len(),
        forall|q: int|
            0 <= q < old(dst)@.len() && !(dst_off <= q < dst_off + len) ==> #[trigger] final(dst)@[q]
                == old(dst)@[q],
        forall|l: int| 0 <= l < len ==> final(dst)@[dst_off + l] == #[trigger] src@[src_off + l],
{
    assert(dst@.len() == dst.len());
    assert(src@.len() == src.len());
    let mut j: usize = 0;
    while j < len
        invariant
            j <= len,
            dst@.len() <= usize::MAX,
            src@.len() <= usize::MAX,
            dst_off + len <= dst@.len(),
            src_off + len <= src@.len(),
            dst@.len() == old(dst)@.len(),
            forall|q: int|
                0 <= q < old(dst)@.len() && !(dst_off <= q < dst_off + j) ==> #[trigger] dst@[q]
                    == old(dst)@[q],
            forall|l: int| 0 <= l < j ==> dst@[dst_off + l] == #[trigger] src@[src_off + l],
        decreases len - j,
    {
        let byte = src[src_off + j];
        dst.set(dst_off + j, byte);
        j += 1;
    }
}

/// Records grouped by cluster, as the index file stores them.
pub struct Grouped {
    /// First position of each cluster.
    pub list_offsets: Vec<u32>,
    /// Rows of `dim` bytes in grouped order.
    pub vector_data: Vec<u8>,
    /// Labels in grouped order.
    pub labels: Vec<u8>,
}

/// Reorders the quantized rows and labels so that the records of each
/// cluster are contiguous, clusters in increasing order and records of one
/// cluster in input order; `list_offsets[c]` is where cluster `c`
/// starts.
pub fn group_by_cluster(
    rows: &[u8],
    labels: &[u8],
    assignments: &[u32],
    counts: &[u32],
    dim: usize,
) -> (r: Grouped)
    requires
        counts_match(assignments@, counts@),
        labels@.len() == assignments@.len(),
        rows@.len() == assignments@.len() * dim,
        assignments@.len() <= u32::MAX,
    ensures
        r.list_offsets@.len() == counts@.len(),
        forall|c: int|
            0 <= c < counts@.len() ==> #[trigger] r.list_offsets@[c] == prefix_total(counts@, c),
        r.labels@.len() == labels@.len(),
        r.vector_data@.len() == rows@.len(),
        forall|i: int|
            0 <= i < assignments@.len() ==> r.labels@[#[trigger] grouped_pos(
                assignments@,
                counts@,
                i,
            )] == labels@[i],
        forall|i: int, j: int|
            0 <= i < assignments@.len() && 0 <= j < dim ==> r.vector_data@[grouped_pos(
                assignments@,
                counts@,
                i,
            ) * dim + j] == #[trigger] rows@[i * dim + j],
{
    let n = assignments.len();
    let k = counts.len();
    let ghost a = assignments@;
    let ghost cs = counts@;
    proof {
        lemma_prefix_total_is_count_total(a, cs, k as int);
        lemma_counts_add_up(a, k as nat);
    }
    // Running offsets.
    let mut list_offsets: Vec<u32> = Vec::new();
    let mut running: u32 = 0;
    let mut c: usize = 0;
    while c < k
        invariant
            c <= k,
            k == cs.len(),
            counts_match(a, cs),
            prefix_total(cs, k as int) == n,
            n <= u32::MAX,
            cs == counts@,
            running == prefix_total(cs, c as int),
            list_offsets@.len() == c,
            forall|j: int| 0 <= j < c ==> #[trigger] list_offsets@[j] == prefix_total(cs, j),
        decreases k - c,
    {
        proof {
            lemma_prefix_total_mono(cs, c + 1, k as int);
        }
        list_offsets.push(running);
        running = running + counts[c];
        c += 1;
    }
    // Next free position of each cluster.
    let mut write_pos: Vec<u32> = Vec::new();
    let mut c2: usize = 0;
    while c2 < k
        invariant
            c2 <= k,
            list_offsets@.len() == k,
            write_pos@.len() == c2,
            forall|j: int| 0 <= j < c2 ==> #[trigger] write_pos@[j] == list_offsets@[j],
        decreases k - c2,
    {
        write_pos.push(list_offsets[c2]);
        c2 += 1;
    }
    let total = rows.len();
    let mut vector_data: Vec<u8> = Vec::new();
    let mut z: usize = 0;
    while z < total
        invariant
            z <= total,
            vector_data@.len() == z,
        decreases total - z,
    {
        vector_data.push(0);
        z += 1;
    }
    let mut grouped_labels: Vec<u8> = Vec::new();
    let mut z2: usize = 0;
    while z2 < n
        invariant
            z2 <= n,
            grouped_labels@.len() == z2,
        decreases n - z2,
    {
        grouped_labels.push(0);
        z2 += 1;
    }
    let mut i: usize = 0;
    while i < n
        invariant
            i <= n,
            n == a.len(),
            k == cs.len(),
            a == assignments@,
            cs == counts@,
            counts_match(a, cs),
            labels@.len() == n,
            rows@.len() == n * dim,
            total == rows@.len(),
            prefix_total(cs, k as int) == n,
            n <= u32::MAX,
            vector_data@.len() == total,
            grouped_labels@.len() == n,
            list_offsets@.len() == k,
            forall|j: int| 0 <= j < k ==> #[trigger] list_offsets@[j] == prefix_total(cs, j),
            write_pos@.len() == k,
            forall|cc: int|
                0 <= cc < k ==> #[trigger] write_pos@[cc] == prefix_total(cs, cc) + count_in(
                    a.subrange(0, i as int),
                    cc,
                ),
            forall|i2: int|
                0 <= i2 < i ==> grouped_labels@[#[trigger] grouped_pos(a, cs, i2)] == labels@[i2],
            forall|i2: int, j: int|
                0 <= i2 < i && 0 <= j < dim ==> vector_data@[grouped_pos(a, cs, i2) * dim + j]
                    == #[trigger] rows@[i2 * dim + j],
        decreases n - i,
    {
        let ci = assignments[i] as usize;
        let pos = write_pos[ci] as usize;
        let ghost ii = i as int;
        proof {
            assert(pos == grouped_pos(a, cs, ii));
            lemma_grouped_pos_in_block(a, cs, ii);
            lemma_prefix_total_mono(cs, ci + 1, k as int);
            lemma_row_in_bounds(pos as int, n as int, dim as int);
            lemma_row_in_bounds(ii, n as int, dim as int);
            lemma_count_prefix_step(a, ii, ci as int);
        }
        write_pos.set(ci, (pos + 1) as u32);
        let ghost vd_before = vector_data@;
        copy_row(&mut vector_data, pos * dim, rows, i * dim, dim);
        grouped_labels.set(pos, labels[i]);
        proof {
            assert forall|i2: int| 0 <= i2 < i + 1 implies grouped_labels@[#[trigger] grouped_pos(
                a,
                cs,
                i2,
            )] == labels@[i2] by {
                if i2 < i {
                    lemma_grouped_pos_injective(a, cs, i2, ii);
                    lemma_grouped_pos_in_block(a, cs, i2);
                    lemma_prefix_total_mono(cs, a[i2] + 1, k as int);
                    lemma_prefix_total_mono(cs, 0, a[i2] as int);
                    assert(grouped_pos(a, cs, i2) != pos);
                } else {
                    assert(i2 == ii);
                }
            }
            assert forall|i2: int, j2: int|
                0 <= i2 < i + 1 && 0 <= j2 < dim implies vector_data@[grouped_pos(a, cs, i2) * dim
                + j2] == #[trigger] rows@[i2 * dim + j2] by {
                if i2 < i {
                    lemma_grouped_pos_injective(a, cs, i2, ii);
                    lemma_grouped_pos_in_block(a, cs, i2);
                    let p2 = grouped_pos(a, cs, i2);
                    lemma_prefix_total_mono(cs, a[i2] + 1, k as int);
                    assert(p2 < prefix_total(cs, a[i2] + 1));
                    assert(prefix_total(cs, a[i2] + 1) <= prefix_total(cs, k as int));
                    assert(p2 < n);
                    lemma_prefix_total_mono(cs, 0, a[i2] as int);
                    lemma_row_in_bounds(p2, n as int, dim as int);
                    lemma_rows_disjoint(p2, pos as int, dim as int, j2, j2);
                    assert(vector_data@[p2 * dim + j2] == vd_before[p2 * dim + j2]);
                }
            }
            assert forall|cc: int| 0 <= cc < k implies #[trigger] write_pos@[cc] == prefix_total(
                cs,
                cc,
            ) + count_in(a.subrange(0, i + 1), cc) by {
                lemma_count_prefix_step(a, ii, cc);
            }
        }
        i += 1;
    }
    Grouped { list_offsets, vector_data, labels: grouped_labels }
}

/// The bytes `"vector"` (with the quotes).
pub open spec fn vector_key() -> Seq<u8> {
    seq![34u8, 118, 101, 99, 116, 111, 114, 34]
}

/// The bytes `"label"` (with the quotes).
pub open spec fn label_key() -> Seq<u8> {
    seq![34u8, 108, 97, 98, 101, 108, 34]
}

/// The bytes `fraud`.
pub open spec fn fraud_word() -> Seq<u8> {
    seq![102u8, 114, 97, 117, 100]
}

/// Scanning forward from `i`: the first position where `key` occurs, or the
/// first where fewer than `key.len()` bytes remain.
pub open spec fn key_stop(b: Seq<u8>, key: Seq<u8>, i: int) -> int
    decreases b.len() - i,
{
    if i >= b.len() || i + key.len() > b.len() || b.subrange(i, i + key.len()) == key {
        i
    } else {
        key_stop(b, key, i + 1)
    }
}

/// Scanning forward from `i`: the first position holding `c`, or the end.
pub open spec fn byte_stop(b: Seq<u8>, c: u8, i: int) -> int
    decreases b.len() - i,
{
    if i >= b.len() || b[i] == c {
        i
    } else {
        byte_stop(b, c, i + 1)
    }
}

/// Scanning forward from `i` past spaces and commas.
pub open spec fn separator_stop(b: Seq<u8>, i: int) -> int
    decreases b.len() - i,
{
    if i >= b.len() || (b[i] != 32 && b[i] != 44) {
        i
    } else {
        separator_stop(b, i + 1)
    }
}

/// Scanning forward from `i` to the end of a number: the first comma,
/// closing bracket or space, or the end.
pub open spec fn token_stop(b: Seq<u8>, i: int) -> int
    decreases b.len() - i,
{
    if i >= b.len() || b[i] == 44 || b[i] == 93 || b[i] == 32 {
        i
    } else {
        token_stop(b, i + 1)
    }
}

/// The byte ranges of `d` numbers read from `i` on, and where reading
/// stopped.
pub open spec fn number_spans(b: Seq<u8>, i: int, d: nat) -> (Seq<(int, int)>, int)
    decreases d,
{
    if d == 0 {
        (Seq::empty(), i)
    } else {
        let (spans, j) = number_spans(b, i, (d - 1) as nat);
        let s = separator_stop(b, j);
        let e = token_stop(b, s);
        (spans.push((s, e)), e)
    }
}

/// Reading a `"vector": [..]` field from `start`: the byte range of each of
/// its `DIM` numbers, and the position after the closing bracket.
pub open spec fn vector_field(b: Seq<u8>, start: int) -> (Seq<(int, int)>, int) {
    let i0 = key_stop(b, vector_key(), start) + 8;
    let i1 = byte_stop(b, 91u8, i0) + 1;
    let (spans, i2) = number_spans(b, i1, DIM as nat);
    (spans, byte_stop(b, 93u8, i2) + 1)
}

/// Reading a `"label": "..."` field from `start` finds an opening quote.
pub open spec fn label_field_ok(b: Seq<u8>, start: int) -> bool {
    byte_stop(b, 34u8, key_stop(b, label_key(), start) + 7) < b.len()
}

/// Reading a `"label": "..."` field from `start`: 1 when the quoted value
/// is `fraud`, 0 otherwise, and the position after the closing quote.
pub open spec fn label_field(b: Seq<u8>, start: int) -> (u8, int) {
    let q = byte_stop(b, 34u8, key_stop(b, label_key(), start) + 7);
    let e = byte_stop(b, 34u8, q + 1);
    (if b.subrange(q + 1, e) == fraud_word() {
        1u8
    } else {
        0u8
    }, e + 1)
}

proof fn lemma_number_spans_len(b: Seq<u8>, i: int, d: nat)
    ensures
        number_spans(b, i, d).0.len() == d,
    decreases d,
{
    if d > 0 {
        lemma_number_spans_len(b, i, (d - 1) as nat);
    }
}

proof fn lemma_key_stop_bounds(b: Seq<u8>, key: Seq<u8>, i: int)
    requires
        0 <= i,
    ensures
        i <= key_stop(b, key, i),
        key_stop(b, key, i) <= if i > b.len() {
            i
        } else {
            b.len() as int
        },
    decreases b.len() - i,
{
    if !(i >= b.len() || i + key.len() > b.len() || b.subrange(i, i + key.len()) == key) {
        lemma_key_stop_bounds(b, key, i + 1);
    }
}

proof fn lemma_byte_stop_bounds(b: Seq<u8>, c: u8, i: int)
    requires
        0 <= i,
    ensures
        i <= byte_stop(b, c, i),
        byte_stop(b, c, i) <= if i > b.len() {
            i
        } else {
            b.len() as int
        },
    decreases b.len() - i,
{
    if !(i >= b.len() || b[i] == c) {
        lemma_byte_stop_bounds(b, c, i + 1);
    }
}

proof fn lemma_separator_stop_bounds(b: Seq<u8>, i: int)
    requires
        0 <= i,
    ensures
        i <= separator_stop(b, i),
        separator_stop(b, i) <= if i > b.len() {
            i
        } else {
            b.len() as int
        },
    decreases b.len() - i,
{
    if !(i >= b.len() || (b[i] != 32 && b[i] != 44)) {
        lemma_separator_stop_bounds(b, i + 1);
    }
}

proof fn lemma_token_stop_bounds(b: Seq<u8>, i: int)
    requires
        0 <= i,
    ensures
        i <= token_stop(b, i),
        token_stop(b, i) <= if i > b.len() {
            i
        } else {
            b.len() as int
        },
    decreases b.len() - i,
{
    if !(i >= b.len() || b[i] == 44 || b[i] == 93 || b[i] == 32) {
        lemma_token_stop_bounds(b, i + 1);
    }
}

/// `key` occurs in `b` at `p`, and at no position from `from` up to `p`.
pub open spec fn first_key_at(b: Seq<u8>, key: Seq<u8>, from: int, p: int) -> bool {
    &&& 0 <= from <= p
    &&& p + key.len() <= b.len()
    &&& b.subrange(p, p + key.len()) == key
    &&& forall|j: int| from <= j < p ==> #[trigger] b.subrange(j, j + key.len()) != key
}

/// `b[q]` is `c`, and no byte from `from` up to `q` is.
pub open spec fn first_byte_at(b: Seq<u8>, c: u8, from: int, q: int) -> bool {
    &&& 0 <= from <= q < b.len()
    &&& b[q] == c
    &&& forall|j: int| from <= j < q ==> #[trigger] b[j] != c
}

/// Scanning for a key stops at its first occurrence.
pub proof fn lemma_key_stop_finds_first(b: Seq<u8>, key: Seq<u8>, from: int, p: int)
    requires
        first_key_at(b, key, from, p),
    ensures
        key_stop(b, key, from) == p,
    decreases p - from,
{
    if from < p {
        assert(b.subrange(from, from + key.len()) != key);
        lemma_key_stop_finds_first(b, key, from + 1, p);
    }
}

/// Scanning for a byte stops at its first occurrence.
pub proof fn lemma_byte_stop_finds_first(b: Seq<u8>, c: u8, from: int, q: int)
    requires
        first_byte_at(b, c, from, q),
    ensures
        byte_stop(b, c, from) == q,
    decreases q - from,
{
    if from < q {
        assert(b[from] != c);
        lemma_byte_stop_finds_first(b, c, from + 1, q);
    }
}

/// Skipping separators stops at the first byte that is neither a space nor a
/// comma, or at the end.
pub proof fn lemma_separator_stop_finds_first(b: Seq<u8>, from: int, s: int)
    requires
        0 <= from <= s <= b.len(),
        s == b.len() || (b[s] != 32 && b[s] != 44),
        forall|j: int| from <= j < s ==> #[trigger] b[j] == 32 || b[j] == 44,
    ensures
        separator_stop(b, from) == s,
    decreases s - from,
{
    if from < s {
        assert(b[from] == 32 || b[from] == 44);
        lemma_separator_stop_finds_first(b, from + 1, s);
    }
}

/// A number ends at the first comma, closing bracket or space, or at the
/// end.
pub proof fn lemma_token_stop_finds_first(b: Seq<u8>, from: int, e: int)
    requires
        0 <= from <= e <= b.len(),
        e == b.len() || b[e] == 44 || b[e] == 93 || b[e] == 32,
        forall|j: int| from <= j < e ==> #[trigger] b[j] != 44 && b[j] != 93 && b[j] != 32,
    ensures
        token_stop(b, from) == e,
    decreases e - from,
{
    if from < e {
        assert(b[from] != 44 && b[from] != 93 && b[from] != 32);
        lemma_token_stop_finds_first(b, from + 1, e);
    }
}

/// A label field is read from the first `"label"` key at or after `start`:
/// its value lies between the first two double quotes after the key, the
/// label is 1 exactly when that value is `fraud`, and reading goes on just
/// past the closing quote.
pub proof fn lemma_label_field_reads_first_quoted_value(b: Seq<u8>, start: int, p: int, q1: int, q2: int)
    requires
        first_key_at(b, seq![34u8, 108, 97, 98, 101, 108, 34], start, p),
        first_byte_at(b, 34u8, p + 7, q1),
        first_byte_at(b, 34u8, q1 + 1, q2),
    ensures
        label_field_ok(b, start),
        label_field(b, start) == (if b.subrange(q1 + 1, q2) == seq![102u8, 114, 97, 117, 100] {
            1u8
        } else {
            0u8
        }, q2 + 1),
{
    assert(label_key() =~= seq![34u8, 108, 97, 98, 101, 108, 34]);
    assert(fraud_word() =~= seq![102u8, 114, 97, 117, 100]);
    lemma_key_stop_finds_first(b, label_key(), start, p);
    lemma_byte_stop_finds_first(b, 34u8, p + 7, q1);
    lemma_byte_stop_finds_first(b, 34u8, q1 + 1, q2);
}

/// A vector field is read from the first `"vector"` key at or after
/// `start`: its numbers are read from just after the first `[` that follows
/// the key, and reading goes on just past the first `]` after the last
/// number.
pub proof fn lemma_vector_field_reads_after_bracket(b: Seq<u8>, start: int, p: int, o: int, c: int)
    requires
        first_key_at(b, seq![34u8, 118, 101, 99, 116, 111, 114, 34], start, p),
        first_byte_at(b, 91u8, p + 8, o),
        first_byte_at(b, 93u8, number_spans(b, o + 1, 14).1, c),
    ensures
        vector_field(b, start).0 == number_spans(b, o + 1, 14).0,
        vector_field(b, start).1 == c + 1,
{
    assert(vector_key() =~= seq![34u8, 118, 101, 99, 116, 111, 114, 34]);
    lemma_key_stop_finds_first(b, vector_key(), start, p);
    lemma_byte_stop_finds_first(b, 91u8, p + 8, o);
    lemma_byte_stop_finds_first(b, 93u8, number_spans(b, o + 1, 14).1, c);
}

proof fn lemma_number_spans_from(b: Seq<u8>, i: int, d: nat)
    requires
        0 <= i,
    ensures
        i <= number_spans(b, i, d).1,
    decreases d,
{
    if d > 0 {
        lemma_number_spans_from(b, i, (d - 1) as nat);
        let j = number_spans(b, i, (d - 1) as nat).1;
        lemma_separator_stop_bounds(b, j);
        lemma_token_stop_bounds(b, separator_stop(b, j));
    }
}

/// Each number of a field starts at the first byte after the previous one
/// (or after the opening bracket) that is neither a space nor a comma, and
/// ends at the first comma, closing bracket or space after its start.
pub proof fn lemma_number_spans_step(b: Seq<u8>, i: int, d: nat, s: int, e: int)
    requires
        0 <= i,
        number_spans(b, i, d).1 <= s <= e <= b.len(),
        s == b.len() || (b[s] != 32 && b[s] != 44),
        forall|j: int| number_spans(b, i, d).1 <= j < s ==> #[trigger] b[j] == 32 || b[j] == 44,
        e == b.len() || b[e] == 44 || b[e] == 93 || b[e] == 32,
        forall|j: int| s <= j < e ==> #[trigger] b[j] != 44 && b[j] != 93 && b[j] != 32,
    ensures
        number_spans(b, i, d + 1).0 == number_spans(b, i, d).0.push((s, e)),
        number_spans(b, i, d + 1).1 == e,
{
    lemma_number_spans_from(b, i, d);
    lemma_separator_stop_finds_first(b, number_spans(b, i, d).1, s);
    lemma_token_stop_finds_first(b, s, e);
}

/// Whether `key` occurs in `b` at `i` (which must leave room for it).
fn key_at(b: &[u8], key: &[u8], i: usize) -> (r: bool)
    requires
        i + key@.len() <= b@.len(),
    ensures
        r == (b@.subrange(i as int, i + key@.len()) == key@),
{
    assert(b@.len() == b.len());
    let mut j: usize = 0;
    while j < key.len()
        invariant
            j <= key@.len(),
            b@.len() <= usize::MAX,
            i + key@.len() <= b@.len(),
            b@.subrange(i as int, i + j) == key@.subrange(0, j as int),
        decreases key@.len() - j,
    {
        if b[i + j] != key[j] {
            assert(b@.subrange(i as int, i + key@.len())[j as int] != key@[j as int]);
            return false;
        }
        assert(b@.subrange(i as int, i + j + 1) =~= key@.subrange(0, j + 1)) by {
            assert(b@.subrange(i as int, i + j) =~= key@.subrange(0, j as int));
        }
        j += 1;
    }
    assert(key@.subrange(0, key@.len() as int) =~= key@);
    true
}

fn skip_to_key(b: &[u8], key: &[u8], start: usize) -> (r: usize)
    requires
        b@.len() + 64 <= usize::MAX,
        start <= b@.len() + 32,
        1 <= key@.len() <= 32,
    ensures
        r == key_stop(b@, key@, start as int),
{
    let mut i = start;
    while i + key.len() <= b.len() && !key_at(b, key, i)
        invariant
            b@.len() + 64 <= usize::MAX,
            1 <= key@.len() <= 32,
            start <= i,
            i <= b@.len() + 32,
            key_stop(b@, key@, start as int) == key_stop(b@, key@, i as int),
        decreases b@.len() - i,
    {
        i += 1;
    }
    i
}

fn skip_to_byte(b: &[u8], c: u8, start: usize) -> (r: usize)
    ensures
        r == byte_stop(b@, c, start as int),
{
    let mut i = start;
    while i < b.len() && b[i] != c
        invariant
            start <= i,
            byte_stop(b@, c, start as int) == byte_stop(b@, c, i as int),
        decreases b@.len() - i,
    {
        i += 1;
    }
    i
}

fn skip_separators(b: &[u8], start: usize) -> (r: usize)
    ensures
        r == separator_stop(b@, start as int),
{
    let mut i = start;
    while i < b.len() && (b[i] == 32 || b[i] == 44)
        invariant
            start <= i,
            separator_stop(b@, start as int) == separator_stop(b@, i as int),
        decreases b@.len() - i,
    {
        i += 1;
    }
    i
}

fn skip_token(b: &[u8], start: usize) -> (r: usize)
    ensures
        r == token_stop(b@, start as int),
{
    let mut i = start;
    while i < b.len() && b[i] != 44 && b[i] != 93 && b[i] != 32
        invariant
            start <= i,
            token_stop(b@, start as int) == token_stop(b@, i as int),
        decreases b@.len() - i,
    {
        i += 1;
    }
    i
}

/// Reads a `"vector": [..]` field starting at `start`: the byte range
/// `(start, end)` of each of its `DIM` numbers, and the position after the
/// closing bracket. The numbers themselves are parsed by the caller.
pub fn read_vector_field(b: &[u8], start: usize) -> (r: (Vec<(usize, usize)>, usize))
    requires
        b@.len() + 64 <= usize::MAX,
        start <= b@.len(),
    ensures
        r.0@.len() == DIM,
        forall|d: int|
            0 <= d < DIM ==> (#[trigger] r.0@[d]).0 == vector_field(b@, start as int).0[d].0
                && r.0@[d].1 == vector_field(b@, start as int).0[d].1,
        r.1 == vector_field(b@, start as int).1,
        r.1 <= b@.len() + 10,
{
    let key: [u8; 8] = [34, 118, 101, 99, 116, 111, 114, 34];
    assert(key@ =~= vector_key());
    let k0 = skip_to_key(b, key.as_slice(), start);
    proof {
        lemma_key_stop_bounds(b@, vector_key(), start as int);
    }
    let i0 = k0 + 8;
    let i1 = skip_to_byte(b, 91, i0);
    proof {
        lemma_byte_stop_bounds(b@, 91u8, i0 as int);
    }
    let mut i = i1 + 1;
    let mut spans: Vec<(usize, usize)> = Vec::new();
    let mut d: usize = 0;
    while d < DIM
        invariant
            d <= DIM,
            b@.len() + 64 <= usize::MAX,
            i <= b@.len() + 9,
            i1 + 1 <= b@.len() + 9,
            spans@.len() == d,
            number_spans(b@, (i1 + 1) as int, d as nat).1 == i,
            forall|q: int|
                0 <= q < d ==> (#[trigger] spans@[q]).0 == number_spans(
                    b@,
                    (i1 + 1) as int,
                    d as nat,
                ).0[q].0 && spans@[q].1 == number_spans(b@, (i1 + 1) as int, d as nat).0[q].1,
        decreases DIM - d,
    {
        let s = skip_separators(b, i);
        proof {
            lemma_number_spans_len(b@, (i1 + 1) as int, d as nat);
            lemma_separator_stop_bounds(b@, i as int);
        }
        let e = skip_token(b, s);
        proof {
            lemma_token_stop_bounds(b@, s as int);
        }
        spans.push((s, e));
        i = e;
        d += 1;
    }
    let close = skip_to_byte(b, 93, i);
    proof {
        lemma_number_spans_len(b@, (i1 + 1) as int, DIM as nat);
        lemma_byte_stop_bounds(b@, 93u8, i as int);
    }
    (spans, close + 1)
}

/// Reads a `"label": "..."` field starting at `start`: 1 when the value is
/// `fraud`, 0 otherwise, and the position after the closing quote.
pub fn read_label_field(b: &[u8], start: usize) -> (r: (u8, usize))
    requires
        b@.len() + 64 <= usize::MAX,
        label_field_ok(b@, start as int),
    ensures
        r.0 == label_field(b@, start as int).0,
        r.1 == label_field(b@, start as int).1,
        r.1 <= b@.len() + 1,
{
    let key: [u8; 7] = [34, 108, 97, 98, 101, 108, 34];
    assert(key@ =~= label_key());
    proof {
        if start > b@.len() + 32 {
            lemma_key_stop_bounds(b@, label_key(), start as int);
            lemma_byte_stop_bounds(b@, 34u8, key_stop(b@, label_key(), start as int) + 7);
        }
    }
    let k0 = skip_to_key(b, key.as_slice(), start);
    proof {
        lemma_key_stop_bounds(b@, label_key(), start as int);
    }
    let q = skip_to_byte(b, 34, k0 + 7);
    let v_start = q + 1;
    let e = skip_to_byte(b, 34, v_start);
    proof {
        lemma_byte_stop_bounds(b@, 34u8, v_start as int);
    }
    let is_fraud = e - v_start == 5 && b[v_start] == 102 && b[v_start + 1] == 114 && b[v_start + 2]
        == 97 && b[v_start + 3] == 117 && b[v_start + 4] == 100;
    proof {
        let w = b@.subrange(v_start as int, e as int);
        if is_fraud {
            assert(w =~= fraud_word());
        } else if w.len() == 5 {
            assert(w[0] != 102 || w[1] != 114 || w[2] != 97 || w[3] != 117 || w[4] != 100);
            assert(w != fraud_word());
        }
    }
    let byte: u8 = if is_fraud {
        1
    } else {
        0
    };
    (byte, e + 1)
}

/// What scanning for the next record from some position finds.
pub enum RecordScan {
    /// No further `{`: the records are over.
    End,
    /// A record: the byte range of each number of its vector, its label
    /// byte, and where scanning goes on.
    Record { spans: Vec<(usize, usize)>, label: u8, next: usize },
    /// A record whose label value never opens.
    Unterminated,
}

/// Scans the next `{ "vector": [...], "label": "..." }` record from `i`.
pub fn scan_record(b: &[u8], i: usize) -> (r: RecordScan)
    requires
        b@.len() + 64 <= usize::MAX,
        i <= b@.len(),
    ensures
        ({
            let o = byte_stop(b@, 123u8, i as int);
            let (vspans, j) = vector_field(b@, o + 1);
            match r {
                RecordScan::End => o >= b@.len(),
                RecordScan::Unterminated => o < b@.len() && !label_field_ok(b@, j),
                RecordScan::Record { spans, label, next } => {
                    &&& o < b@.len()
                    &&& label_field_ok(b@, j)
                    &&& spans@.len() == DIM
                    &&& forall|d: int|
                        0 <= d < DIM ==> (#[trigger] spans@[d]).0 == vspans[d].0 && spans@[d].1
                            == vspans[d].1
                    &&& label == label_field(b@, j).0
                    &&& next == label_field(b@, j).1
                    &&& i < next <= b@.len() + 1
                },
            }
        }),
{
    let o = skip_to_byte(b, 123, i);
    proof {
        lemma_byte_stop_bounds(b@, 123u8, i as int);
    }
    if o >= b.len() {
        return RecordScan::End;
    }
    let (spans, j) = read_vector_field(b, o + 1);
    if !label_value_opens(b, j) {
        return RecordScan::Unterminated;
    }
    let (label, next) = read_label_field(b, j);
    proof {
        let q = byte_stop(b@, 34u8, key_stop(b@, label_key(), j as int) + 7);
        lemma_key_stop_bounds(b@, label_key(), j as int);
        lemma_byte_stop_bounds(b@, 34u8, key_stop(b@, label_key(), j as int) + 7);
        lemma_byte_stop_bounds(b@, 34u8, q + 1);
        lemma_vector_field_advances(b@, (o + 1) as int);
    }
    RecordScan::Record { spans, label, next }
}

proof fn lemma_vector_field_advances(b: Seq<u8>, start: int)
    requires
        0 <= start,
    ensures
        start <= vector_field(b, start).1,
{
    lemma_key_stop_bounds(b, vector_key(), start);
    let i0 = key_stop(b, vector_key(), start) + 8;
    lemma_byte_stop_bounds(b, 91u8, i0);
    let i1 = byte_stop(b, 91u8, i0) + 1;
    lemma_number_spans_advance(b, i1, DIM as nat);
    lemma_byte_stop_bounds(b, 93u8, number_spans(b, i1, DIM as nat).1);
}

proof fn lemma_number_spans_advance(b: Seq<u8>, i: int, d: nat)
    requires
        0 <= i,
    ensures
        i <= number_spans(b, i, d).1,
    decreases d,
{
    if d > 0 {
        lemma_number_spans_advance(b, i, (d - 1) as nat);
        let j = number_spans(b, i, (d - 1) as nat).1;
        lemma_separator_stop_bounds(b, j);
        lemma_token_stop_bounds(b, separator_stop(b, j));
    }
}

/// Whether reading a label field from `start` finds an opening quote.
fn label_value_opens(b: &[u8], start: usize) -> (r: bool)
    requires
        b@.len() + 64 <= usize::MAX,
        start <= b@.len() + 10,
    ensures
        r == label_field_ok(b@, start as int),
{
    let key: [u8; 7] = [34, 108, 97, 98, 101, 108, 34];
    assert(key@ =~= label_key());
    let k0 = skip_to_key(b, key.as_slice(), start);
    proof {
        lemma_key_stop_bounds(b@, label_key(), start as int);
    }
    let q = skip_to_byte(b, 34, k0 + 7);
    q < b.len()
}

/// Reading up to `max` records from `i` on: for each, where its vector
/// field starts (just after the `{`) and its label byte. `None` when a
/// record's label value never opens.
pub open spec fn scan_records(b: Seq<u8>, i: int, max: nat) -> Option<Seq<(int, u8)>>
    decreases max,
{
    if max == 0 || i >= b.len() {
        Some(Seq::empty())
    } else {
        let o = byte_stop(b, 123u8, i);
        if o >= b.len() {
            Some(Seq::empty())
        } else {
            let j = vector_field(b, o + 1).1;
            if !label_field_ok(b, j) {
                None
            } else {
                match scan_records(b, label_field(b, j).1, (max - 1) as nat) {
                    None => None,
                    Some(rest) => Some(seq![(o + 1, label_field(b, j).0)] + rest),
                }
            }
        }
    }
}

/// Where a record's vector field starts, and its label byte.
#[derive(Clone, Copy, Debug, PartialEq, Eq, Structural)]
pub struct RecordAt {
    pub vector_start: usize,
    pub label: u8,
}

/// Scans up to `max` records `{ "vector": [...], "label": "..." }` from the
/// start of `b`. The numbers of each vector are read afterwards with
/// `read_vector_field` from `vector_start`.
pub fn parse_records(b: &[u8], max: usize) -> (r: Option<Vec<RecordAt>>)
    requires
        b@.len() + 64 <= usize::MAX,
    ensures
        match scan_records(b@, 0, max as nat) {
            None => r is None,
            Some(recs) => {
                &&& r is Some
                &&& r->0@.len() == recs.len()
                &&& forall|t: int|
                    0 <= t < recs.len() ==> (#[trigger] r->0@[t]).vector_start == recs[t].0
                        && r->0@[t].label == recs[t].1
            },
        },
{
    let n = b.len();
    let mut records: Vec<RecordAt> = Vec::new();
    let ghost mut acc: Seq<(int, u8)> = Seq::empty();
    let mut i: usize = 0;
    let mut count: usize = 0;
    while i < n && count < max
        invariant
            n == b@.len(),
            b@.len() + 64 <= usize::MAX,
            count <= max,
            i <= n + 1,
            records@.len() == acc.len(),
            forall|t: int|
                0 <= t < acc.len() ==> (#[trigger] records@[t]).vector_start == acc[t].0
                    && records@[t].label == acc[t].1,
            scan_records(b@, 0, max as nat) == match scan_records(
                b@,
                i as int,
                (max - count) as nat,
            ) {
                None => None,
                Some(rest) => Some(acc + rest),
            },
        ensures
            scan_records(b@, i as int, (max - count) as nat) == Some(Seq::<(int, u8)>::empty()),
        decreases n + 1 - i,
    {
        let ghost old_acc = acc;
        match scan_record(b, i) {
            RecordScan::End => {
                assert(scan_records(b@, i as int, (max - count) as nat) == Some(Seq::<(int, u8)>::empty()));
                assert(acc + Seq::<(int, u8)>::empty() =~= acc);
                break;
            },
            RecordScan::Unterminated => {
                return None;
            },
            RecordScan::Record { spans, label, next } => {
                let vector_start = skip_to_byte(b, 123, i) + 1;
                proof {
                    acc = acc.push((vector_start as int, label));
                    let rest_after = scan_records(b@, next as int, (max - count - 1) as nat);
                    match rest_after {
                        None => {},
                        Some(rest) => {
                            assert(old_acc + (seq![(vector_start as int, label)] + rest) =~= acc + rest);
                        },
                    }
                }
                records.push(RecordAt { vector_start, label });
                i = next;
                count += 1;
            },
        }
    }
    proof {
        assert(acc + Seq::<(int, u8)>::empty() =~= acc);
    }
    Some(records)
}

/// An index written from records grouped by cluster reads back what the
/// grouping put there: each cluster's offset and count, and, at each
/// record's grouped position, its label and its row.
pub proof fn lemma_grouped_index_reads_back(
    ivf: &Ivf,
    dim: u32,
    centroid_words: Seq<u32>,
    assignments: Seq<u32>,
    counts: Seq<u32>,
    rows: Seq<u8>,
    labels: Seq<u8>,
    list_offsets: Seq<u32>,
    vector_data: Seq<u8>,
    grouped_labels: Seq<u8>,
)
    requires
        ivf.wf(),
        counts_match(assignments, counts),
        assignments.len() <= u32::MAX,
        counts.len() <= u32::MAX,
        centroid_words.len() == counts.len() * dim,
        labels.len() == assignments.len(),
        rows.len() == assignments.len() * dim,
        list_offsets.len() == counts.len(),
        forall|c: int| 0 <= c < counts.len() ==> #[trigger] list_offsets[c] == prefix_total(counts, c),
        grouped_labels.len() == labels.len(),
        vector_data.len() == rows.len(),
        forall|i: int|
            0 <= i < assignments.len() ==> grouped_labels[#[trigger] grouped_pos(
                assignments,
                counts,
                i,
            )] == labels[i],
        forall|i: int, j: int|
            0 <= i < assignments.len() && 0 <= j < dim ==> vector_data[grouped_pos(
                assignments,
                counts,
                i,
            ) * dim + j] == #[trigger] rows[i * dim + j],
        ivf.bytes() == index_bytes(
            assignments.len() as u32,
            counts.len() as u32,
            dim,
            centroid_words,
            list_offsets,
            counts,
            vector_data,
            grouped_labels,
        ),
    ensures
        ivf.layout().n == assignments.len(),
        ivf.layout().k == counts.len(),
        ivf.layout().dim == dim,
        forall|c: int|
            0 <= c < counts.len() ==> #[trigger] ivf.list_offset_of(c) == prefix_total(counts, c)
                && ivf.list_count_of(c) == counts[c],
        forall|i: int|
            0 <= i < assignments.len() ==> #[trigger] ivf.label_of(grouped_pos(assignments, counts, i))
                == labels[i],
        forall|i: int|
            0 <= i < assignments.len() ==> #[trigger] ivf.row_of(grouped_pos(assignments, counts, i))
                == rows.subrange(i * dim, i * dim + dim),
{
    let n = assignments.len() as u32;
    let k = counts.len() as u32;
    ivf.lemma_layout();
    lemma_words_le_layout(centroid_words);
    lemma_words_le_layout(list_offsets);
    lemma_words_le_layout(counts);
    assert(ivf.bytes().len() == index_len(n as int, k as int, dim as int));
    lemma_encoded_index_opens(
        n,
        k,
        dim,
        centroid_words,
        list_offsets,
        counts,
        vector_data,
        grouped_labels,
    );
    let l = layout_of(n as int, k as int, dim as int);
    assert(ivf.layout() == l);
    let b = ivf.bytes();
    assert forall|i: int| 0 <= i < assignments.len() implies #[trigger] ivf.label_of(
        grouped_pos(assignments, counts, i),
    ) == labels[i] && ivf.row_of(grouped_pos(assignments, counts, i)) == rows.subrange(
        i * dim,
        i * dim + dim,
    ) by {
        let p = grouped_pos(assignments, counts, i);
        lemma_grouped_pos_in_block(assignments, counts, i);
        lemma_prefix_total_mono(counts, assignments[i] + 1, counts.len() as int);
        lemma_prefix_total_mono(counts, 0, assignments[i] as int);
        assert(0 <= p < n);
        assert(b[l.labels_off + p] == grouped_labels[p]);
        lemma_row_in_bounds(p, n as int, dim as int);
        lemma_row_in_bounds(i, n as int, dim as int);
        assert forall|j: int| 0 <= j < dim implies #[trigger] ivf.row_of(p)[j] == rows.subrange(
            i * dim,
            i * dim + dim,
        )[j] by {
            assert(p * dim + j < n * dim);
            assert(ivf.row_of(p)[j] == b[l.vector_data_off + p * dim + j]);
            assert(b[l.vector_data_off + (p * dim + j)] == vector_data[p * dim + j]);
            assert(vector_data[p * dim + j] == rows[i * dim + j]);
            assert(rows.subrange(i * dim, i * dim + dim)[j] == rows[i * dim + j]);
        }
        assert(ivf.row_of(p) =~= rows.subrange(i * dim, i * dim + dim));
    }
    assert forall|i: int| 0 <= i < assignments.len() implies #[trigger] ivf.row_of(
        grouped_pos(assignments, counts, i),
    ) == rows.subrange(i * dim, i * dim + dim) by {
        assert(ivf.label_of(grouped_pos(assignments, counts, i)) == labels[i]);
    }
}

} // verus!
