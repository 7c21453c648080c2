//! The IVF (inverted file) index as it is searched at runtime.
//!
//! The index file is memory-mapped by the caller and handed over as a
//! `memmap2::Mmap`; `Ivf::open` validates it against the layout of
//! `ivf_format`, and the accessors read its sections in place.
//!
//! Searching needs float distances, which the caller computes and passes in
//! as keys: the bit pattern of each non-negative `f32` distance (see
//! `nearest`). The selection of clusters to visit and of the nearest
//! records, and the count of fraud labels among them, happen here.

use vstd::prelude::*;
use memmap2::Mmap;
use crate::ivf_format::{lemma_row_in_bounds, le_u32_at, open_result, parse_layout, read_u32, Layout, OpenError};
use crate::nearest::{placeholders, preceding, rank, selected_items, Nearest, UNREACHED_KEY};
use vstd::set_lib::{lemma_int_range, lemma_len_subset, lemma_map_size, set_int_range};

verus! {

/// Sum of the labels in `s`.
pub open spec fn label_sum(s: Seq<u8>) -> int
    decreases s.len(),
{
    if s.len() == 0 {
        0
    } else {
        label_sum(s.drop_last()) + s.last() as int
    }
}

proof fn lemma_label_sum_bounds(s: Seq<u8>)
    ensures
        0 <= label_sum(s) <= 255 * s.len(),
        (forall|i: int| 0 <= i < s.len() ==> s[i] <= 1) ==> label_sum(s) <= s.len(),
    decreases s.len(),
{
    if s.len() > 0 {
        lemma_label_sum_bounds(s.drop_last());
    }
}

/// Entry `i` of `keys` paired with cluster number `i`.
pub open spec fn centroid_entries(keys: Seq<u32>) -> Seq<(u32, usize)> {
    Seq::new(keys.len(), |i: int| (keys[i], i as usize))
}

/// How many clusters a search visits: `nprobe`, at most `k`.
pub open spec fn probe_count(nprobe: usize, k: nat) -> nat {
    if nprobe < k {
        nprobe as nat
    } else {
        k
    }
}

/// The clusters ahead of cluster `c` when clusters are ordered by key, ties
/// going to the lower cluster number.
pub open spec fn clusters_ahead(keys: Seq<u32>, c: int) -> Set<int> {
    Set::new(|j: int| 0 <= j < keys.len() && (keys[j] < keys[c] || (keys[j] == keys[c] && j < c)))
}

/// Position of cluster `c` in that order.
pub open spec fn cluster_rank(keys: Seq<u32>, c: int) -> nat {
    clusters_ahead(keys, c).len()
}

/// The probe list has `min(nprobe, k)` slots, and a cluster whose key is
/// below `UNREACHED_KEY` and that has fewer than `min(nprobe, k)` clusters
/// ahead of it is probed, in the slot given by how many clusters are ahead
/// of it.
pub proof fn lemma_probed_clusters(keys: Seq<u32>, nprobe: usize, c: int)
    requires
        0 <= c < keys.len(),
        keys[c] < UNREACHED_KEY,
        cluster_rank(keys, c) < (if nprobe < keys.len() { nprobe as nat } else { keys.len() }),
    ensures
        ({
            let m = probe_count(nprobe, keys.len());
            let s = selected_items(placeholders(m, NO_CLUSTER) + centroid_entries(keys), m);
            &&& s.len() == (if nprobe < keys.len() { nprobe as nat } else { keys.len() })
            &&& s[cluster_rank(keys, c) as int] == c as usize
        }),
{
    let k = keys.len() as int;
    let m = probe_count(nprobe, keys.len());
    let base = placeholders(m, NO_CLUSTER);
    let ce = centroid_entries(keys);
    let h = base + ce;
    let i = m + c;
    let ahead = clusters_ahead(keys, c);
    let f = |j: int| j + m;
    lemma_int_range(0, k);
    assert(ahead.subset_of(set_int_range(0, k)));
    lemma_len_subset(ahead, set_int_range(0, k));
    assert(ahead.map(f) =~= preceding(h, i)) by {
        assert forall|x: int| preceding(h, i).contains(x) implies ahead.map(f).contains(x) by {
            if x < m {
                assert(h[x].0 == UNREACHED_KEY);
            }
            assert(h[x] == ce[x - m]);
            assert(ahead.contains(x - m));
            assert(f(x - m) == x);
        }
        assert forall|x: int| ahead.map(f).contains(x) implies preceding(h, i).contains(x) by {
            let j = choose|j: int| ahead.contains(j) && x == f(j);
            assert(h[x] == ce[j]);
            assert(h[i] == ce[c]);
        }
    }
    lemma_map_size(ahead, preceding(h, i), f);
    let q = cluster_rank(keys, c);
    assert(rank(h, i) == q);
    let w = choose|w: int| 0 <= w < h.len() && rank(h, w) == q;
    assert(0 <= i < h.len() && rank(h, i) == q);
    if w != i {
        crate::nearest::lemma_rank_injective(h, w, i);
    }
    assert(h[i] == ce[c]);
}

/// The clusters to visit: the `min(nprobe, k)` clusters whose keys come
/// first (ties to the lower cluster number); a slot that no cluster with a
/// key below `UNREACHED_KEY` reaches holds `NO_CLUSTER`.
pub fn nearest_clusters(centroid_keys: &[u32], nprobe: usize) -> (r: Vec<usize>)
    requires
        nprobe > 0 || centroid_keys@.len() == 0,
    ensures
        r@ == selected_items(
            placeholders(probe_count(nprobe, centroid_keys@.len()), NO_CLUSTER) + centroid_entries(
                centroid_keys@,
            ),
            probe_count(nprobe, centroid_keys@.len()),
        ),
        forall|t: int|
            0 <= t < r@.len() ==> #[trigger] r@[t] == NO_CLUSTER || r@[t] < centroid_keys@.len(),
        forall|t1: int, t2: int|
            0 <= t1 < r@.len() && 0 <= t2 < r@.len() && t1 != t2 && r@[t1] != NO_CLUSTER ==> #[trigger] r@[t1]
                != #[trigger] r@[t2],
        (forall|i: int| 0 <= i < centroid_keys@.len() ==> #[trigger] centroid_keys@[i] < UNREACHED_KEY)
            ==> forall|t: int| 0 <= t < r@.len() ==> #[trigger] r@[t] != NO_CLUSTER,
        r@.len() == (if nprobe < centroid_keys@.len() { nprobe as nat } else { centroid_keys@.len() }),
        forall|c: int|
            0 <= c < centroid_keys@.len() && centroid_keys@[c] < UNREACHED_KEY && #[trigger] cluster_rank(
                centroid_keys@,
                c,
            ) < r@.len() ==> r@[cluster_rank(centroid_keys@, c) as int] == c,
{
    let k = centroid_keys.len();
    let np = if nprobe < k {
        nprobe
    } else {
        k
    };
    let ghost base = placeholders(np as nat, NO_CLUSTER);
    let mut sel: Nearest<usize> = Nearest::new(np, NO_CLUSTER);
    let mut ci: usize = 0;
    while ci < k
        invariant
            ci <= k,
            k == centroid_keys@.len(),
            np == probe_count(nprobe, k as nat),
            ci > 0 ==> np > 0,
            k > 0 ==> np > 0,
            sel.wf(),
            sel.capacity() == np,
            sel.history() == base + centroid_entries(centroid_keys@.subrange(0, ci as int)),
        decreases k - ci,
    {
        sel.offer(centroid_keys[ci], ci);
        assert(centroid_entries(centroid_keys@.subrange(0, ci + 1)) =~= centroid_entries(
            centroid_keys@.subrange(0, ci as int),
        ).push((centroid_keys@[ci as int], ci)));
        ci += 1;
    }
    assert(centroid_keys@.subrange(0, k as int) =~= centroid_keys@);
    let ghost sel0 = sel;
    let r = sel.into_items();
    proof {
        let sel = sel0;
        let h = base + centroid_entries(centroid_keys@);
        assert forall|t: int| 0 <= t < r@.len() implies #[trigger] r@[t] == NO_CLUSTER || r@[t]
            < centroid_keys@.len() by {
            let i = sel.source_of(t);
            if i >= base.len() {
                assert(h[i] == centroid_entries(centroid_keys@)[i - base.len()]);
            }
        }
        if forall|i: int| 0 <= i < centroid_keys@.len() ==> #[trigger] centroid_keys@[i] < UNREACHED_KEY {
            assert forall|t: int| 0 <= t < r@.len() implies #[trigger] r@[t] != NO_CLUSTER by {
                let i = sel.source_of(t);
                if i < base.len() {
                    // Every cluster entry comes before placeholder `i`, so its
                    // rank is at least `k`, above every slot.
                    let cluster_idx = set_int_range(base.len() as int, h.len() as int);
                    assert forall|j: int| cluster_idx.contains(j) implies preceding(h, i).contains(j) by {
                        assert(h[j] == centroid_entries(centroid_keys@)[j - base.len()]);
                    }
                    crate::nearest::lemma_rank_bounds(h, i);
                    lemma_int_range(base.len() as int, h.len() as int);
                    lemma_len_subset(cluster_idx, preceding(h, i));
                    assert(rank(h, i) >= k);
                }
                else {
                    assert(h[i] == centroid_entries(centroid_keys@)[i - base.len()]);
                }
            }
        }
        assert forall|t1: int, t2: int|
            0 <= t1 < r@.len() && 0 <= t2 < r@.len() && t1 != t2 && r@[t1] != NO_CLUSTER implies #[trigger] r@[t1]
                != #[trigger] r@[t2] by {
            let i1 = sel.source_of(t1);
            let i2 = sel.source_of(t2);
            assert(i1 != i2);
            if i1 < base.len() {
                assert(h[i1].1 == NO_CLUSTER);
            } else {
                assert(h[i1] == centroid_entries(centroid_keys@)[i1 - base.len()]);
                if i2 >= base.len() {
                    assert(h[i2] == centroid_entries(centroid_keys@)[i2 - base.len()]);
                } else {
                    assert(h[i2].1 == NO_CLUSTER);
                }
            }
        }
    }
    proof {
        assert forall|c: int|
            0 <= c < centroid_keys@.len() && centroid_keys@[c] < UNREACHED_KEY && #[trigger] cluster_rank(
                centroid_keys@,
                c,
            ) < r@.len() implies r@[cluster_rank(centroid_keys@, c) as int] == c by {
            lemma_probed_clusters(centroid_keys@, nprobe, c);
        }
    }
    r
}

/// Number of nearest records whose labels are counted.
pub const K_NEIGHBORS: usize = 5;

/// Marks a probe slot that no cluster filled.
pub const NO_CLUSTER: usize = usize::MAX;

/// `memmap2::Mmap`, a read-only memory map.
#[verifier::external_type_specification]
#[verifier::external_body]
pub struct ExMmap(Mmap);

/// The bytes that a memory map exposes.
pub uninterp spec fn mmap_contents(m: Mmap) -> Seq<u8>;

/// The byte slice of a `memmap2::Mmap` (its `Deref` to `[u8]`), claimed to
/// be the map's contents. That the contents stay the same for the map's
/// whole life rests on the mapped file not being modified, which
/// `memmap2` leaves to its user.
#[verifier::external_body]
fn mmap_bytes(m: &Mmap) -> (r: &[u8])
    ensures
        r@ == mmap_contents(*m),
{
    &m[..]
}

pub struct Ivf {
    mmap: Mmap,
    layout: Layout,
}

impl Ivf {
    /// The bytes of the index.
    pub closed spec fn bytes(&self) -> Seq<u8> {
        mmap_contents(self.mmap)
    }

    /// The section layout computed when the index was opened.
    pub closed spec fn layout(&self) -> Layout {
        self.layout
    }

    /// The index bytes are a valid index with this layout.
    pub open spec fn wf(&self) -> bool {
        &&& open_result(self.bytes()) == Ok::<Layout, OpenError>(self.layout())
        &&& self.bytes().len() <= usize::MAX
    }

    /// The sections of a valid index, in order, fill it exactly.
    pub proof fn lemma_layout(&self)
        requires
            self.wf(),
        ensures
            ({
                let l = self.layout();
                &&& l.n < 0x1_0000_0000
                &&& l.k < 0x1_0000_0000
                &&& l.dim < 0x1_0000_0000
                &&& l.centroids_off == 16
                &&& l.list_offsets_off == 16 + 4 * (l.k * l.dim)
                &&& l.list_counts_off == l.list_offsets_off + 4 * l.k
                &&& l.vector_data_off == l.list_counts_off + 4 * l.k
                &&& l.labels_off == l.vector_data_off + l.n * l.dim
                &&& self.bytes().len() == l.labels_off + l.n
            }),
    {
        let b = self.bytes();
        let n = le_u32_at(b, 4) as int;
        let k = le_u32_at(b, 8) as int;
        let dim = le_u32_at(b, 12) as int;
        assert(0 <= k * dim) by (nonlinear_arith)
            requires
                0 <= k,
                0 <= dim,
        ;
        assert(0 <= n * dim) by (nonlinear_arith)
            requires
                0 <= n,
                0 <= dim,
        ;
    }

    /// Validates the mapped bytes as an index.
    pub fn open(mmap: Mmap) -> (r: Result<Ivf, OpenError>)
        ensures
            match r {
                Ok(ivf) => ivf.wf() && ivf.bytes() == mmap_contents(mmap),
                Err(e) => open_result(mmap_contents(mmap)) == Err::<Layout, OpenError>(e),
            },
    {
        let bytes = mmap_bytes(&mmap);
        assert(bytes@.len() == bytes.len());
        let layout = match parse_layout(bytes) {
            Ok(l) => l,
            Err(e) => return Err(e),
        };
        Ok(Ivf { mmap, layout })
    }

    /// Number of records.
    pub fn n(&self) -> (r: usize)
        requires
            self.wf(),
        ensures
            r == self.layout().n,
            r == le_u32_at(self.bytes(), 4),
    {
        self.layout.n
    }

    /// Number of clusters.
    pub fn k(&self) -> (r: usize)
        requires
            self.wf(),
        ensures
            r == self.layout().k,
            r == le_u32_at(self.bytes(), 8),
    {
        self.layout.k
    }

    /// Dimensions per record.
    pub fn dim(&self) -> (r: usize)
        requires
            self.wf(),
        ensures
            r == self.layout().dim,
            r == le_u32_at(self.bytes(), 12),
    {
        self.layout.dim
    }

    /// Start of cluster `ci` in the record order (its list offset).
    pub open spec fn list_offset_of(&self, ci: int) -> int {
        le_u32_at(self.bytes(), self.layout().list_offsets_off + 4 * ci) as int
    }

    /// Number of records in cluster `ci`.
    pub open spec fn list_count_of(&self, ci: int) -> int {
        le_u32_at(self.bytes(), self.layout().list_counts_off + 4 * ci) as int
    }

    /// Label of record `pos` (in cluster order).
    pub open spec fn label_of(&self, pos: int) -> u8 {
        self.bytes()[self.layout().labels_off + pos]
    }

    /// Bytes of record `pos` (in cluster order).
    pub open spec fn row_of(&self, pos: int) -> Seq<u8> {
        let l = self.layout();
        self.bytes().subrange(
            l.vector_data_off + pos * l.dim,
            l.vector_data_off + pos * l.dim + l.dim,
        )
    }

    /// Word `i` of the centroid section: the bit pattern of component
    /// `i % dim` of centroid `i / dim`.
    pub fn centroid_word(&self, i: usize) -> (r: u32)
        requires
            self.wf(),
            i < self.layout().k * self.layout().dim,
        ensures
            r == le_u32_at(self.bytes(), self.layout().centroids_off + 4 * i),
    {
        let bytes = mmap_bytes(&self.mmap);
        proof {
            self.lemma_layout();
        }
        read_u32(bytes, self.layout.centroids_off + 4 * i)
    }

    /// First record of cluster `ci`.
    pub fn list_offset(&self, ci: usize) -> (r: u32)
        requires
            self.wf(),
            ci < self.layout().k,
        ensures
            r == self.list_offset_of(ci as int),
    {
        let bytes = mmap_bytes(&self.mmap);
        proof {
            self.lemma_layout();
        }
        read_u32(bytes, self.layout.list_offsets_off + 4 * ci)
    }

    /// Number of records in cluster `ci`.
    pub fn list_count(&self, ci: usize) -> (r: u32)
        requires
            self.wf(),
            ci < self.layout().k,
        ensures
            r == self.list_count_of(ci as int),
    {
        let bytes = mmap_bytes(&self.mmap);
        proof {
            self.lemma_layout();
        }
        read_u32(bytes, self.layout.list_counts_off + 4 * ci)
    }

    /// Label of record `pos`.
    pub fn label(&self, pos: usize) -> (r: u8)
        requires
            self.wf(),
            pos < self.layout().n,
        ensures
            r == self.label_of(pos as int),
    {
        let bytes = mmap_bytes(&self.mmap);
        proof {
            self.lemma_layout();
        }
        bytes[self.layout.labels_off + pos]
    }

    /// Quantized bytes of record `pos`.
    pub fn vector_row(&self, pos: usize) -> (r: &[u8])
        requires
            self.wf(),
            pos < self.layout().n,
        ensures
            r@ == self.row_of(pos as int),
    {
        let bytes = mmap_bytes(&self.mmap);
        proof {
            self.lemma_layout();
            lemma_row_in_bounds(pos as int, self.layout.n as int, self.layout.dim as int);
        }
        let start = self.layout.vector_data_off + pos * self.layout.dim;
        &bytes[start..start + self.layout.dim]
    }

    /// Cluster `ci` exists and its records (if any) lie inside the record
    /// section.
    pub open spec fn cluster_in_bounds_spec(&self, ci: int) -> bool {
        &&& 0 <= ci < self.layout().k
        &&& self.list_count_of(ci) == 0 || self.list_offset_of(ci) + self.list_count_of(ci)
            <= self.layout().n
    }

    /// Whether cluster `ci` exists and its records (if any) lie inside the
    /// record section.
    pub fn cluster_in_bounds(&self, ci: usize) -> (r: bool)
        requires
            self.wf(),
        ensures
            r == self.cluster_in_bounds_spec(ci as int),
    {
        if ci >= self.layout.k {
            return false;
        }
        let start = self.list_offset(ci) as u64;
        let count = self.list_count(ci) as u64;
        count == 0 || start + count <= self.layout.n as u64
    }

    /// The entries offered when scanning cluster `ci` with `keys` as the
    /// keys of its records: each record's key with its label.
    pub open spec fn cluster_entries(&self, ci: int, keys: Seq<u32>) -> Seq<(u32, u8)> {
        Seq::new(keys.len(), |j: int| (keys[j], self.label_of(self.list_offset_of(ci) + j)))
    }

    /// Entries offered by scanning the probed clusters in order, skipping
    /// `NO_CLUSTER` slots; `keys[t]` holds the keys of the records of
    /// cluster `probes[t]`.
    pub open spec fn scan_entries(&self, probes: Seq<usize>, keys: Seq<Vec<u32>>) -> Seq<(u32, u8)>
        decreases probes.len(),
    {
        if probes.len() == 0 {
            Seq::empty()
        } else {
            let t = probes.len() - 1;
            self.scan_entries(probes.drop_last(), keys) + if probes[t] == NO_CLUSTER {
                Seq::empty()
            } else {
                self.cluster_entries(probes[t] as int, keys[t]@)
            }
        }
    }

    /// Every probed cluster is in bounds and comes with one key per record.
    pub open spec fn scan_ready(&self, probes: Seq<usize>, keys: Seq<Vec<u32>>) -> bool {
        &&& probes.len() == keys.len()
        &&& forall|t: int|
            0 <= t < probes.len() && #[trigger] probes[t] != NO_CLUSTER ==> {
                &&& self.cluster_in_bounds_spec(probes[t] as int)
                &&& keys[t]@.len() == self.list_count_of(probes[t] as int)
            }
    }

    proof fn lemma_scan_labels(&self, probes: Seq<usize>, keys: Seq<Vec<u32>>)
        requires
            self.scan_ready(probes, keys),
            forall|p: int| 0 <= p < self.layout().n ==> #[trigger] self.label_of(p) <= 1,
        ensures
            forall|e: int|
                0 <= e < self.scan_entries(probes, keys).len() ==> #[trigger] self.scan_entries(
                    probes,
                    keys,
                )[e].1 <= 1,
        decreases probes.len(),
    {
        if probes.len() > 0 {
            let t = probes.len() - 1;
            let init = probes.drop_last();
            let ikeys = keys.drop_last();
            assert(self.scan_ready(init, ikeys));
            self.lemma_scan_prefix_keys(init, ikeys, keys);
            self.lemma_scan_labels(init, ikeys);
            let s = self.scan_entries(probes, keys);
            let a = self.scan_entries(init, keys);
            assert forall|e: int| 0 <= e < s.len() implies #[trigger] s[e].1 <= 1 by {
                if e < a.len() {
                    assert(s[e] == a[e]);
                } else {
                    let ci = probes[t] as int;
                    let j = e - a.len();
                    let p = self.list_offset_of(ci) + j;
                    assert(probes[t] != NO_CLUSTER);
                    assert(self.cluster_in_bounds_spec(ci));
                    assert(s[e] == self.cluster_entries(ci, keys[t]@)[j]);
                    assert(s[e].1 == self.label_of(p));
                }
            }
        }
    }

    proof fn lemma_scan_prefix_keys(
        &self,
        probes: Seq<usize>,
        keys_a: Seq<Vec<u32>>,
        keys_b: Seq<Vec<u32>>,
    )
        requires
            probes.len() <= keys_a.len(),
            probes.len() <= keys_b.len(),
            forall|t: int| 0 <= t < probes.len() ==> keys_a[t] == keys_b[t],
        ensures
            self.scan_entries(probes, keys_a) == self.scan_entries(probes, keys_b),
        decreases probes.len(),
    {
        if probes.len() > 0 {
            self.lemma_scan_prefix_keys(probes.drop_last(), keys_a, keys_b);
        }
    }

    /// Counts the fraud labels among the `K_NEIGHBORS` records nearest to
    /// the query. `probes` are the clusters to visit (as `nearest_clusters`
    /// gives them) and `keys[t]` the distance keys of the records of cluster
    /// `probes[t]`. The records are offered in that order to a selection that
    /// starts with `K_NEIGHBORS` placeholder entries labelled 0, and the
    /// labels of the selection are summed.
    pub fn search_fraud_count(&self, probes: &Vec<usize>, keys: &Vec<Vec<u32>>) -> (r: u32)
        requires
            self.wf(),
            self.scan_ready(probes@, keys@),
        ensures
            r == label_sum(
                selected_items(
                    placeholders(K_NEIGHBORS as nat, 0u8) + self.scan_entries(probes@, keys@),
                    K_NEIGHBORS as nat,
                ),
            ),
            r == label_sum(
                selected_items(placeholders(5nat, 0u8) + self.scan_entries(probes@, keys@), 5nat),
            ),
            (forall|p: int| 0 <= p < self.layout().n ==> #[trigger] self.label_of(p) <= 1) ==> r
                <= 5,
    {
        let ghost base = placeholders(K_NEIGHBORS as nat, 0u8);
        let mut sel: Nearest<u8> = Nearest::new(K_NEIGHBORS, 0u8);
        let mut t: usize = 0;
        while t < probes.len()
            invariant
                t <= probes@.len(),
                self.wf(),
                self.scan_ready(probes@, keys@),
                sel.wf(),
                sel.capacity() == K_NEIGHBORS,
                sel.history() == base + self.scan_entries(probes@.subrange(0, t as int), keys@),
            decreases probes@.len() - t,
        {
            let ci = probes[t];
            let ghost before = sel.history();
            if ci != NO_CLUSTER {
                assert(self.cluster_in_bounds_spec(ci as int));
                let start = self.list_offset(ci) as usize;
                let count = self.list_count(ci) as usize;
                let ks = &keys[t];
                let mut j: usize = 0;
                while j < count
                    invariant
                        j <= count,
                        self.wf(),
                        self.cluster_in_bounds_spec(ci as int),
                        start == self.list_offset_of(ci as int),
                        count == self.list_count_of(ci as int),
                        ks@.len() == count,
                        sel.wf(),
                        sel.capacity() == K_NEIGHBORS,
                        sel.history() == before + self.cluster_entries(
                            ci as int,
                            ks@.subrange(0, j as int),
                        ),
                    decreases count - j,
                {
                    let lab = self.label(start + j);
                    sel.offer(ks[j], lab);
                    assert(self.cluster_entries(ci as int, ks@.subrange(0, j + 1))
                        =~= self.cluster_entries(ci as int, ks@.subrange(0, j as int)).push(
                        (ks@[j as int], lab),
                    ));
                    j += 1;
                }
                assert(ks@.subrange(0, count as int) =~= ks@);
            }
            assert(probes@.subrange(0, t + 1).drop_last() =~= probes@.subrange(0, t as int));
            t += 1;
        }
        assert(probes@.subrange(0, probes@.len() as int) =~= probes@);
        let items = sel.items();
        proof {
            if forall|p: int| 0 <= p < self.layout().n ==> #[trigger] self.label_of(p) <= 1 {
                let h = sel.history();
                let sc = self.scan_entries(probes@, keys@);
                self.lemma_scan_labels(probes@, keys@);
                assert forall|q: int| 0 <= q < items@.len() implies items@[q] <= 1 by {
                    let e = sel.source_of(q);
                    assert(0 <= e < h.len());
                    if e >= base.len() {
                        assert(h[e] == sc[e - base.len()]);
                    }
                }
                lemma_label_sum_bounds(items@);
            }
        }
        let mut sum: u32 = 0;
        let mut i: usize = 0;
        while i < items.len()
            invariant
                i <= items@.len(),
                items@.len() == K_NEIGHBORS,
                sum == label_sum(items@.subrange(0, i as int)),
            decreases items@.len() - i,
        {
            proof {
                lemma_label_sum_bounds(items@.subrange(0, i as int));
                assert(items@.subrange(0, i + 1).drop_last() =~= items@.subrange(0, i as int));
            }
            sum = sum + items[i] as u32;
            i += 1;
        }
        assert(items@.subrange(0, K_NEIGHBORS as int) =~= items@);
        sum
    }
}

} // verus!
