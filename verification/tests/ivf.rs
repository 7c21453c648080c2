use memmap2::{Mmap, MmapMut};
use rinha_fraud::ivf::{nearest_clusters, Ivf, NO_CLUSTER};
use rinha_fraud::ivf_format::{encode_index, read_u32, OpenError, HEADER_BYTES, MAGIC};

fn quantize(v: f32) -> u8 {
    if v == -1.0 {
        255
    } else if v <= 0.0 {
        0
    } else if v >= 1.0 {
        254
    } else {
        (v * 254.0).round() as u8
    }
}

fn to_mmap(bytes: &[u8]) -> Mmap {
    let mut m = MmapMut::map_anon(bytes.len().max(1)).unwrap();
    m[..bytes.len()].copy_from_slice(bytes);
    let ro = m.make_read_only().unwrap();
    assert!(ro.len() >= bytes.len());
    ro
}

fn fixture_bytes() -> Vec<u8> {
    let centroids: Vec<f32> = vec![0.1, 0.1, 0.1, 0.9, 0.9, 0.9];
    let raw_vecs: Vec<f32> = vec![
        0.10, 0.10, 0.10, //
        0.12, 0.10, 0.11, //
        0.15, 0.13, 0.10, //
        0.90, 0.92, 0.91, //
        0.91, 0.90, 0.92, //
        0.88, 0.92, 0.90,
    ];
    let labels = vec![0_u8, 0, 1, 1, 1, 0];
    let words: Vec<u32> = centroids.iter().map(|c| c.to_bits()).collect();
    let data: Vec<u8> = raw_vecs.iter().map(|v| quantize(*v)).collect();
    encode_index(6, 2, 3, &words, &[0, 3], &[3, 3], &data, &labels)
}

fn fixture() -> Ivf {
    Ivf::open(to_mmap(&fixture_bytes())).unwrap()
}

fn squared_dist_quant(query: &[f32], data: &[u8]) -> f32 {
    let mut d = 0.0_f32;
    for i in 0..query.len() {
        let rv = if data[i] == 255 { -1.0 } else { data[i] as f32 / 254.0 };
        let diff = query[i] - rv;
        d += diff * diff;
    }
    d
}

fn search(ivf: &Ivf, query: &[f32], nprobe: usize) -> u32 {
    let dim = ivf.dim();
    let centroid_keys: Vec<u32> = (0..ivf.k())
        .map(|ci| {
            let mut d = 0.0_f32;
            for j in 0..dim {
                let c = f32::from_bits(ivf.centroid_word(ci * dim + j));
                let diff = query[j] - c;
                d += diff * diff;
            }
            d.to_bits()
        })
        .collect();
    let probes = nearest_clusters(&centroid_keys, nprobe);
    let mut keys = Vec::new();
    for &ci in &probes {
        let mut ks = Vec::new();
        if ci != NO_CLUSTER {
            assert!(ivf.cluster_in_bounds(ci));
            let start = ivf.list_offset(ci) as usize;
            for j in 0..ivf.list_count(ci) as usize {
                ks.push(squared_dist_quant(query, ivf.vector_row(start + j)).to_bits());
            }
        }
        keys.push(ks);
    }
    ivf.search_fraud_count(&probes, &keys)
}

#[test]
fn opens_and_reports_dimensions() {
    let ivf = fixture();
    assert_eq!(ivf.n(), 6);
    assert_eq!(ivf.k(), 2);
    assert_eq!(ivf.dim(), 3);
}

#[test]
fn search_finds_label_count_in_near_cluster() {
    let ivf = fixture();
    let q = [0.10_f32, 0.10, 0.10];
    assert_eq!(search(&ivf, &q, 1), 1);
}

#[test]
fn nprobe_2_blends_both_clusters() {
    let ivf = fixture();
    let q = [0.10_f32, 0.10, 0.10];
    let count = search(&ivf, &q, 2);
    assert!(count >= 1, "got {count}");
    assert!(count <= 5);
    // The three records of cluster 0 (labels 0, 0, 1) and the two nearest of
    // cluster 1 (labels 0 and 1).
    assert_eq!(count, 2);
}

#[test]
fn rejects_bad_magic() {
    let bad = vec![0_u8; HEADER_BYTES];
    assert!(matches!(Ivf::open(to_mmap(&bad)), Err(OpenError::BadMagic { found: 0 })));
}

#[test]
fn rejects_short_and_mis_sized_files() {
    let short = vec![1_u8; 8];
    assert!(matches!(Ivf::open(to_mmap(&short)), Err(OpenError::TooShort { len: 8 })));
    let mut bytes = fixture_bytes();
    bytes.push(0);
    // The anonymous map is sized exactly; compare against the real size.
    match Ivf::open(to_mmap(&bytes)) {
        Err(OpenError::SizeMismatch { actual, expected }) => {
            assert_eq!(actual, bytes.len());
            assert_eq!(expected, (bytes.len() - 1) as u128);
        }
        _ => panic!("expected a size mismatch"),
    }
}

#[test]
fn sections_read_back() {
    let ivf = fixture();
    assert_eq!(ivf.list_offset(0), 0);
    assert_eq!(ivf.list_offset(1), 3);
    assert_eq!(ivf.list_count(1), 3);
    assert_eq!(f32::from_bits(ivf.centroid_word(3)), 0.9);
    assert_eq!(ivf.label(2), 1);
    assert_eq!(ivf.label(5), 0);
    assert_eq!(ivf.vector_row(3), &[229, 234, 231]);
    assert!(ivf.cluster_in_bounds(1));
    assert!(!ivf.cluster_in_bounds(2));
}

#[test]
fn header_is_little_endian() {
    let bytes = fixture_bytes();
    assert_eq!(&bytes[0..4], &[0x01, 0x46, 0x56, 0x49]);
    assert_eq!(read_u32(&bytes, 0), MAGIC);
    assert_eq!(read_u32(&bytes, 4), 6);
    assert_eq!(read_u32(&[0x78, 0x56, 0x34, 0x12, 0], 0), 0x1234_5678);
    assert_eq!(read_u32(&[0, 0xff, 0xff, 0xff, 0xff], 1), u32::MAX);
    assert_eq!(bytes.len(), 16 + 2 * 3 * 4 + 2 * 4 + 2 * 4 + 6 * 3 + 6);
}

#[test]
fn nearest_clusters_orders_by_key() {
    assert_eq!(nearest_clusters(&[30, 10, 20], 2), vec![1, 2]);
    assert_eq!(nearest_clusters(&[30, 10, 20], 5), vec![1, 2, 0]);
    assert_eq!(nearest_clusters(&[30, 0x7f80_0000], 2), vec![0, NO_CLUSTER]);
    assert_eq!(nearest_clusters(&[], 0), Vec::<usize>::new());
}

#[test]
fn fraud_count_of_all_fraud_cluster() {
    // Every label of cluster 1 is read with its own key.
    let ivf = fixture();
    let probes = vec![1];
    let keys = vec![vec![3_u32, 1, 2]];
    // labels of cluster 1 are [1, 1, 0]; all three are kept.
    assert_eq!(ivf.search_fraud_count(&probes, &keys), 2);
    let keys = vec![vec![3_u32, 1, 2]];
    assert_eq!(ivf.search_fraud_count(&vec![NO_CLUSTER], &vec![vec![]]), 0);
    // Keys 1, 2, 3 of cluster 1 (labels 1, 0, 1) come first, then the first
    // two records of cluster 0 (labels 0, 0) win the ties on key 9.
    assert_eq!(ivf.search_fraud_count(&vec![0, 1], &vec![vec![9, 9, 9], keys[0].clone()]), 2);
}
