use memmap2::MmapMut;
use rinha_fraud::ivf::Ivf;
use rinha_fraud::ivf_format::encode_index;
use rinha_fraud::kmeans::count_assignments;
use rinha_fraud::preprocess::{
    group_by_cluster, parse_records, read_label_field, read_vector_field, scan_record, RecordAt, RecordScan,
};

fn spans_text(b: &[u8], spans: &[(usize, usize)]) -> Vec<String> {
    spans.iter().map(|&(s, e)| String::from_utf8(b[s..e].to_vec()).unwrap()).collect()
}

const RECORD: &str = "[{\"vector\": [0.01, 0.0833, 0.05, 0.8261, 0.1667, -1, -1, 0.0432, 0.25, 0, 1, 0, 0.2, 0.0041], \"label\": \"fraud\"},\n {\"vector\": [1,2,3,4,5,6,7,8,9,10,11,12,13,14], \"label\": \"legit\"}]";

#[test]
fn reads_label_values() {
    let b = RECORD.as_bytes();
    let (lab, next) = read_label_field(b, 0);
    assert_eq!(lab, 1);
    assert_eq!(&b[next - 7..next], b"\"fraud\"");
    let (lab2, _) = read_label_field(b, next);
    assert_eq!(lab2, 0);
}

#[test]
fn reads_vector_spans() {
    let b = RECORD.as_bytes();
    let (spans, next) = read_vector_field(b, 0);
    assert_eq!(
        spans_text(b, &spans),
        vec!["0.01", "0.0833", "0.05", "0.8261", "0.1667", "-1", "-1", "0.0432", "0.25", "0", "1", "0", "0.2", "0.0041"]
    );
    assert_eq!(b[next - 1], b']');
}

#[test]
fn scans_records_in_order() {
    let b = RECORD.as_bytes();
    let mut i = 0;
    let mut labels = Vec::new();
    let mut firsts = Vec::new();
    loop {
        match scan_record(b, i) {
            RecordScan::End => break,
            RecordScan::Unterminated => panic!("unterminated"),
            RecordScan::Record { spans, label, next } => {
                labels.push(label);
                firsts.push(spans_text(b, &spans[..1])[0].clone());
                i = next;
            }
        }
    }
    assert_eq!(labels, vec![1, 0]);
    assert_eq!(firsts, vec!["0.01".to_string(), "1".to_string()]);
}

#[test]
fn unterminated_label_is_reported() {
    let b = b"{\"vector\": [1,2,3,4,5,6,7,8,9,10,11,12,13,14], \"label\": ";
    assert!(matches!(scan_record(b, 0), RecordScan::Unterminated));
    assert!(matches!(scan_record(b"   ", 0), RecordScan::End));
}

#[test]
fn groups_records_by_cluster() {
    // three records of 2 bytes: clusters 1, 0, 1
    let rows = [10_u8, 11, 20, 21, 30, 31];
    let labels = [1_u8, 0, 1];
    let assignments = [1_u32, 0, 1];
    let counts = [1_u32, 2, 0];
    let g = group_by_cluster(&rows, &labels, &assignments, &counts, 2);
    assert_eq!(g.list_offsets, vec![0, 1, 3]);
    assert_eq!(g.vector_data, vec![20, 21, 10, 11, 30, 31]);
    assert_eq!(g.labels, vec![0, 1, 1]);
}

#[test]
fn parse_records_finds_every_record() {
    let b = RECORD.as_bytes();
    let recs = parse_records(b, 10).unwrap();
    assert_eq!(recs.len(), 2);
    assert_eq!(recs[0], RecordAt { vector_start: 2, label: 1 });
    assert_eq!(recs[1].label, 0);
    let (spans, _) = read_vector_field(b, recs[1].vector_start);
    assert_eq!(spans_text(b, &spans)[13], "14");
    // The limit stops early.
    assert_eq!(parse_records(b, 1).unwrap().len(), 1);
    assert_eq!(parse_records(b"no records here", 5).unwrap().len(), 0);
    let bad = b"{\"vector\": [1,2,3,4,5,6,7,8,9,10,11,12,13,14], \"label\": ";
    assert!(parse_records(bad, 5).is_none());
}

#[test]
fn grouped_index_reads_back_each_cluster() {
    // five records of 3 bytes in clusters 2, 0, 2, 1, 0
    let rows: Vec<u8> = (0..15).collect();
    let labels = vec![1_u8, 0, 0, 1, 1];
    let assignments = vec![2_u32, 0, 2, 1, 0];
    let counts = count_assignments(&assignments, 3);
    assert_eq!(counts, vec![2, 1, 2]);
    assert_eq!(counts.iter().sum::<u32>(), 5);
    let g = group_by_cluster(&rows, &labels, &assignments, &counts, 3);
    let words = vec![0_u32; 9];
    let bytes = encode_index(5, 3, 3, &words, &g.list_offsets, &counts, &g.vector_data, &g.labels);
    let mut m = MmapMut::map_anon(bytes.len()).unwrap();
    m.copy_from_slice(&bytes);
    let ivf = Ivf::open(m.make_read_only().unwrap()).unwrap();
    // cluster 0 holds records 1 and 4, cluster 1 record 3, cluster 2 records 0 and 2
    assert_eq!((ivf.list_offset(0), ivf.list_count(0)), (0, 2));
    assert_eq!((ivf.list_offset(1), ivf.list_count(1)), (2, 1));
    assert_eq!((ivf.list_offset(2), ivf.list_count(2)), (3, 2));
    assert_eq!(ivf.vector_row(0), &[3, 4, 5]);
    assert_eq!(ivf.vector_row(1), &[12, 13, 14]);
    assert_eq!(ivf.vector_row(2), &[9, 10, 11]);
    assert_eq!(ivf.vector_row(3), &[0, 1, 2]);
    assert_eq!(ivf.vector_row(4), &[6, 7, 8]);
    let read_labels: Vec<u8> = (0..5).map(|p| ivf.label(p)).collect();
    assert_eq!(read_labels, vec![0, 1, 1, 1, 0]);
}
