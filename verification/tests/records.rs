use fraud_api::flat::{build_flat_index, flat_record};
use fraud_api::indexer::number_records;
use fraud_api::layout::{lay_out, lay_out_by_counting};
use fraud_api::records::{
    encode_centroids, encode_records, encode_words, is_fraud, pack, unpack_id, unpack_label,
    Dataset, IvfData, Record,
};

#[test]
fn a_number_and_a_label_are_packed() {
    assert_eq!(pack(0, false), 0);
    assert_eq!(pack(0, true), 1);
    assert_eq!(pack(3, true), 7);
    assert_eq!(unpack_label(7), 1);
    assert_eq!(unpack_id(7), 3);
    let word = pack(0x7fff_ffff, false);
    assert_eq!((unpack_id(word), unpack_label(word)), (0x7fff_ffff, 0));
    assert_eq!(unpack_id(pack(0x8000_0000, true)), 0);
}

#[test]
fn only_the_word_fraud_means_fraud() {
    assert!(is_fraud("fraud"));
    assert!(!is_fraud("legit"));
    assert!(!is_fraud("Fraud"));
    assert!(!is_fraud(""));
    assert!(!is_fraud("fraud "));
}

#[test]
fn words_are_written_little_end_first() {
    assert_eq!(encode_words(&[0x0102_0304, 5]), vec![4, 3, 2, 1, 5, 0, 0, 0]);
}

#[test]
fn records_are_read_back() {
    let mut a = [0u32; 16];
    let mut b = [0u32; 16];
    for j in 0..16 {
        a[j] = 0x1020_3040 + j as u32;
        b[j] = 0xffff_0000 - j as u32;
    }
    let bytes = encode_records(&[Record { vector: a }, Record { vector: b }]);
    assert_eq!(bytes.len(), 128);
    assert_eq!(&bytes[..4], &[0x40, 0x30, 0x20, 0x10]);
    let dataset = Dataset::new(&bytes);
    assert_eq!(dataset.len(), 2);
    assert_eq!(dataset.record(0).vector, a);
    assert_eq!(dataset.record(1).vector, b);
    let cut = Dataset::new(&bytes[..127]);
    assert_eq!(cut.len(), 1);
}

#[test]
fn index_data_is_read_back() {
    let l1 = encode_centroids(&vec![[1; 16]]);
    let l2 = encode_centroids(&vec![[2; 16], [3; 16]]);
    let offsets = encode_words(&[0, 7, 9]);
    let data = IvfData::new(&l1, &l2, &offsets);
    assert_eq!((data.l1_len(), data.l2_len(), data.offsets_len()), (1, 2, 3));
    assert_eq!(data.l1_centroid(0), [1, 1, 1, 1, 1, 1, 1, 1, 1, 1, 1, 1, 1, 1, 0, 0]);
    assert_eq!(data.l2_centroid(1), [3, 3, 3, 3, 3, 3, 3, 3, 3, 3, 3, 3, 3, 3, 0, 0]);
    assert_eq!((data.offset(0), data.offset(1), data.offset(2)), (0, 7, 9));
}

#[test]
fn a_centroid_is_stored_as_its_features() {
    let mut centroid = [0u32; 16];
    for j in 0..16 {
        centroid[j] = 100 + j as u32;
    }
    let bytes = encode_centroids(&vec![[5; 16], centroid]);
    assert_eq!(bytes.len(), 112);
    assert_eq!(&bytes[52..60], &[5, 0, 0, 0, 100, 0, 0, 0]);
    assert_eq!(&bytes[108..112], &[113, 0, 0, 0]);
    let data = IvfData::new(&bytes, &bytes[..111], &[]);
    assert_eq!((data.l1_len(), data.l2_len()), (2, 1));
    let read = data.l1_centroid(1);
    assert_eq!(&read[..14], &centroid[..14]);
    assert_eq!((read[14], read[15]), (0, 0));
    assert_eq!(IvfData::new(&vec![0; 64], &vec![0; 448], &[]).l1_len(), 1);
    assert_eq!(IvfData::new(&vec![0; 64], &vec![0; 448], &[]).l2_len(), 8);
}

#[test]
fn records_are_numbered_and_labelled() {
    let mut fraud = [9u32; 16];
    fraud[15] = 1.0f32.to_bits();
    let mut half = [8u32; 16];
    half[15] = 0.5f32.to_bits();
    let mut above = [7u32; 16];
    above[15] = 0.51f32.to_bits();
    let records = number_records(&vec![fraud, half, above]);
    assert_eq!(records[0].vector[14], 9);
    assert_eq!(records[0].vector[15], 1);
    assert_eq!(records[1].vector[0], 8);
    assert_eq!(records[1].vector[15], 2);
    assert_eq!(records[2].vector[15], 5);
}

#[test]
fn records_are_laid_out_by_cluster_and_keep_their_order() {
    let (offsets, order) = lay_out(&vec![2, 0, 2, 1, 0], 4);
    assert_eq!(offsets, vec![0, 2, 3, 5, 5]);
    assert_eq!(order, vec![1, 4, 3, 0, 2]);
    let (offsets, order) = lay_out(&vec![], 2);
    assert_eq!(offsets, vec![0, 0, 0]);
    assert_eq!(order, Vec::<usize>::new());
}

#[test]
fn counting_gives_the_same_layout() {
    let (offsets, order) = lay_out_by_counting(&vec![2, 0, 2, 1, 0], 4);
    assert_eq!(offsets, vec![0, 2, 3, 5, 5]);
    assert_eq!(order, vec![1, 4, 3, 0, 2]);
}

#[test]
fn a_flat_record_ends_with_its_label() {
    let mut vector = [0u32; 14];
    vector[0] = 0x3f80_0000;
    vector[13] = 7;
    let record = flat_record(&vector, true);
    assert_eq!(record.vector[0], 0x3f80_0000);
    assert_eq!(record.vector[13], 7);
    let bytes = encode_records(&[record]);
    assert_eq!(&bytes[56..64], &[1, 0, 0, 0, 0, 0, 0, 0]);
    assert_eq!(flat_record(&vector, false).vector[14], 0);
}

fn squared(v: [u32; 16], w: [u32; 16]) -> u32 {
    let mut sum = 0.0f32;
    for j in 0..14 {
        let d = f32::from_bits(v[j]) - f32::from_bits(w[j]);
        sum += d * d;
    }
    sum.to_bits()
}

#[test]
fn a_flat_index_lists_the_records_of_each_centroid() {
    let mut records = Vec::new();
    for i in 0..600u32 {
        let mut vector = [0u32; 14];
        vector[0] = (i as f32).to_bits();
        records.push(flat_record(&vector, i % 2 == 1));
    }
    let index = build_flat_index(&records, &squared);
    assert_eq!(index.centroids.len(), 256);
    assert_eq!(f32::from_bits(index.centroids[3][0]), 6.0);
    assert_eq!(index.offsets.len(), 257);
    assert_eq!(index.offsets[256], 600);
    assert_eq!(index.offsets[1], 2);
    assert_eq!(&index.indices[..4], &[0, 1, 2, 3]);
    let mut all = index.indices.clone();
    all.sort();
    assert_eq!(all, (0..600).collect::<Vec<u32>>());
    assert_eq!(encode_centroids(&index.centroids).len(), 256 * 56);
    let features = encode_centroids(&vec![[5u32; 16]]);
    assert_eq!(features.len(), 56);
    assert_eq!(features[52], 5);
}

#[test]
fn a_flat_index_of_few_records_has_one_centroid_only() {
    let records = vec![flat_record(&[0; 14], false), flat_record(&[1; 14], true)];
    let index = build_flat_index(&records, &squared);
    assert!(index.centroids.iter().all(|c| c[0] == 0));
    assert_eq!(index.offsets[1], 2);
    assert_eq!(index.offsets[256], 2);
    assert_eq!(index.indices, vec![0, 1]);
}
