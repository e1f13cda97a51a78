use fraud_api::knn::{
    calculate_fraud_score_weighted, score_of, IvfIndex, Probing, Query, Weighing, EXACT,
};
use fraud_api::records::{
    encode_centroids, encode_records, encode_words, pack, Dataset, IvfData, Record,
};
use fraud_api::top_k::{new_top_k, update_top_k_packed, Neighbor, FAR};

fn distance(v: [u32; 16], w: [u32; 16]) -> u32 {
    let mut sum = 0.0f32;
    for j in 0..14 {
        sum += (f32::from_bits(v[j]) - f32::from_bits(w[j])).abs();
    }
    sum.to_bits()
}

fn kernel(w: Weighing) -> u32 {
    let value = match w {
        Weighing::Weight(dist) => (-f32::from_bits(dist) * 0.5).exp(),
        Weighing::Sum(a, b) => f32::from_bits(a) + f32::from_bits(b),
        Weighing::Share(a, b) => f32::from_bits(a) / f32::from_bits(b),
    };
    value.to_bits()
}

fn at(x: f32) -> [u32; 16] {
    let mut v = [0u32; 16];
    v[0] = x.to_bits();
    v
}

fn record(x: f32, id: usize, fraud: bool) -> Record {
    let mut v = at(x);
    v[15] = pack(id, fraud);
    Record { vector: v }
}

// Cluster c has its centroid at c; the records are spread over the clusters by their places.
fn index(records: &[(f32, bool)]) -> (Vec<u8>, Vec<u8>, Vec<u8>, Vec<u8>) {
    let l1: Vec<[u32; 16]> = (0..256).map(|c| at((c * 256 + 128) as f32)).collect();
    let l2: Vec<[u32; 16]> = (0..65536).map(|c| at(c as f32)).collect();
    let mut sorted: Vec<(f32, bool)> = records.to_vec();
    sorted.sort_by(|a, b| a.0.partial_cmp(&b.0).unwrap());
    let stored: Vec<Record> =
        sorted.iter().enumerate().map(|(i, r)| record(r.0, i, r.1)).collect();
    let mut offsets = Vec::new();
    for c in 0..65537u32 {
        offsets.push(sorted.iter().filter(|r| r.0.round() < c as f32).count() as u32);
    }
    (
        encode_records(&stored),
        encode_centroids(&l1),
        encode_centroids(&l2),
        encode_words(&offsets),
    )
}

fn outcome(records: &[(f32, bool)], query: f32, probing: Probing) -> (bool, f32) {
    let (dataset, l1, l2, offsets) = index(records);
    let index = IvfIndex::new(IvfData::new(&l1, &l2, &offsets));
    let dataset = Dataset::new(&dataset);
    assert!(index.fits_dataset(&dataset));
    let query = Query { vector: at(query), distance: &distance };
    let (approved, score) = index.search(&query, &dataset, probing, &kernel);
    assert_eq!(index.try_search(&query, &dataset, probing, &kernel), Some((approved, score)));
    (approved, f32::from_bits(score))
}

#[test]
fn the_widths_are_known() {
    let s = Probing::standard();
    assert_eq!((s.l1, s.l2, s.extended), (8, 32, 32));
    let a = Probing::adaptive();
    assert_eq!((a.l1, a.l2, a.extended), (16, 256, 512));
    assert!(s.is_wf() && a.is_wf());
    assert!(!Probing { l1: 256, l2: 1, extended: 1 }.is_wf());
    assert!(!Probing { l1: 1, l2: 1, extended: 256 }.is_wf());
    assert!(!Probing { l1: 1, l2: 2, extended: 1 }.is_wf());
}

#[test]
fn an_exact_neighbour_decides() {
    let records = [(1000.0, true), (1000.2, false), (1001.0, false)];
    assert_eq!(outcome(&records, 1000.01, Probing::standard()), (false, 1.0));
    assert_eq!(outcome(&records, 1000.19, Probing::standard()), (true, 0.0));
    assert_eq!(outcome(&records, 1000.01, Probing::adaptive()), (false, 1.0));
}

#[test]
fn the_neighbours_are_weighed() {
    let records = [(1000.0, true), (1002.0, false)];
    let (approved, score) = outcome(&records, 1001.0, Probing::standard());
    assert!(!approved);
    assert_eq!(score, 0.5);
    let records = [(1000.0, true), (1001.5, false), (1001.6, false)];
    let (approved, score) = outcome(&records, 1001.0, Probing::standard());
    assert!(approved);
    let (a, b, c) = ((-0.5f32).exp(), (-0.25f32).exp(), (-0.3f32).exp());
    assert!((score - a / (a + b + c)).abs() < 1e-3);
}

#[test]
fn without_neighbours_the_query_is_approved() {
    assert_eq!(outcome(&[(60000.0, true)], 1000.0, Probing::standard()), (true, 0.0));
}

#[test]
fn a_remote_record_is_found_only_if_the_search_goes_on() {
    let records = [(1200.0, true)];
    let narrow = Probing { l1: 8, l2: 32, extended: 32 };
    let wide = Probing { l1: 8, l2: 32, extended: 512 };
    assert_eq!(outcome(&records, 1000.0, narrow), (true, 0.0));
    let (approved, score) = outcome(&records, 1000.0, wide);
    assert_eq!((approved, score), (false, 1.0));
}

#[test]
fn records_elsewhere_do_not_matter() {
    let near = [(1000.5, true), (1001.5, false), (1002.5, false)];
    let first = [near[0], near[1], near[2], (60000.0, false), (61000.0, true)];
    let second = [near[0], near[1], near[2], (60000.0, true), (61000.25, false)];
    for probing in [Probing::standard(), Probing::adaptive()] {
        assert_eq!(outcome(&first, 1001.0, probing), outcome(&second, 1001.0, probing));
    }
}

#[test]
fn a_confident_score_ends_the_search() {
    let mut records = vec![(1000.5, false), (1000.6, false)];
    records.push((1040.0, true));
    let wide = Probing { l1: 8, l2: 16, extended: 512 };
    assert_eq!(outcome(&records, 1001.0, wide), (true, 0.0));
}

#[test]
fn an_index_that_does_not_fit_gives_no_outcome() {
    let (dataset, l1, l2, offsets) = index(&[(1000.0, true), (1001.0, true)]);
    let query = Query { vector: at(1000.0), distance: &distance };
    let whole = Dataset::new(&dataset);
    let fine = IvfIndex::new(IvfData::new(&l1, &l2, &offsets));
    assert!(fine.fits_dataset(&whole));
    let less = Dataset::new(&dataset[..64]);
    assert!(!fine.fits_dataset(&less));
    let far = Query { vector: at(1300.0), distance: &distance };
    assert!(fine.try_search(&far, &less, Probing::standard(), &kernel).is_none());
    let few = IvfIndex::new(IvfData::new(&l1[..56 * 255], &l2, &offsets));
    assert!(!few.fits_dataset(&whole));
    assert!(few.try_search(&query, &whole, Probing::standard(), &kernel).is_none());
    let low = IvfIndex::new(IvfData::new(&l1, &l2[..56 * 256], &offsets));
    assert!(!low.fits_dataset(&whole));
    assert!(low.try_search(&query, &whole, Probing::standard(), &kernel).is_none());
    let short = IvfIndex::new(IvfData::new(&l1, &l2, &offsets[..4]));
    assert!(!short.fits_dataset(&whole));
    assert!(short.try_search(&query, &whole, Probing::standard(), &kernel).is_none());
}

#[test]
fn the_bits_of_numbers_are_ordered_as_the_numbers() {
    assert_eq!(fraud_api::knn::EXACT, 0.05f32.to_bits());
    assert_eq!(fraud_api::knn::REMOTE, 1.5f32.to_bits());
    assert_eq!(fraud_api::knn::CONFIDENT_LOW, 0.38f32.to_bits());
    assert_eq!(fraud_api::knn::CONFIDENT_HIGH, 0.50f32.to_bits());
    assert_eq!(fraud_api::knn::APPROVAL_THRESHOLD, 0.44f32.to_bits());
    assert_eq!(fraud_api::knn::CERTAIN, 1.0f32.to_bits());
    assert!(0.05f32.to_bits() < 1.5f32.to_bits());
    assert!(1.5f32.to_bits() < FAR);
}

#[test]
fn agreeing_neighbours_have_a_plain_score() {
    let mut top = new_top_k();
    for k in 0..5 {
        update_top_k_packed(&mut top, (1.0 + k as f32).to_bits(), pack(k, true));
    }
    assert_eq!(f32::from_bits(score_of(&kernel, &top, 5)), 1.0);
    assert_eq!(score_of(&kernel, &top, 0), 0);
    let mut top = new_top_k();
    update_top_k_packed(&mut top, 1.0f32.to_bits(), pack(0, false));
    assert_eq!(score_of(&kernel, &top, 1), 0);
    let mut mixed = new_top_k();
    update_top_k_packed(&mut mixed, 1.0f32.to_bits(), pack(0, false));
    update_top_k_packed(&mut mixed, 3.0f32.to_bits(), pack(1, true));
    let (a, b) = ((-0.5f32).exp(), (-1.5f32).exp());
    assert_eq!(f32::from_bits(score_of(&kernel, &mixed, 2)), b / (a + b));
}

#[test]
fn neighbours_behind_an_empty_place_are_scored_too() {
    let mut top = new_top_k();
    top[0] = Neighbor { dist: 1.0f32.to_bits(), label: 0, id: 1 };
    top[2] = Neighbor { dist: 3.0f32.to_bits(), label: 1, id: 2 };
    let (a, b) = ((-0.5f32).exp(), (-1.5f32).exp());
    let (approved, score) = calculate_fraud_score_weighted(top, &kernel);
    assert_eq!(f32::from_bits(score), b / (a + b));
    assert!(approved);
    let mut late = new_top_k();
    late[6] = Neighbor { dist: 1.0f32.to_bits(), label: 1, id: 3 };
    assert_eq!(calculate_fraud_score_weighted(late, &kernel), (false, 1.0f32.to_bits()));
    assert_eq!(calculate_fraud_score_weighted(new_top_k(), &kernel), (true, 0));
    let mut exact = new_top_k();
    exact[0] = Neighbor { dist: EXACT - 1, label: 1, id: 3 };
    assert_eq!(calculate_fraud_score_weighted(exact, &kernel), (false, 1.0f32.to_bits()));
}

#[test]
fn records_of_one_label_decide() {
    let near = [1000.5, 1001.75, 1003.0];
    let fraud: Vec<(f32, bool)> = near.iter().map(|&x| (x, true)).collect();
    let legit: Vec<(f32, bool)> = near.iter().map(|&x| (x, false)).collect();
    for probing in [Probing::standard(), Probing::adaptive()] {
        assert_eq!(outcome(&fraud, 1001.0, probing), (false, 1.0));
        assert_eq!(outcome(&legit, 1001.0, probing), (true, 0.0));
    }
    assert_eq!(outcome(&fraud, 40000.0, Probing::standard()), (true, 0.0));
}

#[test]
fn scores_are_between_zero_and_one() {
    let records = [(1000.5, true), (1001.75, false), (1002.5, true), (1004.0, false)];
    for k in 0..20 {
        let (_, score) = outcome(&records, 999.0 + 0.3 * k as f32, Probing::standard());
        assert!((0.0..=1.0).contains(&score));
    }
}
