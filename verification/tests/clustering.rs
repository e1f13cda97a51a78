use fraud_api::indexer::{number_records, Arithmetic};
use fraud_api::kmeans::{
    draw_first, draw_word, init_kmeans_plus_plus, nearest_centroid, spread, train_k_means, Drawing,
};
use fraud_api::knn::{IvfIndex, Probing, Query, Weighing};
use fraud_api::records::{Dataset, IvfData, Record};
use fraud_api::tuning::{
    count_outcomes, draw_count, draw_place, evaluate, nearest_records, set_apart, split, Confusion,
};
use rand::rngs::StdRng;
use rand::{Rng, SeedableRng};

fn manhattan(v: [u32; 16], w: [u32; 16]) -> u32 {
    let mut sum = 0.0f32;
    for j in 0..14 {
        sum += (f32::from_bits(v[j]) - f32::from_bits(w[j])).abs();
    }
    sum.to_bits()
}

fn sum_of_vectors(v: [u32; 16], w: [u32; 16]) -> [u32; 16] {
    let mut r = v;
    for j in 0..14 {
        r[j] = (f32::from_bits(v[j]) + f32::from_bits(w[j])).to_bits();
    }
    r
}

fn vector_over(v: [u32; 16], n: usize) -> [u32; 16] {
    let mut r = v;
    for j in 0..14 {
        r[j] = (f32::from_bits(v[j]) / n as f32).to_bits();
    }
    r
}

fn add_square(acc: u32, d: u32) -> u32 {
    (f32::from_bits(acc) + f32::from_bits(d) * f32::from_bits(d)).to_bits()
}

fn take_square(left: u32, d: u32) -> u32 {
    (f32::from_bits(left) - f32::from_bits(d) * f32::from_bits(d)).to_bits()
}

fn portion(word: u32, total: u32) -> u32 {
    let share = (word >> 8) as f32 * (1.0 / (1u32 << 24) as f32);
    (share * f32::from_bits(total)).to_bits()
}

fn drawing() -> Drawing<fn(u32, u32) -> u32, fn(u32, u32) -> u32, fn(u32, u32) -> u32> {
    Drawing { add: add_square, take: take_square, portion }
}

fn kernel_of_labels(w: Weighing) -> u32 {
    let value = match w {
        Weighing::Weight(dist) => (-f32::from_bits(dist) * 0.5).exp(),
        Weighing::Sum(a, b) => f32::from_bits(a) + f32::from_bits(b),
        Weighing::Share(a, b) => f32::from_bits(a) / f32::from_bits(b),
    };
    value.to_bits()
}

fn point(x: f32) -> [u32; 16] {
    let mut v = [0u32; 16];
    v[0] = x.to_bits();
    v
}

fn points(xs: &[f32]) -> Vec<Record> {
    xs.iter().map(|x| Record { vector: point(*x) }).collect()
}

fn first_of(v: &[u32; 16]) -> f32 {
    f32::from_bits(v[0])
}

#[test]
fn the_nearest_centroid_is_found() {
    let centroids = vec![point(1.0), point(5.0), point(5.0), point(9.0)];
    assert_eq!(nearest_centroid(point(4.0), &centroids, &manhattan), 1);
    assert_eq!(nearest_centroid(point(5.0), &centroids, &manhattan), 1);
    assert_eq!(nearest_centroid(point(100.0), &centroids, &manhattan), 3);
    assert_eq!(nearest_centroid(point(3.0), &centroids, &manhattan), 0);
    assert_eq!(nearest_centroid(point(f32::INFINITY), &centroids, &manhattan), 0);
    assert_eq!(nearest_centroid(point(1.0), &vec![], &manhattan), 0);
}

#[test]
fn centroids_move_to_the_means() {
    let records = points(&[0.0, 2.0, 10.0, 14.0]);
    let mut centroids = vec![point(1.0), point(11.0), point(1000.0)];
    let mut assignments = vec![7; 4];
    train_k_means(
        &records,
        &mut centroids,
        &mut assignments,
        1,
        &manhattan,
        &sum_of_vectors,
        &vector_over,
    );
    assert_eq!(assignments, vec![0, 0, 1, 1]);
    let xs: Vec<f32> = centroids.iter().map(first_of).collect();
    assert_eq!(xs, vec![1.0, 12.0, 1000.0]);
}

#[test]
fn no_round_changes_nothing() {
    let records = points(&[0.0]);
    let mut centroids = vec![point(5.0)];
    let mut assignments = vec![3];
    train_k_means(
        &records,
        &mut centroids,
        &mut assignments,
        0,
        &manhattan,
        &sum_of_vectors,
        &vector_over,
    );
    assert_eq!(assignments, vec![3]);
    assert_eq!(first_of(&centroids[0]), 5.0);
}

#[test]
fn rounds_follow_each_other() {
    let records = points(&[0.0, 1.0, 2.0, 9.0]);
    let mut centroids = vec![point(0.0), point(1.0)];
    let mut assignments = vec![0; 4];
    train_k_means(
        &records,
        &mut centroids,
        &mut assignments,
        5,
        &manhattan,
        &sum_of_vectors,
        &vector_over,
    );
    assert_eq!(assignments, vec![0, 0, 0, 1]);
    let xs: Vec<f32> = centroids.iter().map(first_of).collect();
    assert_eq!(xs, vec![1.0, 9.0]);
}

#[test]
fn far_records_are_drawn() {
    let records = points(&[0.0, 1.0, 10.0]);
    let low = spread(&records, 0, &vec![0], &manhattan, &drawing());
    assert_eq!(low.iter().map(first_of).collect::<Vec<f32>>(), vec![0.0, 0.0]);
    let middle = spread(&records, 0, &vec![1 << 24], &manhattan, &drawing());
    assert_eq!(middle.iter().map(first_of).collect::<Vec<f32>>(), vec![0.0, 1.0]);
    let high = spread(&records, 0, &vec![1 << 31, 1 << 31], &manhattan, &drawing());
    assert_eq!(high.iter().map(first_of).collect::<Vec<f32>>(), vec![0.0, 10.0, 1.0]);
}

#[test]
fn the_start_is_that_of_the_seeded_generator() {
    let xs: Vec<f32> = (0..50).map(|i| i as f32 * 1.5).collect();
    let records = points(&xs);
    let centroids = init_kmeans_plus_plus(&records, 4, &manhattan, &drawing());
    let mut rng = StdRng::seed_from_u64(42);
    let mut expected = vec![xs[rng.gen_range(0..50usize)]];
    let mut dists = vec![f32::MAX; 50];
    for _ in 1..4 {
        for i in 0..50 {
            let d = (xs[i] - expected[expected.len() - 1]).abs();
            if d < dists[i] {
                dists[i] = d;
            }
        }
        let total: f32 = dists.iter().map(|d| d * d).sum();
        let mut threshold = rng.gen::<f32>() * total;
        let mut chosen = 49;
        for (i, d) in dists.iter().enumerate() {
            threshold -= d * d;
            if threshold <= 0.0 {
                chosen = i;
                break;
            }
        }
        expected.push(xs[chosen]);
    }
    assert_eq!(centroids.iter().map(first_of).collect::<Vec<f32>>(), expected);
}

#[test]
fn without_records_the_centroids_are_zero() {
    let centroids = init_kmeans_plus_plus(&[], 3, &manhattan, &drawing());
    assert_eq!(centroids, vec![[0; 16]; 3]);
}

#[test]
fn a_built_index_finds_every_record() {
    let mut rng = StdRng::seed_from_u64(7);
    let mut vectors = Vec::new();
    let mut frauds = Vec::new();
    for i in 0..300usize {
        let mut v = [0u32; 16];
        for j in 0..14 {
            v[j] = (rng.gen_range(0..1000) as f32).to_bits();
        }
        v[15] = (if i % 3 == 0 { 1.0f32 } else { 0.0 }).to_bits();
        vectors.push(v);
        frauds.push(i % 3 == 0);
    }
    let records = number_records(&vectors);
    let arithmetic = Arithmetic {
        distance: manhattan,
        plus: sum_of_vectors,
        over: vector_over,
        drawing: drawing(),
    };
    let artifacts = arithmetic.build_index(&records);
    assert_eq!(artifacts.dataset.len(), 300 * 64);
    assert_eq!(artifacts.l1_centroids.len(), 256 * 56);
    assert_eq!(artifacts.l2_centroids.len(), 65536 * 56);
    assert_eq!(artifacts.offsets.len(), 65537 * 4);
    let dataset = Dataset::new(&artifacts.dataset);
    let data = IvfData::new(&artifacts.l1_centroids, &artifacts.l2_centroids, &artifacts.offsets);
    let index = IvfIndex::new(data);
    assert!(index.fits_dataset(&dataset));
    assert_eq!(data.offset(65536), 300);
    let mut words: Vec<u32> = (0..300).map(|k| dataset.record(k).vector[15]).collect();
    words.sort();
    assert_eq!(words, records.iter().map(|r| r.vector[15]).collect::<Vec<u32>>());
    for i in 0..300 {
        let query = Query { vector: vectors[i], distance: &manhattan };
        let (approved, score) = index.search(&query, &dataset, Probing::adaptive(), &kernel_of_labels);
        assert_eq!(approved, !frauds[i]);
        assert_eq!(f32::from_bits(score), if frauds[i] { 1.0 } else { 0.0 });
    }
}

#[test]
fn the_places_are_split() {
    let (apart, others) = split(&vec![3, 0, 4, 1, 2], 5, 2);
    assert_eq!(apart, vec![3, 0]);
    assert_eq!(others, vec![1, 2, 4]);
}

#[test]
fn records_are_set_apart_as_the_generator_shuffles() {
    let mut rng = StdRng::seed_from_u64(42);
    let (apart, others) = set_apart(&mut rng, 20, 6);
    assert_eq!(apart.len(), 6);
    let mut all = [apart.clone(), others.clone()].concat();
    all.sort();
    assert_eq!(all, (0..20).collect::<Vec<usize>>());
    assert_ne!(apart, vec![0, 1, 2, 3, 4, 5]);
}

#[test]
fn a_few_places_are_drawn() {
    let mut rng = StdRng::seed_from_u64(42);
    let mut counts = [0usize; 4];
    let mut seen = [false; 14];
    for _ in 0..500 {
        let count = draw_count(&mut rng);
        assert!(1 <= count && count <= 3);
        counts[count as usize] += 1;
        for _ in 0..count {
            seen[draw_place(&mut rng)] = true;
        }
    }
    assert!(counts[1] > 0 && counts[2] > 0 && counts[3] > 0);
    assert_eq!(seen, [true; 14]);
}

#[test]
fn the_generator_is_asked_in_turn() {
    let mut rng = StdRng::seed_from_u64(42);
    let mut same = StdRng::seed_from_u64(42);
    for _ in 0..50 {
        assert_eq!(draw_count(&mut rng), same.gen_range(1..=3));
        assert_eq!(draw_place(&mut rng), same.gen_range(0..14));
        let factor: f32 = rng.gen_range(0.8..1.2);
        assert_eq!(factor, same.gen_range(0.8..1.2));
    }
}

#[test]
fn the_centroids_start_from_what_the_generator_gives() {
    let (rng, first) = draw_first(1000);
    let mut same = StdRng::seed_from_u64(42);
    assert_eq!(first, same.gen_range(0..1000));
    let (rng, word) = draw_word(rng);
    assert_eq!(word, same.gen::<u32>());
    let (_, word) = draw_word(rng);
    assert_eq!(word, same.gen::<u32>());
}

#[test]
fn records_are_judged_by_the_nearest() {
    let fraud = |x: f32| {
        let mut v = point(x);
        v[15] = 1.0f32.to_bits();
        v
    };
    let references = number_records(&vec![fraud(0.0), fraud(1.0), fraud(2.0), point(50.0)]);
    let validation = number_records(&vec![fraud(1.0), point(50.0)]);
    let query = Query { vector: point(1.9), distance: &manhattan };
    let top = nearest_records(&query, &references);
    assert_eq!((top[0].id, top[1].id, top[2].id, top[3].id), (2, 1, 0, 3));
    let results = evaluate(&validation, &references, &manhattan, &kernel_of_labels);
    assert_eq!(results.len(), 2);
    assert!(f32::from_bits(results[0].0) > 0.99);
    assert_eq!(results[0].1, 1);
    assert!(f32::from_bits(results[1].0) < 0.01);
    assert_eq!(results[1].1, 0);
}

#[test]
fn outcomes_are_counted() {
    let results = vec![
        (0.44f32.to_bits(), 1),
        (0.9f32.to_bits(), 1),
        (0.43f32.to_bits(), 1),
        (0.5f32.to_bits(), 0),
        (0.0f32.to_bits(), 0),
    ];
    assert_eq!(
        count_outcomes(&results),
        Confusion {
            true_positives: 2,
            true_negatives: 1,
            false_positives: 1,
            false_negatives: 1,
        }
    );
}
