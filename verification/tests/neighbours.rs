use fraud_api::records::pack;
use fraud_api::top_k::{new_top_k, update_top_k_packed, FAR};

fn bits(x: f32) -> u32 {
    x.to_bits()
}

#[test]
fn no_neighbour_is_far_away() {
    assert_eq!(FAR, f32::MAX.to_bits());
    let top = new_top_k();
    assert!(top.iter().all(|n| n.dist == FAR && n.label == 0 && n.id == 0));
}

#[test]
fn the_nearest_seven_are_kept_in_order() {
    let mut top = new_top_k();
    for (i, d) in [5.0f32, 1.0, 9.0, 3.0, 7.0, 2.0, 8.0, 4.0, 6.0].iter().enumerate() {
        update_top_k_packed(&mut top, bits(*d), pack(i, i % 2 == 1));
    }
    let dists: Vec<f32> = top.iter().map(|n| f32::from_bits(n.dist)).collect();
    assert_eq!(dists, vec![1.0, 2.0, 3.0, 4.0, 5.0, 6.0, 7.0]);
    assert_eq!((top[0].id, top[0].label), (1, 1));
    assert_eq!((top[4].id, top[4].label), (0, 0));
}

#[test]
fn an_equal_distance_comes_behind() {
    let mut top = new_top_k();
    update_top_k_packed(&mut top, bits(1.0), pack(10, false));
    update_top_k_packed(&mut top, bits(1.0), pack(11, false));
    assert_eq!((top[0].id, top[1].id), (10, 11));
}

#[test]
fn the_result_is_the_last_distance() {
    let mut top = new_top_k();
    for k in 0..6 {
        assert_eq!(update_top_k_packed(&mut top, bits(k as f32), 0), FAR);
    }
    assert_eq!(update_top_k_packed(&mut top, bits(9.0), 0), bits(9.0));
    assert_eq!(update_top_k_packed(&mut top, bits(9.0), 2), bits(9.0));
    assert_eq!(update_top_k_packed(&mut top, bits(0.5), 2), bits(5.0));
}

#[test]
fn what_is_no_finite_number_is_never_taken_in() {
    let mut top = new_top_k();
    update_top_k_packed(&mut top, bits(f32::INFINITY), 1);
    update_top_k_packed(&mut top, bits(f32::NAN), 1);
    update_top_k_packed(&mut top, bits(f32::MAX), 1);
    assert!(top.iter().all(|n| n.dist == FAR && n.label == 0));
}
