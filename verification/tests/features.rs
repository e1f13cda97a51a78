use fraud_api::json_lexer::Decimal;
use fraud_api::json_parser::parse_json_payload;
use fraud_api::indexer::{convert_record, Reference};
use fraud_api::vectorizer::{
    is_known_merchant, pack_flags, read_features, vectorize, Feature, Unfit,
};

fn payload(requested_at: &str, last: &str, merchant: &str) -> String {
    format!(
        "{{\"id\":\"tx-1\",\"transaction\":{{\"amount\":10.5,\"installments\":3,\"requested_at\":\"{}\"}},\
         \"customer\":{{\"avg_amount\":20,\"tx_count_24h\":4,\"known_merchants\":[\"A\",\"B\"]}},\
         \"merchant\":{{\"id\":\"{}\",\"mcc\":\"5411\",\"avg_amount\":7}},\
         \"terminal\":{{\"is_online\":true,\"card_present\":false,\"km_from_home\":1.25}},\
         \"last_transaction\":{}}}",
        requested_at, merchant, last
    )
}

// A number for each feature that tells it from the others.
fn tag(feature: Feature<'_>) -> u32 {
    match feature {
        Feature::Amount(d) => 1000 + d.whole.len() as u32,
        Feature::Installments(n) => 2000 + n as u32,
        Feature::AmountRatio(d, e) => 3000 + 10 * d.whole.len() as u32 + e.whole.len() as u32,
        Feature::HourSine(n) => 4000 + n as u32,
        Feature::HourCosine(n) => 5000 + n as u32,
        Feature::DaySine(n) => 6000 + n as u32,
        Feature::DayCosine(n) => 7000 + n as u32,
        Feature::MinutesSinceLast(n) => 8000 + n as u32,
        Feature::KmFromLast(d) => 9000 + d.fraction.len() as u32,
        Feature::KmFromHome(d) => 10000 + d.fraction.len() as u32,
        Feature::TxCount(n) => 11000 + n,
        Feature::Flags(n) => 12000 + n as u32,
        Feature::MerchantAvgAmount(d) => 13000 + d.whole.len() as u32,
    }
}

#[test]
fn each_feature_has_its_place_in_the_vector() {
    let body = payload(
        "2026-03-11T18:45:53Z",
        "{\"timestamp\":\"2026-03-11T14:58:35Z\",\"km_from_current\":18.5}",
        "B",
    );
    let tx = parse_json_payload(body.as_bytes()).unwrap();
    let mut risks = vec![1; 65536];
    risks[5411] = 77;
    assert_eq!(
        vectorize(&tx, &risks, &tag).unwrap(),
        [
            1002, 2003, 3022, 4018, 5018, 6002, 7002, 8227, 9001, 10002, 11004, 12001, 77, 13001, 0, 0
        ]
    );
    let body = payload("2026-03-11T18:45:53Z", "null", "C");
    let tx = parse_json_payload(body.as_bytes()).unwrap();
    let v = vectorize(&tx, &risks, &tag).unwrap();
    assert_eq!((f32::from_bits(v[7]), f32::from_bits(v[8])), (-1.0, -1.0));
    assert_eq!(v[11], 12005);
}

fn reference_tag(feature: Reference) -> u32 {
    match feature {
        Reference::Amount(b) => 100 + (f32::from_bits(b) * 8.0) as u32,
        Reference::HourSine(b) => 200 + (f32::from_bits(b) * 8.0) as u32,
        Reference::HourCosine(b) => 300 + (f32::from_bits(b) * 8.0) as u32,
        Reference::DaySine(b) => 400 + (f32::from_bits(b) * 8.0) as u32,
        Reference::DayCosine(b) => 500 + (f32::from_bits(b) * 8.0) as u32,
        Reference::MinutesSinceLast(b) => 600 + (f32::from_bits(b) * 8.0) as u32,
        Reference::Flags(n) => 700 + n as u32,
    }
}

#[test]
fn each_feature_of_a_reference_has_its_place() {
    let src: [f32; 14] = [
        0.125, 0.25, 0.375, 0.5, 0.625, 0.75, 0.1, 0.2, 0.3, 1.0, 0.5, 0.75, 0.4, 0.6,
    ];
    let v = convert_record(&src.map(f32::to_bits), false, &reference_tag);
    let plain = |k: usize| f32::from_bits(v[k]);
    assert_eq!(v[0], 101);
    assert_eq!((plain(1), plain(2)), (0.25, 0.375));
    assert_eq!((v[3], v[4], v[5], v[6], v[7]), (204, 304, 405, 505, 606));
    assert_eq!((plain(8), plain(9), plain(10)), (0.1, 0.2, 0.3));
    assert_eq!(v[11], 705);
    assert_eq!((plain(12), plain(13)), (0.4, 0.6));
    assert_eq!((v[14], v[15]), (0, 0));
    let v = convert_record(&src.map(f32::to_bits), true, &reference_tag);
    assert_eq!((v[14], plain(13)), (0, 0.6));
    assert_eq!(v[15], 1.0f32.to_bits());
}

fn reference_scale(feature: Reference) -> u32 {
    let value = match feature {
        Reference::HourSine(b) | Reference::DaySine(b) => f32::from_bits(b).sin(),
        Reference::HourCosine(b) | Reference::DayCosine(b) => f32::from_bits(b).cos(),
        Reference::Amount(b) | Reference::MinutesSinceLast(b) => (1.0 + f32::from_bits(b)).ln(),
        Reference::Flags(n) => n as f32 / 7.0,
    };
    value.to_bits()
}

#[test]
fn a_reference_ends_with_its_label() {
    let mut expected = [0.0f32; 16];
    expected[4] = 1.0;
    expected[6] = 1.0;
    let legit = convert_record(&[0; 14], false, &reference_scale).map(f32::from_bits);
    assert_eq!(legit, expected);
    expected[15] = 1.0;
    let fraud = convert_record(&[0; 14], true, &reference_scale).map(f32::from_bits);
    assert_eq!(fraud, expected);
}

#[test]
fn a_reference_without_a_last_transaction_is_marked() {
    let mut src = [0.0f32; 14];
    src[5] = -1.0;
    let v = convert_record(&src.map(f32::to_bits), false, &reference_tag);
    assert_eq!(f32::from_bits(v[7]), -1.0);
    src[5] = -0.0;
    let v = convert_record(&src.map(f32::to_bits), false, &reference_tag);
    assert_eq!(v[7], 600);
    src[5] = f32::NAN;
    let v = convert_record(&src.map(f32::to_bits), false, &reference_tag);
    assert_eq!(f32::from_bits(v[7]), -1.0);
}

#[test]
fn features_are_derived() {
    let body = payload(
        "2026-03-11T18:45:53Z",
        "{\"timestamp\":\"2026-03-11T14:58:35Z\",\"km_from_current\":18.5}",
        "B",
    );
    let tx = parse_json_payload(body.as_bytes()).unwrap();
    let f = read_features(&tx).unwrap_or_else(|_| panic!("no features"));
    assert_eq!(f.amount.whole, b"10");
    assert_eq!(f.installments, 3);
    assert_eq!(f.customer_avg_amount.whole, b"20");
    assert_eq!((f.hour, f.weekday), (18, 2));
    let (minutes, km) = f.since_last.unwrap();
    assert_eq!(minutes, 227);
    assert_eq!((km.whole, km.fraction), (&b"18"[..], &b"5"[..]));
    assert_eq!(f.km_from_home.fraction, b"25");
    assert_eq!(f.tx_count_24h, 4);
    assert_eq!(f.flags, 1);
    assert_eq!(f.mcc, 5411);
    assert_eq!(f.merchant_avg_amount.whole, b"7");
}

#[test]
fn without_a_last_transaction_there_is_no_time_since() {
    let body = payload("2026-03-11T18:45:53Z", "null", "C");
    let tx = parse_json_payload(body.as_bytes()).unwrap();
    let f = read_features(&tx).unwrap_or_else(|_| panic!("no features"));
    assert!(f.since_last.is_none());
    assert_eq!(f.flags, 5);
    assert!(!is_known_merchant(&tx));
}

#[test]
fn a_last_transaction_without_a_distance_is_left_out() {
    let body = payload("2026-03-11T18:45:53Z", "{\"timestamp\":\"x\"}", "A");
    let tx = parse_json_payload(body.as_bytes()).unwrap();
    assert!(read_features(&tx).unwrap_or_else(|_| panic!("no features")).since_last.is_none());
    assert!(is_known_merchant(&tx));
}

#[test]
fn a_transaction_without_a_time_has_no_features() {
    let body = payload("2026-03-11", "null", "A");
    let tx = parse_json_payload(body.as_bytes()).unwrap();
    assert!(vectorize(&tx, &vec![0; 65536], &tag).is_none());
    let body = payload("2026-13-11T18:45:53Z", "null", "A");
    let tx = parse_json_payload(body.as_bytes()).unwrap();
    assert_eq!(read_features(&tx).err(), Some(Unfit::NoTime));
    let body = payload("2026-03-11T18", "{\"timestamp\":\"2026-03-11T18:45\",\"km_from_current\":1}", "A");
    let tx = parse_json_payload(body.as_bytes()).unwrap();
    assert_eq!(read_features(&tx).err(), Some(Unfit::NoTime));
    let body = payload("2026-03-11T18:45", "{\"timestamp\":\"2026\",\"km_from_current\":1}", "A");
    let tx = parse_json_payload(body.as_bytes()).unwrap();
    assert_eq!(read_features(&tx).err(), Some(Unfit::NoTime));
}

#[test]
fn a_time_with_other_bytes_is_out_of_range() {
    let body = payload("2026-03-11T 8:45:53Z", "null", "A");
    let tx = parse_json_payload(body.as_bytes()).unwrap();
    assert_eq!(read_features(&tx).err(), Some(Unfit::OutOfRange));
    let body = payload("2026-03-11T18: 5", "{\"timestamp\":\"2026-03-11T18:45\",\"km_from_current\":1}", "A");
    let tx = parse_json_payload(body.as_bytes()).unwrap();
    assert_eq!(read_features(&tx).err(), Some(Unfit::OutOfRange));
    let body = payload("2026-03-11T18:05", "{\"timestamp\":\"2026-03-11T18: 5\",\"km_from_current\":1}", "A");
    let tx = parse_json_payload(body.as_bytes()).unwrap();
    assert_eq!(read_features(&tx).err(), Some(Unfit::OutOfRange));
}

#[test]
fn the_flags_have_numbers_of_their_own() {
    assert_eq!(pack_flags(false, false, true), 0);
    assert_eq!(pack_flags(true, false, true), 1);
    assert_eq!(pack_flags(false, true, true), 2);
    assert_eq!(pack_flags(true, true, true), 3);
    assert_eq!(pack_flags(false, false, false), 4);
    assert_eq!(pack_flags(true, true, false), 7);
}

fn number(d: &Decimal<'_>) -> f32 {
    let text = format!(
        "{}{}.{}",
        if d.negative { "-" } else { "" },
        String::from_utf8(d.whole.to_vec()).unwrap(),
        String::from_utf8(d.fraction.to_vec()).unwrap()
    );
    text.parse().unwrap()
}

fn angle(part: f32, whole: f32) -> f32 {
    part * 2.0 * std::f32::consts::PI / whole
}

fn logarithm(value: f32, max: f32) -> f32 {
    (1.0 + value).ln() / (1.0 + max).ln()
}

fn transaction_scale(feature: Feature<'_>) -> u32 {
    let value = match feature {
        Feature::Amount(d) => logarithm(number(&d), 10000.0),
        Feature::Installments(n) => n as f32 / 12.0,
        Feature::AmountRatio(d, e) => number(&d) / number(&e) / 10.0,
        Feature::HourSine(n) => angle(n as f32, 24.0).sin(),
        Feature::HourCosine(n) => angle(n as f32, 24.0).cos(),
        Feature::DaySine(n) => angle(n as f32, 7.0).sin(),
        Feature::DayCosine(n) => angle(n as f32, 7.0).cos(),
        Feature::MinutesSinceLast(n) => logarithm(n as f32, 1440.0),
        Feature::KmFromLast(d) | Feature::KmFromHome(d) => number(&d) / 1000.0,
        Feature::TxCount(n) => n as f32 / 20.0,
        Feature::Flags(n) => n as f32 / 7.0,
        Feature::MerchantAvgAmount(d) => number(&d) / 10000.0,
    };
    value.to_bits()
}

fn raw_scale(feature: Reference) -> u32 {
    let value = match feature {
        Reference::Amount(b) => logarithm(f32::from_bits(b) * 10000.0, 10000.0),
        Reference::HourSine(b) => angle(f32::from_bits(b) * 23.0, 24.0).sin(),
        Reference::HourCosine(b) => angle(f32::from_bits(b) * 23.0, 24.0).cos(),
        Reference::DaySine(b) => angle(f32::from_bits(b) * 6.0, 7.0).sin(),
        Reference::DayCosine(b) => angle(f32::from_bits(b) * 6.0, 7.0).cos(),
        Reference::MinutesSinceLast(b) => logarithm(f32::from_bits(b) * 1440.0, 1440.0),
        Reference::Flags(n) => n as f32 / 7.0,
    };
    value.to_bits()
}

#[test]
fn records_and_queries_have_the_same_features() {
    let lasts = [
        ("null", -1.0, -1.0),
        (
            "{\"timestamp\":\"2026-03-11T14:58:35Z\",\"km_from_current\":18.5}",
            227.0 / 1440.0,
            0.0185,
        ),
    ];
    for (last, minutes, km) in lasts {
        let body = payload("2026-03-11T18:45:53Z", last, "C");
        let tx = parse_json_payload(body.as_bytes()).unwrap();
        let mut risks = vec![0.5f32.to_bits(); 65536];
        risks[5411] = 0.25f32.to_bits();
        let query = vectorize(&tx, &risks, &transaction_scale).unwrap().map(f32::from_bits);
        let src: [f32; 14] = [
            10.5 / 10000.0,
            3.0 / 12.0,
            10.5 / 20.0 / 10.0,
            18.0 / 23.0,
            2.0 / 6.0,
            minutes,
            km,
            1.25 / 1000.0,
            4.0 / 20.0,
            1.0,
            0.0,
            1.0,
            0.25,
            7.0 / 10000.0,
        ];
        let record = convert_record(&src.map(f32::to_bits), true, &raw_scale).map(f32::from_bits);
        for k in 0..15 {
            assert!((record[k] - query[k]).abs() < 1e-5, "place {}: {} {}", k, record[k], query[k]);
        }
    }
}
