use fraud_api::json_lexer::{
    next_key, next_key_in_object, next_str_in_array, parse_bool, parse_decimal, parse_str,
    parse_u16_from_str, parse_u32, skip_spaces, skip_to, skip_value, Decimal, OutOfRange,
};
use fraud_api::json_parser::{parse_json_payload, read_payload, Stop};

const PAYLOAD: &str = r#"{
  "id": "tx-1329056812",
  "transaction": {"amount": 41.12, "installments": 2, "requested_at": "2026-03-11T18:45:53Z"},
  "customer": {"avg_amount": 82.24, "tx_count_24h": 3, "known_merchants": ["MERC-003", "MERC-016"]},
  "merchant": {"id": "MERC-016", "mcc": "5411", "avg_amount": 60.25},
  "terminal": {"is_online": false, "card_present": true, "km_from_home": 29.23},
  "last_transaction": {"timestamp": "2026-03-11T14:58:35Z", "km_from_current": -18.86}
}"#;

fn with_last(last: &str) -> String {
    let start = PAYLOAD.find("\"last_transaction\"").unwrap();
    format!("{}\"last_transaction\": {} }}", &PAYLOAD[..start], last)
}

#[test]
fn a_payload_is_read() {
    let tx = parse_json_payload(PAYLOAD.as_bytes()).unwrap();
    assert_eq!(tx.id, b"tx-1329056812");
    assert_eq!((tx.amount.negative, tx.amount.whole, tx.amount.fraction), (false, &b"41"[..], &b"12"[..]));
    assert_eq!(tx.installments, 2);
    assert_eq!(tx.requested_at, b"2026-03-11T18:45:53Z");
    assert_eq!(tx.customer_avg_amount.whole, b"82");
    assert_eq!(tx.customer_tx_count_24h, 3);
    assert_eq!(tx.customer_known_merchants_len, 2);
    assert_eq!(tx.customer_known_merchants[0], b"MERC-003");
    assert_eq!(tx.customer_known_merchants[1], b"MERC-016");
    assert_eq!(tx.customer_known_merchants[2], b"");
    assert_eq!(tx.merchant_id, b"MERC-016");
    assert_eq!(tx.merchant_mcc, 5411);
    assert_eq!(tx.merchant_avg_amount.fraction, b"25");
    assert!(!tx.is_online);
    assert!(tx.card_present);
    assert_eq!(tx.km_from_home.whole, b"29");
    assert_eq!(tx.last_tx_timestamp, Some(&b"2026-03-11T14:58:35Z"[..]));
    let km = tx.last_tx_km.unwrap();
    assert_eq!((km.negative, km.whole, km.fraction), (true, &b"18"[..], &b"86"[..]));
}

#[test]
fn no_last_transaction_is_null() {
    let body = with_last("null");
    let tx = parse_json_payload(body.as_bytes()).unwrap();
    assert!(tx.last_tx_timestamp.is_none());
    assert!(tx.last_tx_km.is_none());
}

#[test]
fn a_null_behind_a_last_transaction_takes_it_back() {
    let body = with_last("{\"timestamp\": \"t\", \"km_from_current\": 1}, \"last_transaction\": null");
    let tx = parse_json_payload(body.as_bytes()).unwrap();
    assert!(tx.last_tx_timestamp.is_none());
    assert!(tx.last_tx_km.is_none());
}

#[test]
fn a_last_transaction_may_lack_members() {
    let body = with_last("{\"timestamp\": \"t\"}");
    let tx = parse_json_payload(body.as_bytes()).unwrap();
    assert_eq!(tx.last_tx_timestamp, Some(&b"t"[..]));
    assert!(tx.last_tx_km.is_none());
}

#[test]
fn what_is_missing_is_zero() {
    let tx = parse_json_payload(b"{}").unwrap();
    assert_eq!(tx.id, b"");
    assert_eq!(tx.installments, 0);
    assert_eq!(tx.amount.whole, b"");
    assert_eq!(tx.customer_known_merchants_len, 0);
    assert!(!tx.is_online);
}

#[test]
fn unknown_members_are_skipped() {
    let body = br#"{"x": {"a": {"b": 1}}, "y": [[1], [2]], "z": "s", "n": 12, "id": "tx-1",
        "transaction": {"q": [1, 2], "amount": 7}}"#;
    let tx = parse_json_payload(body).unwrap();
    assert_eq!(tx.id, b"tx-1");
    assert_eq!(tx.amount.whole, b"7");
}

#[test]
fn only_ten_known_merchants_are_kept() {
    let names: Vec<String> = (0..12).map(|k| format!("\"M{}\"", k)).collect();
    let body = format!("{{\"customer\": {{\"known_merchants\": [{}], \"tx_count_24h\": 9}}}}", names.join(","));
    let tx = parse_json_payload(body.as_bytes()).unwrap();
    assert_eq!(tx.customer_known_merchants_len, 10);
    assert_eq!(tx.customer_known_merchants[9], b"M9");
    assert_eq!(tx.customer_tx_count_24h, 9);
}

#[test]
fn an_object_that_does_not_open_is_malformed() {
    assert!(parse_json_payload(br#"{"transaction": 5"#).is_none());
    assert!(matches!(read_payload(br#"{"customer": 5"#), Err(Stop::Malformed)));
    assert!(matches!(
        read_payload(br#"{"customer": {"known_merchants": 5}"#),
        Err(Stop::Malformed)
    ));
    assert!(matches!(read_payload(br#"{"last_transaction": nul"#), Err(Stop::Malformed)));
}

#[test]
fn integers_that_do_not_fit_are_told() {
    let large = br#"{"customer": {"tx_count_24h": 4294967296}}"#;
    assert!(matches!(read_payload(large), Err(Stop::OutOfRange)));
    let fits = br#"{"customer": {"tx_count_24h": 4294967295}}"#;
    assert_eq!(parse_json_payload(fits).unwrap().customer_tx_count_24h, u32::MAX);
    let mcc = br#"{"merchant": {"mcc": "65536"}}"#;
    assert!(matches!(read_payload(mcc), Err(Stop::OutOfRange)));
    let most = br#"{"merchant": {"mcc": "65535"}}"#;
    assert_eq!(parse_json_payload(most).unwrap().merchant_mcc, 65535);
}

#[test]
fn installments_keep_their_lowest_byte() {
    let body = br#"{"transaction": {"installments": 258}}"#;
    assert_eq!(parse_json_payload(body).unwrap().installments, 2);
}

#[test]
fn tokens_are_read_from_the_cursor() {
    let mut i = 0;
    assert_eq!(next_key(b" \"ab\" :  7", &mut i), Some(&b"ab"[..]));
    assert_eq!(i, 9);
    let mut i = 0;
    assert_eq!(next_key(b" \"ab\" 7", &mut i), None);
    let mut i = 0;
    assert_eq!(next_key_in_object(b" } \"a\":1", &mut i), None);
    assert_eq!(i, 2);
    let mut i = 0;
    assert_eq!(next_key_in_object(b"  ", &mut i), None);
    assert_eq!(i, 2);
    let mut i = 0;
    assert_eq!(next_str_in_array(b" , \"x\" ]", &mut i), Some(&b"x"[..]));
    assert_eq!(i, 6);
    assert_eq!(next_str_in_array(b" , \"x\" ]", &mut i), None);
    assert_eq!(i, 8);
    let mut i = 0;
    assert_eq!(next_str_in_array(b" \"x", &mut i), None);
    assert_eq!(i, 3);
    let mut i = 1;
    assert!(skip_to(b"abcb", &mut i, b'b'));
    assert_eq!(i, 2);
    assert!(!skip_to(b"abcb", &mut i, b'x'));
    assert_eq!(i, 4);
    let mut i = 0;
    skip_spaces(b" \t\n\x0c\rx", &mut i);
    assert_eq!(i, 5);
}

#[test]
fn values_are_skipped_whole() {
    for (text, end) in [
        ("  \"ab\", 1", 6),
        ("{\"a\": {\"b\": 1}}, 2", 15),
        ("[[1], [2]] ,", 10),
        ("12, 3", 2),
        ("true}", 4),
        ("null]", 4),
        ("12", 2),
        ("{ [", 3),
        ("  ", 2),
    ] {
        let mut i = 0;
        skip_value(text.as_bytes(), &mut i);
        assert_eq!(i, end, "{}", text);
    }
}

#[test]
fn scalars_are_read() {
    let mut i = 0;
    assert_eq!(parse_str(b": \"a b\" x", &mut i), b"a b");
    assert_eq!(i, 7);
    let mut i = 0;
    assert_eq!(parse_str(b"\"open", &mut i), b"");
    assert_eq!(i, 5);
    let mut i = 0;
    let d = parse_decimal(b" x-12.50,", &mut i);
    assert_eq!((d.negative, d.whole, d.fraction, i), (true, &b"12"[..], &b"50"[..], 8));
    let mut i = 0;
    let d = parse_decimal(b"7,", &mut i);
    assert_eq!((d.negative, d.whole, d.fraction, i), (false, &b"7"[..], &b""[..], 1));
    let mut i = 0;
    let d = parse_decimal(b"none", &mut i);
    assert_eq!((d.negative, d.whole, d.fraction, i), (false, &b""[..], &b""[..], 4));
    let mut i = 0;
    assert!(parse_bool(b" true,", &mut i));
    assert_eq!(i, 5);
    let mut i = 0;
    assert!(!parse_bool(b" false,", &mut i));
    assert_eq!(i, 6);
    let mut i = 0;
    assert!(!parse_bool(b" 1", &mut i));
    let mut i = 0;
    assert_eq!(parse_u32(b" a42b", &mut i), Ok(42));
    assert_eq!(i, 4);
    let mut i = 0;
    assert_eq!(parse_u32(b"4294967296 ", &mut i), Err(OutOfRange));
    assert_eq!(i, 10);
    let mut i = 0;
    assert_eq!(parse_u16_from_str(b"\"a1b2\",", &mut i), Ok(12));
    assert_eq!(i, 6);
    let mut i = 0;
    assert_eq!(parse_u16_from_str(b"\"70000\"", &mut i), Err(OutOfRange));
}

fn parts(d: &Decimal<'_>) -> (bool, Vec<u8>, Vec<u8>) {
    (d.negative, d.whole.to_vec(), d.fraction.to_vec())
}

// Every field of a transaction, written out.
fn fields(body: &str) -> Vec<String> {
    let tx = parse_json_payload(body.as_bytes()).unwrap();
    let known = &tx.customer_known_merchants[..tx.customer_known_merchants_len];
    vec![
        format!("{:?}", tx.id),
        format!("{:?}", parts(&tx.amount)),
        format!("{}", tx.installments),
        format!("{:?}", tx.requested_at),
        format!("{:?}", parts(&tx.customer_avg_amount)),
        format!("{}", tx.customer_tx_count_24h),
        format!("{:?}", known),
        format!("{:?}", tx.merchant_id),
        format!("{}", tx.merchant_mcc),
        format!("{:?}", parts(&tx.merchant_avg_amount)),
        format!("{} {}", tx.is_online, tx.card_present),
        format!("{:?}", parts(&tx.km_from_home)),
        format!("{:?}", tx.last_tx_timestamp),
        format!("{:?}", tx.last_tx_km.as_ref().map(parts)),
    ]
}

#[test]
fn white_space_and_the_order_of_members_do_not_matter() {
    let dense = [
        "{\"last_transaction\":{\"km_from_current\":-18.86,\"timestamp\":\"2026-03-11T14:58:35Z\"},",
        "\"terminal\":{\"km_from_home\":29.23,\"card_present\":true,\"is_online\":false},",
        "\"merchant\":{\"avg_amount\":60.25,\"mcc\":\"5411\",\"id\":\"MERC-016\"},",
        "\"customer\":{\"known_merchants\":[\"MERC-003\",\"MERC-016\"],\"avg_amount\":82.24,\"tx_count_24h\":3},",
        "\"transaction\":{\"requested_at\":\"2026-03-11T18:45:53Z\",\"installments\":2,\"amount\":41.12},",
        "\"id\":\"tx-1329056812\"}",
    ]
    .concat();
    assert_eq!(fields(&dense), fields(PAYLOAD));
    let wide = [
        " \n{ \"id\" :\t\"tx-1329056812\" , \"extra\" : {\"id\" : [ {\"a\":\"b\"} ] , \"n\":{}} ,\r\n",
        "\"customer\" : { \"more\" : [ \"x\" , 1 ] , \"tx_count_24h\" : 3 , \"avg_amount\" : 82.24 ,",
        " \"known_merchants\" : [ \"MERC-003\"\n,\"MERC-016\" ] } , \"transaction\" : { \"amount\" : 41.12e0 ,",
        " \"installments\" : 2 , \"requested_at\" : \"2026-03-11T18:45:53Z\" } , \"merchant\" :{ \"id\":\"MERC-016\"",
        " , \"avg_amount\" : 60.25, \"note\" : null , \"mcc\" : \"5411\"} , \"terminal\" : {\"is_online\" : false ,",
        "\"km_from_home\" : 29.23 , \"card_present\" : true } , \"last_transaction\" : {",
        "\"timestamp\" : \"2026-03-11T14:58:35Z\" , \"km_from_current\" : -18.86 } }\n ",
    ]
    .concat();
    assert_eq!(fields(&wide), fields(PAYLOAD));
}
