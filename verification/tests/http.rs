use fraud_api::http_parser::{parse_http_request, read_request, HttpRoute};

fn label(route: &HttpRoute<'_>) -> String {
    match route {
        HttpRoute::Ready => String::from("ready"),
        HttpRoute::FraudScore(body) => format!("score {}", String::from_utf8_lossy(body)),
        HttpRoute::NotFound => String::from("not found"),
        HttpRoute::Incomplete => String::from("incomplete"),
    }
}

fn parsed(request: &str) -> (String, usize) {
    let (route, len) = parse_http_request(request.as_bytes());
    (label(&route), len)
}

#[test]
fn a_ready_request_is_recognised() {
    let request = "GET /ready HTTP/1.1\r\nHost: x\r\n\r\n";
    assert_eq!(parsed(request), (String::from("ready"), request.len()));
}

#[test]
fn ready_may_be_followed_by_a_slash_or_a_query_only() {
    assert_eq!(parsed("GET /ready/ HTTP/1.1\r\n\r\n").0, "ready");
    assert_eq!(parsed("GET /ready/x HTTP/1.1\r\n\r\n").0, "ready");
    assert_eq!(parsed("GET /ready?x=1 HTTP/1.1\r\n\r\n").0, "ready");
    assert_eq!(parsed("GET /readyx HTTP/1.1\r\n\r\n").0, "not found");
    assert_eq!(parsed("GET /read HTTP/1.1\r\n\r\n").0, "not found");
}

#[test]
fn the_body_is_cut_out_by_its_length() {
    let request = "POST /fraud-score HTTP/1.1\r\nContent-Length: 5\r\n\r\nhelloGET /ready";
    assert_eq!(parsed(request), (String::from("score hello"), request.len() - 10));
}

#[test]
fn the_length_may_be_spelt_small() {
    let request = "POST /fraud-score HTTP/1.1\r\ncontent-length: 2\r\n\r\n{}";
    assert_eq!(parsed(request), (String::from("score {}"), request.len()));
}

#[test]
fn another_spelling_of_the_length_does_not_count() {
    let request = "POST /fraud-score HTTP/1.1\r\nCONTENT-LENGTH: 2\r\n\r\n{}";
    assert_eq!(parsed(request), (String::from("score "), request.len() - 2));
}

#[test]
fn any_path_that_starts_with_the_name_is_scored() {
    assert_eq!(parsed("POST /fraud-scores HTTP/1.1\r\n\r\n").0, "score ");
    assert_eq!(parsed("POST /fraud HTTP/1.1\r\n\r\n").0, "not found");
    assert_eq!(parsed("POST\r\n\r\n").0, "not found");
}

#[test]
fn an_unfinished_request_has_no_length() {
    assert_eq!(parsed(""), (String::from("incomplete"), 0));
    assert_eq!(parsed("GET /ready HTTP/1.1\r\n"), (String::from("incomplete"), 0));
    assert_eq!(
        parsed("POST /fraud-score HTTP/1.1\r\nContent-Length: 3\r\n\r\nab"),
        (String::from("incomplete"), 0)
    );
}

#[test]
fn digits_of_the_length_end_at_anything_else() {
    let request = "POST /fraud-score HTTP/1.1\r\nContent-Length: x1y9\r\n\r\nabc";
    assert_eq!(parsed(request), (String::from("score a"), request.len() - 2));
    assert_eq!(
        parsed("POST /fraud-score HTTP/1.1\r\nContent-Length: none\r\nX: 7\r\n\r\n").0,
        "score "
    );
}

#[test]
fn a_request_at_the_limit_is_read_and_one_above_it_is_not() {
    let head = "POST /fraud-score HTTP/1.1\r\nContent-Length: ";
    let rest = 16384 - head.len() - 4 - 5;
    let request = format!("{}{}\r\n\r\n{}", head, rest, "x".repeat(rest));
    assert_eq!(request.len(), 16384);
    let (route, len) = parse_http_request(request.as_bytes());
    assert_eq!(len, 16384);
    assert!(matches!(route, HttpRoute::FraudScore(_)));
    let larger = format!("{}{}\r\n\r\n", head, rest + 1);
    assert_eq!(parsed(&larger), (String::from("not found"), 0));
}

#[test]
fn a_length_that_is_no_usize_is_told() {
    let request = "POST /fraud-score HTTP/1.1\r\nContent-Length: 99999999999999999999\r\n\r\n";
    assert!(read_request(request.as_bytes()).is_none());
    let largest = format!("POST /x HTTP/1.1\r\nContent-Length: {}\r\n\r\n", usize::MAX);
    assert!(read_request(largest.as_bytes()).is_none());
    let fits = format!("POST /x HTTP/1.1\r\nContent-Length: {}\r\n\r\n", usize::MAX / 2);
    let (route, len) = read_request(fits.as_bytes()).unwrap();
    assert_eq!((label(&route), len), (String::from("not found"), 0));
}

#[test]
fn what_follows_a_request_changes_nothing() {
    let request = "POST /fraud-score HTTP/1.1\r\nContent-Length: 2\r\n\r\n{}";
    let longer = format!("{}GET /ready HTTP/1.1\r\nContent-Length: 7\r\n\r\n", request);
    assert_eq!(parsed(request), parsed(&longer));
    let taken = parsed(&longer).1;
    assert_eq!(parsed(&longer[..taken]), parsed(&longer));
}
