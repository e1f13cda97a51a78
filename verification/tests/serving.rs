use fraud_api::connection::{
    admits, handle_greedy_write, on_first_read, on_read, process_request, ProcessResult,
    ReadOutcome, Registered, Route, Step, WriteOutcome, Writing, BUF_SIZE,
};
use fraud_api::http_parser::HttpRoute;
use fraud_api::knn::{IvfIndex, Probing, Weighing};
use fraud_api::records::{
    encode_centroids, encode_records, encode_words, pack, Dataset, IvfData, Record,
};
use fraud_api::response::{plain_response, scored_response};
use fraud_api::scoring::{answer_request, AppState};
use fraud_api::vectorizer::Feature;

type Scale = for<'b> fn(Feature<'b>) -> u32;
type Distance = fn([u32; 16], [u32; 16]) -> u32;
type Kernel = fn(Weighing) -> u32;
type Tenths = fn(u32) -> u32;
type State<'a> = AppState<'a, Scale, Distance, Kernel, Tenths>;

fn scale(feature: Feature<'_>) -> u32 {
    match feature {
        Feature::Installments(n) => (n as f32).to_bits(),
        _ => 0,
    }
}

fn gap(v: [u32; 16], w: [u32; 16]) -> u32 {
    (f32::from_bits(v[1]) - f32::from_bits(w[1])).abs().to_bits()
}

// Every neighbour weighs the same.
fn share(w: Weighing) -> u32 {
    let value = match w {
        Weighing::Weight(_) => 1.0f32,
        Weighing::Sum(a, b) => f32::from_bits(a) + f32::from_bits(b),
        Weighing::Share(a, b) => f32::from_bits(a) / f32::from_bits(b),
    };
    value.to_bits()
}

fn tenths(score: u32) -> u32 {
    (f32::from_bits(score) * 10.0 + 0.5) as u32
}

struct Data {
    dataset: Vec<u8>,
    l1: Vec<u8>,
    l2: Vec<u8>,
    offsets: Vec<u8>,
}

// All records lie in cluster 0: one of fraud at 1, three without at 3, 4 and 5.
fn data() -> Data {
    let mut records = Vec::new();
    for (i, (x, fraud)) in [(1.0f32, true), (3.0, false), (4.0, false), (5.0, true)].iter().enumerate() {
        let mut vector = [0u32; 16];
        vector[1] = x.to_bits();
        vector[15] = pack(i, *fraud);
        records.push(Record { vector });
    }
    let mut offsets = vec![4u32; 65537];
    offsets[0] = 0;
    let centroid = [0u32; 16];
    let mut remote = centroid;
    remote[1] = 1000.0f32.to_bits();
    let mut l2 = vec![remote; 65536];
    l2[0] = centroid;
    let mut l1 = vec![remote; 256];
    l1[0] = centroid;
    Data {
        dataset: encode_records(&records),
        l1: encode_centroids(&l1),
        l2: encode_centroids(&l2),
        offsets: encode_words(&offsets),
    }
}

fn state(data: &Data) -> State<'_> {
    AppState {
        risks: vec![0; 65536],
        dataset: Dataset::new(&data.dataset),
        index: IvfIndex::new(IvfData::new(&data.l1, &data.l2, &data.offsets)),
        probing: Probing::standard(),
        scale,
        distance: gap,
        kernel: share,
        tenths,
    }
}

fn body(id: &str, installments: u32, requested_at: &str) -> String {
    format!(
        "{{\"id\":\"{}\",\"transaction\":{{\"amount\":1,\"installments\":{},\"requested_at\":\"{}\"}},\"last_transaction\":null}}",
        id, installments, requested_at
    )
}

fn answered(state: &Option<State<'_>>, body: &str) -> Option<(u16, String)> {
    answer_request(state, &HttpRoute::FraudScore(body.as_bytes()))
        .map(|(status, response)| (status, String::from_utf8(response).unwrap()))
}

fn json_response(content: &str) -> String {
    format!(
        "HTTP/1.1 200 OK\r\nContent-Type: application/json\r\nContent-Length: {}\r\n\r\n{}",
        content.len(),
        content
    )
}

fn buffer(bytes: &[u8]) -> Vec<u8> {
    let mut buf = vec![0u8; BUF_SIZE];
    buf[..bytes.len()].copy_from_slice(bytes);
    buf
}

const TIME: &str = "2026-03-11T18:45:53Z";

#[test]
fn plain_responses_are_written_out() {
    for (status, text) in [
        (200, "HTTP/1.1 200 OK\r\nContent-Length: 0\r\n\r\n"),
        (400, "HTTP/1.1 400 Bad Request\r\nContent-Length: 0\r\n\r\n"),
        (404, "HTTP/1.1 404 Not Found\r\nContent-Length: 0\r\n\r\n"),
        (422, "HTTP/1.1 422 Unprocessable Entity\r\nContent-Length: 0\r\n\r\n"),
        (503, "HTTP/1.1 503 Service Unavailable\r\nContent-Length: 0\r\n\r\n"),
    ] {
        assert_eq!(plain_response(status), text.as_bytes());
    }
}

#[test]
fn scores_are_written_in_tenths() {
    let text = |approved, score| String::from_utf8(scored_response(approved, score)).unwrap();
    assert_eq!(text(true, 0), json_response("{\"approved\":true,\"fraud_score\":0.0}"));
    assert_eq!(text(false, 10), json_response("{\"approved\":false,\"fraud_score\":1.0}"));
    assert_eq!(text(true, 4), json_response("{\"approved\":true,\"fraud_score\":0.4}"));
    assert_eq!(text(false, 123), json_response("{\"approved\":false,\"fraud_score\":12.3}"));
    assert_eq!(scored_response(false, 1000)[scored_response(false, 1000).len() - 5], b':');
}

#[test]
fn every_response_announces_its_length() {
    for response in [plain_response(200), plain_response(422), scored_response(true, 4)] {
        let text = String::from_utf8(response).unwrap();
        let end = text.find("\r\n\r\n").unwrap() + 4;
        let at = text.find("Content-Length: ").unwrap() + 16;
        let digits: String = text[at..].chars().take_while(|c| c.is_ascii_digit()).collect();
        assert_eq!(digits.parse::<usize>().unwrap(), text.len() - end);
    }
}

#[test]
fn the_server_is_ready_when_all_is_loaded() {
    let data = data();
    let loaded = Some(state(&data));
    assert_eq!(answer_request(&loaded, &HttpRoute::Ready).unwrap().0, 200);
    let nothing: Option<State<'_>> = None;
    assert_eq!(answer_request(&nothing, &HttpRoute::Ready).unwrap().0, 503);
    assert_eq!(answer_request(&nothing, &HttpRoute::NotFound).unwrap().0, 404);
    assert_eq!(answered(&nothing, &body("tx-1", 1, TIME)).unwrap().0, 503);
}

#[test]
fn transactions_are_scored() {
    let data = data();
    let loaded = Some(state(&data));
    assert_eq!(
        answered(&loaded, &body("tx-1", 1, TIME)).unwrap(),
        (200, json_response("{\"approved\":false,\"fraud_score\":1.0}"))
    );
    assert_eq!(
        answered(&loaded, &body("tx-1", 3, TIME)).unwrap(),
        (200, json_response("{\"approved\":true,\"fraud_score\":0.0}"))
    );
    assert_eq!(
        answered(&loaded, &body("tx-1", 7, TIME)).unwrap(),
        (200, json_response("{\"approved\":false,\"fraud_score\":0.5}"))
    );
}

#[test]
fn the_name_of_a_transaction_does_not_decide() {
    let data = data();
    let loaded = Some(state(&data));
    for id in ["tx-1", "tx-7", "tx-8", ""] {
        assert_eq!(
            answered(&loaded, &body(id, 1, TIME)).unwrap().1,
            json_response("{\"approved\":false,\"fraud_score\":1.0}")
        );
        assert_eq!(
            answered(&loaded, &body(id, 3, TIME)).unwrap().1,
            json_response("{\"approved\":true,\"fraud_score\":0.0}")
        );
    }
}

#[test]
fn requests_that_cannot_be_scored_are_told_why() {
    let data = data();
    let loaded = Some(state(&data));
    assert_eq!(answered(&loaded, "").unwrap().0, 400);
    assert_eq!(answered(&loaded, "{\"transaction\": 1}").unwrap().0, 400);
    assert_eq!(answered(&loaded, "{}").unwrap().0, 422);
    assert_eq!(answered(&loaded, &body("tx-1", 1, "2026-03-11")).unwrap().0, 422);
    assert_eq!(answered(&loaded, &body("tx-1", 1, "2026-03-11T!!:00")), None);
    assert_eq!(answered(&loaded, "{\"customer\":{\"tx_count_24h\":4294967296}}"), None);
}

#[test]
fn a_complete_request_is_prepared_for_writing() {
    let nothing: Option<State<'_>> = None;
    let request = b"GET /ready HTTP/1.1\r\nHost: abcdefghijklmnopqrstuvwxyz\r\n\r\nGET /x";
    match process_request(buffer(request), request.len(), &nothing) {
        ProcessResult::Writing(w) => {
            let expected = b"HTTP/1.1 503 Service Unavailable\r\nContent-Length: 0\r\n\r\n";
            assert_eq!(&w.buf[..w.len], expected);
            assert_eq!((w.written, w.status, w.route), (0, 503, Route::Ready));
            assert_eq!(w.leftover_pos, request.len() - 6);
            assert_eq!(w.leftover_len, 6);
            assert_eq!(&w.buf[w.leftover_pos..w.leftover_pos + 6], b"GET /x");
        }
        _ => panic!("no response"),
    }
}

#[test]
fn an_unfinished_request_waits_until_the_buffer_is_full() {
    let nothing: Option<State<'_>> = None;
    let part = b"GET /ready HTTP/1.1\r\n";
    match process_request(buffer(part), part.len(), &nothing) {
        ProcessResult::Incomplete(buf) => assert_eq!(buf, buffer(part)),
        _ => panic!("not incomplete"),
    }
    match process_request(vec![b'x'; BUF_SIZE], BUF_SIZE, &nothing) {
        ProcessResult::Closed(buf) => assert_eq!(buf.len(), BUF_SIZE),
        _ => panic!("not closed"),
    }
}

#[test]
fn numbers_out_of_range_stop_the_server() {
    let nothing: Option<State<'_>> = None;
    let request = b"GET / HTTP/1.1\r\nContent-Length: 99999999999999999999\r\n\r\n";
    let result = process_request(buffer(request), request.len(), &nothing);
    assert!(matches!(result, ProcessResult::OutOfRange(_)));
    assert!(matches!(
        on_first_read(buffer(request), ReadOutcome::Bytes(request.len()), &nothing),
        Step::Stop(_)
    ));
}

#[test]
fn a_request_that_is_too_large_leaves_its_bytes() {
    let nothing: Option<State<'_>> = None;
    let request = b"POST /fraud-score HTTP/1.1\r\nContent-Length: 20000\r\n\r\nabc";
    match process_request(buffer(request), request.len(), &nothing) {
        ProcessResult::Writing(w) => {
            assert_eq!((w.status, w.route), (404, Route::NotFound));
            assert_eq!((w.leftover_pos, w.leftover_len), (0, request.len()));
        }
        _ => panic!("no response"),
    }
}

#[test]
fn the_first_read_may_bring_nothing() {
    let nothing: Option<State<'_>> = None;
    for outcome in [ReadOutcome::End, ReadOutcome::WouldBlock, ReadOutcome::Failed] {
        match on_first_read(buffer(b""), outcome, &nothing) {
            Step::AwaitBytes { pos, .. } => assert_eq!(pos, 0),
            _ => panic!("not waiting"),
        }
    }
}

#[test]
fn reads_go_on_behind_each_other() {
    let nothing: Option<State<'_>> = None;
    let request = b"GET /ready HTTP/1.1\r\n\r\n";
    match on_read(buffer(request), 10, ReadOutcome::Bytes(request.len() - 10), &nothing) {
        Step::Write(w) => assert_eq!(w.status, 503),
        _ => panic!("no response"),
    }
    match on_read(buffer(request), 10, ReadOutcome::Bytes(5), &nothing) {
        Step::AwaitBytes { pos, .. } => assert_eq!(pos, 15),
        _ => panic!("not waiting"),
    }
    match on_read(buffer(request), 10, ReadOutcome::WouldBlock, &nothing) {
        Step::Stay { pos, .. } => assert_eq!(pos, 10),
        _ => panic!("not staying"),
    }
    assert!(matches!(on_read(buffer(request), 10, ReadOutcome::End, &nothing), Step::Close(_)));
    assert!(matches!(on_read(buffer(request), 10, ReadOutcome::Failed, &nothing), Step::Close(_)));
}

fn writing(bytes: &[u8], len: usize, leftover_pos: usize, leftover_len: usize) -> Writing {
    Writing {
        buf: buffer(bytes),
        len,
        written: 0,
        route: Route::Ready,
        status: 200,
        leftover_pos,
        leftover_len,
    }
}

#[test]
fn a_response_is_written_in_parts() {
    let nothing: Option<State<'_>> = None;
    let w = writing(b"0123456789", 10, 10, 0);
    let w = match handle_greedy_write(w, WriteOutcome::Bytes(4), &nothing) {
        Step::Write(w) => w,
        _ => panic!("nothing to write"),
    };
    assert_eq!(w.written, 4);
    let w = match handle_greedy_write(w, WriteOutcome::WouldBlock, &nothing) {
        Step::AwaitRoom(w) => w,
        _ => panic!("not waiting"),
    };
    assert_eq!(w.written, 4);
    match handle_greedy_write(w, WriteOutcome::Bytes(6), &nothing) {
        Step::AwaitBytes { pos, .. } => assert_eq!(pos, 0),
        _ => panic!("not done"),
    }
    let w = writing(b"0123456789", 10, 10, 0);
    assert!(matches!(handle_greedy_write(w, WriteOutcome::Failed, &nothing), Step::Close(_)));
}

#[test]
fn a_request_behind_another_is_answered_next() {
    let nothing: Option<State<'_>> = None;
    let first = "GET /missing HTTP/1.1\r\nHost: abcdefghijklmnopqrstuvwxyz\r\n\r\n";
    let second = "GET /ready HTTP/1.1\r\n\r\n";
    let both = format!("{}{}", first, second);
    let step = on_first_read(buffer(both.as_bytes()), ReadOutcome::Bytes(both.len()), &nothing);
    let w = match step {
        Step::Write(w) => w,
        _ => panic!("no response"),
    };
    assert_eq!((w.status, w.route), (404, Route::NotFound));
    let len = w.len;
    let w = match handle_greedy_write(w, WriteOutcome::Bytes(len), &nothing) {
        Step::Write(w) => w,
        _ => panic!("no second response"),
    };
    assert_eq!((w.status, w.route, w.leftover_len), (503, Route::Ready, 0));
}

#[test]
fn a_short_request_is_overwritten_by_its_response() {
    let nothing: Option<State<'_>> = None;
    let both = "GET / \r\n\r\nGET /ready HTTP/1.1\r\n\r\n";
    let step = on_first_read(buffer(both.as_bytes()), ReadOutcome::Bytes(both.len()), &nothing);
    match step {
        Step::Write(w) => {
            assert_eq!(w.leftover_pos, 10);
            assert_ne!(&w.buf[10..20], b"GET /ready");
        }
        _ => panic!("no response"),
    }
}

#[test]
fn routes_have_names() {
    assert_eq!(Route::Ready.name(), "ready");
    assert_eq!(Route::FraudScore.name(), "fraud-score");
    assert_eq!(Route::NotFound.name(), "not-found");
}

#[test]
fn connections_are_noted() {
    let mut known = Registered::new();
    assert!(!known.arm(7));
    assert!(known.arm(7));
    assert!(!known.arm(1023));
    known.forget(7);
    assert!(!known.arm(7));
}

#[test]
fn connections_with_large_numbers_are_not_admitted() {
    assert!(admits(0));
    assert!(admits(1023));
    assert!(!admits(1024));
    assert!(!admits(-1));
}
