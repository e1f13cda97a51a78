//! The responses of the server.
use vstd::prelude::*;
use vstd::string::*;
use crate::bytes;
use crate::http_parser;
use crate::json_lexer;

verus! {

/// The first line of a response: that of 503 for all that have none of their own.
pub open spec fn status_line(status: u16) -> Seq<u8> {
    if status == 200 {
        "HTTP/1.1 200 OK\r\n".spec_bytes()
    } else if status == 400 {
        "HTTP/1.1 400 Bad Request\r\n".spec_bytes()
    } else if status == 404 {
        "HTTP/1.1 404 Not Found\r\n".spec_bytes()
    } else if status == 422 {
        "HTTP/1.1 422 Unprocessable Entity\r\n".spec_bytes()
    } else {
        "HTTP/1.1 503 Service Unavailable\r\n".spec_bytes()
    }
}

/// A response that says no more than its status.
pub open spec fn plain(status: u16) -> Seq<u8> {
    status_line(status) + "Content-Length: ".spec_bytes() + numeral(0) + "\r\n\r\n".spec_bytes()
}

/// The byte so many places behind the digit zero.
pub open spec fn digit(n: int) -> u8 {
    ((0x30 + n) % 256) as u8
}

/// A number in base ten, without leading zeros.
pub open spec fn numeral(n: int) -> Seq<u8>
    decreases n,
{
    if n < 10 {
        seq![digit(n)]
    } else {
        numeral(n / 10).push(digit(n % 10))
    }
}

/// A number of tenths, written with a dot before the last digit; there is room for two digits
/// before the dot.
pub open spec fn tenths(n: int) -> Seq<u8> {
    if n < 100 {
        seq![digit(n / 10), 0x2eu8, digit(n % 10)]
    } else {
        seq![digit(n / 100), digit(n / 10 % 10), 0x2eu8, digit(n % 10)]
    }
}

/// Whether the transaction is approved, in JSON.
pub open spec fn word_for(approved: bool) -> Seq<u8> {
    if approved {
        "true".spec_bytes()
    } else {
        "false".spec_bytes()
    }
}

/// The body of a response with an outcome, the score being given in tenths.
pub open spec fn body(approved: bool, score: int) -> Seq<u8> {
    "{\"approved\":".spec_bytes() + word_for(approved) + ",\"fraud_score\":".spec_bytes()
        + tenths(score) + "}".spec_bytes()
}

/// The response with a body in JSON.
pub open spec fn with_body(body: Seq<u8>) -> Seq<u8> {
    "HTTP/1.1 200 OK\r\nContent-Type: application/json\r\nContent-Length: ".spec_bytes()
        + numeral(body.len() as int) + "\r\n\r\n".spec_bytes() + body
}

/// The response with an outcome.
pub open spec fn scored(approved: bool, score: int) -> Seq<u8> {
    with_body(body(approved, score))
}

/// Appends a string.
fn put(out: &mut Vec<u8>, s: &str)
    ensures
        final(out)@ == old(out)@ + s.spec_bytes(),
{
    let b = s.as_bytes();
    let mut k: usize = 0;
    let ghost before = out@;
    while k < b.len()
        invariant
            k <= b@.len(),
            b@ == s.spec_bytes(),
            out@ =~= before + b@.take(k as int),
        decreases b@.len() - k,
    {
        out.push(b[k]);
        k += 1;
    }
    assert(b@.take(b@.len() as int) =~= b@);
}

/// Appends a number.
fn put_number(out: &mut Vec<u8>, n: u32)
    ensures
        final(out)@ == old(out)@ + numeral(n as int),
    decreases n,
{
    if n >= 10 {
        put_number(out, n / 10);
    }
    out.push(0x30 + (n % 10) as u8);
    assert(out@ =~= old(out)@ + numeral(n as int));
}

/// A response that says no more than its status.
pub fn plain_response(status: u16) -> (r: Vec<u8>)
    ensures
        r@ == plain(status),
        r@.len() <= 64,
{
    proof {
        reveal_strlit("Content-Length: ");
        assert(is_ascii("Content-Length: "));
        reveal_strlit("\r\n\r\n");
        assert(is_ascii("\r\n\r\n"));
        reveal_strlit("HTTP/1.1 200 OK\r\n");
        assert(is_ascii("HTTP/1.1 200 OK\r\n"));
        reveal_strlit("HTTP/1.1 400 Bad Request\r\n");
        assert(is_ascii("HTTP/1.1 400 Bad Request\r\n"));
        reveal_strlit("HTTP/1.1 404 Not Found\r\n");
        assert(is_ascii("HTTP/1.1 404 Not Found\r\n"));
        reveal_strlit("HTTP/1.1 422 Unprocessable Entity\r\n");
        assert(is_ascii("HTTP/1.1 422 Unprocessable Entity\r\n"));
        reveal_strlit("HTTP/1.1 503 Service Unavailable\r\n");
        assert(is_ascii("HTTP/1.1 503 Service Unavailable\r\n"));
    }
    let line: &str = if status == 200 {
        "HTTP/1.1 200 OK\r\n"
    } else if status == 400 {
        "HTTP/1.1 400 Bad Request\r\n"
    } else if status == 404 {
        "HTTP/1.1 404 Not Found\r\n"
    } else if status == 422 {
        "HTTP/1.1 422 Unprocessable Entity\r\n"
    } else {
        "HTTP/1.1 503 Service Unavailable\r\n"
    };
    let mut out: Vec<u8> = Vec::new();
    put(&mut out, line);
    put(&mut out, "Content-Length: ");
    put_number(&mut out, 0);
    put(&mut out, "\r\n\r\n");
    assert(out@ =~= plain(status));
    out
}

/// The response with an outcome, the score being given in tenths.
pub fn scored_response(approved: bool, score: u32) -> (r: Vec<u8>)
    ensures
        r@ == scored(approved, score as int),
        r@.len() <= 256,
{
    proof {
        reveal_strlit("{\"approved\":");
        assert(is_ascii("{\"approved\":"));
        reveal_strlit("true");
        assert(is_ascii("true"));
        reveal_strlit("false");
        assert(is_ascii("false"));
        reveal_strlit(",\"fraud_score\":");
        assert(is_ascii(",\"fraud_score\":"));
        reveal_strlit("}");
        assert(is_ascii("}"));
        reveal_strlit("\r\n\r\n");
        assert(is_ascii("\r\n\r\n"));
        reveal_strlit("HTTP/1.1 200 OK\r\nContent-Type: application/json\r\nContent-Length: ");
        assert(is_ascii(
            "HTTP/1.1 200 OK\r\nContent-Type: application/json\r\nContent-Length: ",
        ));
    }
    let mut b: Vec<u8> = Vec::new();
    put(&mut b, "{\"approved\":");
    if approved {
        put(&mut b, "true");
    } else {
        put(&mut b, "false");
    }
    put(&mut b, ",\"fraud_score\":");
    let whole = score / 10;
    if whole >= 10 {
        b.push(((0x30 + whole / 10) % 256) as u8);
    }
    b.push(0x30 + (whole % 10) as u8);
    b.push(0x2e);
    b.push(0x30 + (score % 10) as u8);
    put(&mut b, "}");
    proof {
        assert(b@ =~= body(approved, score as int));
    }
    let mut out: Vec<u8> = Vec::new();
    put(&mut out, "HTTP/1.1 200 OK\r\nContent-Type: application/json\r\nContent-Length: ");
    let n = b.len() as u32;
    put_number(&mut out, n);
    put(&mut out, "\r\n\r\n");
    out.append(&mut b);
    proof {
        reveal_with_fuel(numeral, 2);
        assert(out@ =~= scored(approved, score as int));
    }
    out
}

/// A numeral denotes the number that was written.
pub proof fn a_numeral_denotes_its_number(n: int)
    requires
        0 <= n,
    ensures
        numeral(n).len() > 0,
        forall|i: int| 0 <= i < numeral(n).len() ==> bytes::is_digit(#[trigger] numeral(n)[i]),
        bytes::decimal(numeral(n)) == n,
    decreases n,
{
    if n < 10 {
        assert(seq![digit(n)].drop_last() =~= Seq::empty());
        assert(bytes::decimal(Seq::<u8>::empty()) == 0);
    } else {
        a_numeral_denotes_its_number(n / 10);
        assert(numeral(n).drop_last() =~= numeral(n / 10));
    }
}

/// Whether the headers of a response announce the length of what follows them.
pub open spec fn announces_its_length(response: Seq<u8>) -> bool {
    match http_parser::headers_len(response) {
        Some(end) => http_parser::content_length(response.subrange(0, end)) == response.len()
            - end,
        None => false,
    }
}

proof fn lemma_announces(head: Seq<u8>, n: int, body: Seq<u8>)
    requires
        body.len() == n,
        forall|i: int|
            0 <= i < head.len() - 2 && #[trigger] head[i] == 0x0d ==> head[i + 2] != 0x0d,
        forall|i: int|
            0 <= i < head.len() && #[trigger] head[i] == 0x43 ==> i + 9 <= head.len() && head[i + 8]
                == 0x54,
    ensures
        announces_its_length(
            head + "Content-Length: ".spec_bytes() + numeral(n) + "\r\n\r\n".spec_bytes() + body,
        ),
{
    reveal_strlit("Content-Length: ");
    assert(is_ascii("Content-Length: "));
    reveal_strlit("\r\n\r\n");
    assert(is_ascii("\r\n\r\n"));
    let name = "Content-Length: ".spec_bytes();
    let gap = "\r\n\r\n".spec_bytes();
    let num = numeral(n);
    a_numeral_denotes_its_number(n);
    let response = head + name + num + gap + body;
    let p = head.len() as int;
    let q = p + 16;
    let e = q + num.len();
    assert(bytes::occurs_at(response, e, gap)) by {
        assert(response.subrange(e, e + 4) =~= gap);
    }
    assert forall|i: int| 0 <= i < e implies !#[trigger] bytes::occurs_at(response, i, gap) by {
        if bytes::occurs_at(response, i, gap) {
            let part = response.subrange(i, i + 4);
            assert(part[0] == 0x0d && part[2] == 0x0d);
            if i < p {
                assert(response[i] == head[i]);
                if i + 2 < p {
                    assert(response[i + 2] == head[i + 2]);
                } else {
                    assert(response[i + 2] == name[i + 2 - p]);
                }
            } else if i < q {
                assert(response[i] == name[i - p]);
            } else {
                assert(response[i] == num[i - q]);
            }
        }
    }
    bytes::lemma_find_is(response, 0, gap, e);
    let headers = response.subrange(0, e + 4);
    assert(headers =~= head + name + num + gap);
    assert(bytes::occurs_at(headers, p, name)) by {
        assert(headers.subrange(p, p + 16) =~= name);
    }
    assert forall|i: int| 0 <= i < p implies !#[trigger] bytes::occurs_at(headers, i, name) by {
        if bytes::occurs_at(headers, i, name) {
            let part = headers.subrange(i, i + 16);
            assert(part[0] == 0x43 && part[8] == 0x4c);
            assert(headers[i] == head[i]);
            assert(headers[i + 8] == head[i + 8]);
        }
    }
    bytes::lemma_find_is(headers, 0, name, p);
    assert(headers[q] == num[0]);
    bytes::lemma_scan_is(headers, q, http_parser::digit_or_line_end(), q);
    assert forall|j: int| q <= j < e implies bytes::is_digit(#[trigger] headers[j]) by {
        assert(headers[j] == num[j - q]);
    }
    assert(headers[e] == gap[0]);
    bytes::lemma_scan_is(headers, q, bytes::non_digit(), e);
    assert(headers.subrange(q, e) =~= num);
}

/// Every response announces the length of its body.
pub proof fn responses_announce_their_length(status: u16, approved: bool, score: int)
    ensures
        announces_its_length(plain(status)),
        announces_its_length(scored(approved, score)),
{
    lemma_plain_announces(status);
    lemma_scored_announces(approved, score);
}

/// Whether a line ends nowhere but at its end, and no header starts in it.
spec fn is_one_line(head: Seq<u8>) -> bool {
    &&& forall|i: int| 0 <= i < head.len() - 2 ==> #[trigger] head[i] != 0x0d
    &&& forall|i: int| 0 <= i < head.len() ==> #[trigger] head[i] != 0x43
}

proof fn lemma_status_line(status: u16)
    ensures
        is_one_line(status_line(status)),
{
    if status == 200 {
        lemma_line_200();
    } else if status == 400 {
        lemma_line_400();
    } else if status == 404 {
        lemma_line_404();
    } else if status == 422 {
        lemma_line_422();
    } else {
        lemma_line_503();
    }
}

proof fn lemma_line_200()
    ensures
        is_one_line("HTTP/1.1 200 OK\r\n".spec_bytes()),
{
    reveal_strlit("HTTP/1.1 200 OK\r\n");
    assert(is_ascii("HTTP/1.1 200 OK\r\n"));
}

proof fn lemma_line_400()
    ensures
        is_one_line("HTTP/1.1 400 Bad Request\r\n".spec_bytes()),
{
    reveal_strlit("HTTP/1.1 400 Bad Request\r\n");
    assert(is_ascii("HTTP/1.1 400 Bad Request\r\n"));
}

proof fn lemma_line_404()
    ensures
        is_one_line("HTTP/1.1 404 Not Found\r\n".spec_bytes()),
{
    reveal_strlit("HTTP/1.1 404 Not Found\r\n");
    assert(is_ascii("HTTP/1.1 404 Not Found\r\n"));
}

proof fn lemma_line_422()
    ensures
        is_one_line("HTTP/1.1 422 Unprocessable Entity\r\n".spec_bytes()),
{
    reveal_strlit("HTTP/1.1 422 Unprocessable Entity\r\n");
    assert(is_ascii("HTTP/1.1 422 Unprocessable Entity\r\n"));
}

proof fn lemma_line_503()
    ensures
        is_one_line("HTTP/1.1 503 Service Unavailable\r\n".spec_bytes()),
{
    reveal_strlit("HTTP/1.1 503 Service Unavailable\r\n");
    assert(is_ascii("HTTP/1.1 503 Service Unavailable\r\n"));
}

proof fn lemma_plain_announces(status: u16)
    ensures
        announces_its_length(plain(status)),
{
    let nothing = Seq::<u8>::empty();
    lemma_status_line(status);
    lemma_announces(status_line(status), 0, nothing);
    assert(plain(status) + nothing =~= plain(status));
}

proof fn lemma_scored_announces(approved: bool, score: int)
    ensures
        announces_its_length(scored(approved, score)),
{
    reveal_strlit("Content-Length: ");
    assert(is_ascii("Content-Length: "));
    reveal_strlit("HTTP/1.1 200 OK\r\nContent-Type: application/json\r\nContent-Length: ");
    assert(is_ascii("HTTP/1.1 200 OK\r\nContent-Type: application/json\r\nContent-Length: "));
    let all = "HTTP/1.1 200 OK\r\nContent-Type: application/json\r\nContent-Length: ".spec_bytes();
    let head = all.subrange(0, 49);
    let content = body(approved, score);
    lemma_announces(head, content.len() as int, content);
    assert(all =~= head + "Content-Length: ".spec_bytes());
}

/// Whether a text holds another one at a position.
spec fn holds(s: Seq<u8>, i: int, t: Seq<u8>) -> bool {
    &&& 0 <= i
    &&& i + t.len() <= s.len()
    &&& forall|k: int| i <= k < i + t.len() ==> #[trigger] s[k] == t[k - i]
}

proof fn lemma_parts_of_body(approved: bool, n: int)
    ensures
        ({
            let b = body(approved, n);
            let e = if approved {
                16int
            } else {
                17int
            };
            &&& holds(b, 0, "{\"approved\":".spec_bytes())
            &&& holds(b, 12, word_for(approved))
            &&& holds(b, e, ",\"fraud_score\":".spec_bytes())
            &&& holds(b, e + 15, tenths(n))
            &&& holds(b, e + 15 + tenths(n).len(), "}".spec_bytes())
            &&& b.len() == e + 16 + tenths(n).len()
            &&& word_for(approved).len() == e - 12
        }),
{
    reveal_strlit("{\"approved\":");
    assert(is_ascii("{\"approved\":"));
    reveal_strlit("true");
    assert(is_ascii("true"));
    reveal_strlit("false");
    assert(is_ascii("false"));
    reveal_strlit(",\"fraud_score\":");
    assert(is_ascii(",\"fraud_score\":"));
    reveal_strlit("}");
    assert(is_ascii("}"));
}

/// Reading the body of an answer gives back what was decided: the first key is `approved`, and
/// its value is the decision.
proof fn lemma_decision_is_read(approved: bool, n: int)
    ensures
        ({
            let b = body(approved, n);
            &&& json_lexer::member_at(b, 0) == (Some("approved".spec_bytes()), 12int)
            &&& json_lexer::bool_at(b, 12).0 == approved
            &&& json_lexer::bool_at(b, 12).1 == (if approved {
                16int
            } else {
                17int
            })
        }),
{
    let b = body(approved, n);
    lemma_parts_of_body(approved, n);
    reveal_strlit("{\"approved\":");
    assert(is_ascii("{\"approved\":"));
    reveal_strlit("approved");
    assert(is_ascii("approved"));
    reveal_strlit("true");
    assert(is_ascii("true"));
    reveal_strlit("false");
    assert(is_ascii("false"));
    reveal_strlit(",\"fraud_score\":");
    assert(is_ascii(",\"fraud_score\":"));
    let quote = 0x22u8;
    let e = if approved {
        16int
    } else {
        17int
    };
    assert(b[0] == 0x7b && b[1] == quote && b[10] == quote && b[11] == 0x3a);
    bytes::lemma_scan_is(b, 0, bytes::either(quote, 0x7d), 1);
    bytes::lemma_scan_is(b, 1, bytes::byte(quote), 1);
    assert forall|j: int| 2 <= j < 10 implies #[trigger] b[j] != quote by {
        assert(b[j] == "{\"approved\":".spec_bytes()[j]);
    }
    bytes::lemma_scan_is(b, 2, bytes::byte(quote), 10);
    bytes::lemma_scan_is(b, 11, bytes::byte(0x3a), 11);
    assert(b[12] == word_for(approved)[0]);
    bytes::lemma_scan_is(b, 12, bytes::non_space(), 12);
    assert(b.subrange(2, 10) =~= "approved".spec_bytes());
    bytes::lemma_scan_is(b, 12, bytes::either(0x74, 0x66), 12);
    assert forall|j: int| 12 <= j < e implies bytes::is_letter(#[trigger] b[j]) by {
        assert(b[j] == word_for(approved)[j - 12]);
    }
    assert(b[e] == ",\"fraud_score\":".spec_bytes()[0]);
    bytes::lemma_scan_is(b, 12, bytes::non_letter(), e);
}

/// The second key is `fraud_score`, and its value is the score; nothing follows it.
proof fn lemma_score_is_read(approved: bool, n: int)
    requires
        0 <= n < 1000,
    ensures
        ({
            let b = body(approved, n);
            let e = if approved {
                16int
            } else {
                17int
            };
            let (read, end) = json_lexer::decimal_at(b, e + 15);
            &&& json_lexer::member_at(b, e) == (Some("fraud_score".spec_bytes()), e + 15)
            &&& !read.negative
            &&& bytes::decimal(read.whole) == n / 10
            &&& read.fraction.len() == 1
            &&& bytes::decimal(read.fraction) == n % 10
            &&& json_lexer::member_at(b, end) == (None::<Seq<u8>>, b.len() as int)
        }),
{
    let b = body(approved, n);
    lemma_parts_of_body(approved, n);
    reveal_strlit(",\"fraud_score\":");
    assert(is_ascii(",\"fraud_score\":"));
    reveal_strlit("fraud_score");
    assert(is_ascii("fraud_score"));
    reveal_strlit("}");
    assert(is_ascii("}"));
    let name = ",\"fraud_score\":".spec_bytes();
    let quote = 0x22u8;
    let e = if approved {
        16int
    } else {
        17int
    };
    assert(b[e] == name[0] && b[e + 1] == name[1] && b[e + 13] == name[13] && b[e + 14]
        == name[14]);
    bytes::lemma_scan_is(b, e, bytes::either(quote, 0x7d), e + 1);
    bytes::lemma_scan_is(b, e + 1, bytes::byte(quote), e + 1);
    assert forall|j: int| e + 2 <= j < e + 13 implies #[trigger] b[j] != quote by {
        assert(b[j] == name[j - e]);
    }
    bytes::lemma_scan_is(b, e + 2, bytes::byte(quote), e + 13);
    bytes::lemma_scan_is(b, e + 14, bytes::byte(0x3a), e + 14);
    assert(b.subrange(e + 2, e + 13) =~= "fraud_score".spec_bytes());
    let s = e + 15;
    let t = tenths(n);
    let p = s + t.len() - 2;
    let end = s + t.len();
    assert(b[s] == t[0]);
    bytes::lemma_scan_is(b, s, bytes::non_space(), s);
    bytes::lemma_scan_is(b, s, bytes::digit_or_minus(), s);
    assert(b[p] == t[p - s]);
    assert(b[p + 1] == t[p + 1 - s]);
    assert forall|j: int| s <= j < p implies bytes::is_digit(#[trigger] b[j]) by {
        assert(b[j] == t[j - s]);
    }
    bytes::lemma_scan_is(b, s, bytes::non_digit(), p);
    assert(b[end] == "}".spec_bytes()[0]);
    bytes::lemma_scan_is(b, p + 1, bytes::non_digit(), end);
    reveal_with_fuel(bytes::decimal, 3);
    let fraction = b.subrange(p + 1, end);
    assert(fraction =~= seq![digit(n % 10)]);
    assert(fraction.drop_last() =~= Seq::empty());
    let whole = b.subrange(s, p);
    if n < 100 {
        assert(whole =~= seq![digit(n / 10)]);
        assert(whole.drop_last() =~= Seq::empty());
    } else {
        assert(whole =~= seq![digit(n / 100), digit(n / 10 % 10)]);
        assert(whole.drop_last() =~= seq![digit(n / 100)]);
        assert(seq![digit(n / 100)].drop_last() =~= Seq::empty());
    }
    bytes::lemma_scan_is(b, end, bytes::either(quote, 0x7d), end);
}

/// An answer says what was decided: read as JSON, what stands behind its headers has the member
/// `approved`, true exactly if the transaction is approved, and then the member `fraud_score`,
/// which is the score, and no other one.
pub proof fn an_answer_says_what_was_decided(approved: bool, n: int)
    requires
        0 <= n < 1000,
    ensures
        ({
            let response = scored(approved, n);
            let end = http_parser::headers_len(response);
            let b = response.skip(end->0);
            let first = json_lexer::member_at(b, 0);
            let decision = json_lexer::bool_at(b, first.1);
            let second = json_lexer::member_at(b, decision.1);
            let score = json_lexer::decimal_at(b, second.1);
            &&& end is Some
            &&& first.0 == Some("approved".spec_bytes())
            &&& decision.0 == approved
            &&& second.0 == Some("fraud_score".spec_bytes())
            &&& !score.0.negative
            &&& 10 * bytes::decimal(score.0.whole) + bytes::decimal(score.0.fraction) == n
            &&& score.0.fraction.len() == 1
            &&& json_lexer::member_at(b, score.1) == (None::<Seq<u8>>, b.len() as int)
        }),
{
    let response = scored(approved, n);
    let b = body(approved, n);
    lemma_scored_announces(approved, n);
    lemma_decision_is_read(approved, n);
    lemma_score_is_read(approved, n);
    lemma_headers_of_scored(approved, n);
}

/// Whatever the score is, an answer tells the decision first, and it ends with the last digit of
/// the score behind a dot.
pub proof fn the_decision_is_told_whatever_the_score(approved: bool, n: int)
    requires
        0 <= n,
    ensures
        ({
            let response = scored(approved, n);
            let end = http_parser::headers_len(response);
            let b = response.skip(end->0);
            let first = json_lexer::member_at(b, 0);
            &&& end is Some
            &&& first.0 == Some("approved".spec_bytes())
            &&& json_lexer::bool_at(b, first.1).0 == approved
            &&& b.len() > 3
            &&& b[b.len() - 1] == 0x7d
            &&& b[b.len() - 2] == 0x30 + n % 10
            &&& b[b.len() - 3] == 0x2e
        }),
{
    let b = body(approved, n);
    let t = tenths(n);
    lemma_decision_is_read(approved, n);
    lemma_parts_of_body(approved, n);
    lemma_headers_of_scored(approved, n);
    reveal_strlit("}");
    assert(is_ascii("}"));
    assert(b[b.len() - 1] == "}".spec_bytes()[0]);
    assert(b[b.len() - 2] == t[t.len() - 1]);
    assert(b[b.len() - 3] == t[t.len() - 2]);
}

/// The body of an answer stands behind its headers.
proof fn lemma_headers_of_scored(approved: bool, n: int)
    ensures
        http_parser::headers_len(scored(approved, n)) is Some,
        scored(approved, n).skip(http_parser::headers_len(scored(approved, n))->0) == body(
            approved,
            n,
        ),
{
    let response = scored(approved, n);
    let b = body(approved, n);
    let mark = "\r\n\r\n".spec_bytes();
    reveal_strlit("\r\n\r\n");
    assert(is_ascii("\r\n\r\n"));
    reveal_strlit("HTTP/1.1 200 OK\r\nContent-Type: application/json\r\nContent-Length: ");
    assert(is_ascii("HTTP/1.1 200 OK\r\nContent-Type: application/json\r\nContent-Length: "));
    let all = "HTTP/1.1 200 OK\r\nContent-Type: application/json\r\nContent-Length: ".spec_bytes();
    let num = numeral(b.len() as int);
    a_numeral_denotes_its_number(b.len() as int);
    let e = all.len() as int + num.len();
    assert(response.subrange(e, e + 4) =~= mark);
    assert forall|i: int| 0 <= i < e implies !#[trigger] bytes::occurs_at(response, i, mark) by {
        if bytes::occurs_at(response, i, mark) {
            let part = response.subrange(i, i + 4);
            assert(part[0] == 0x0d && part[2] == 0x0d);
            if i < all.len() {
                assert(response[i] == all[i]);
                if i + 2 < all.len() {
                    assert(response[i + 2] == all[i + 2]);
                }
            } else {
                assert(response[i] == num[i - all.len()]);
            }
        }
    }
    bytes::lemma_find_is(response, 0, mark, e);
    assert(response.skip(e + 4) =~= b);
}

/// Every response names its status in its first line.
pub proof fn a_response_names_its_status(status: u16, approved: bool, n: int)
    requires
        status == 200 || status == 400 || status == 404 || status == 422 || status == 503,
    ensures
        plain(status).len() > 12,
        plain(status).take(9) == "HTTP/1.1 ".spec_bytes(),
        bytes::decimal(plain(status).subrange(9, 12)) == status,
        plain(status)[12] == 0x20,
        scored(approved, n).len() > 12,
        scored(approved, n).take(9) == "HTTP/1.1 ".spec_bytes(),
        bytes::decimal(scored(approved, n).subrange(9, 12)) == 200,
        scored(approved, n)[12] == 0x20,
{
    lemma_status_is_named(status);
    lemma_names_200();
    let all = "HTTP/1.1 200 OK\r\nContent-Type: application/json\r\nContent-Length: ".spec_bytes();
    let line = status_line(status);
    assert(plain(status).take(9) =~= line.take(9));
    assert(plain(status).subrange(9, 12) =~= line.subrange(9, 12));
    assert(scored(approved, n).take(9) =~= all.take(9));
    assert(scored(approved, n).subrange(9, 12) =~= all.subrange(9, 12));
}

spec fn names(line: Seq<u8>, status: int) -> bool {
    &&& line.len() > 12
    &&& line.take(9) == "HTTP/1.1 ".spec_bytes()
    &&& bytes::decimal(line.subrange(9, 12)) == status
    &&& line[12] == 0x20
}

proof fn lemma_three_digits(line: Seq<u8>, a: int, b: int, c: int)
    requires
        line.len() > 12,
        line[9] == 48 + a,
        line[10] == 48 + b,
        line[11] == 48 + c,
    ensures
        bytes::decimal(line.subrange(9, 12)) == 100 * a + 10 * b + c,
{
    let s = line.subrange(9, 12);
    reveal_with_fuel(bytes::decimal, 4);
    assert(s.drop_last() =~= line.subrange(9, 11));
    assert(line.subrange(9, 11).drop_last() =~= line.subrange(9, 10));
    assert(line.subrange(9, 10).drop_last() =~= Seq::empty());
}

proof fn lemma_names_200()
    ensures
        names(
            "HTTP/1.1 200 OK\r\nContent-Type: application/json\r\nContent-Length: ".spec_bytes(),
            200,
        ),
{
    reveal_strlit("HTTP/1.1 ");
    assert(is_ascii("HTTP/1.1 "));
    reveal_strlit("HTTP/1.1 200 OK\r\nContent-Type: application/json\r\nContent-Length: ");
    assert(is_ascii("HTTP/1.1 200 OK\r\nContent-Type: application/json\r\nContent-Length: "));
    let line = "HTTP/1.1 200 OK\r\nContent-Type: application/json\r\nContent-Length: ".spec_bytes();
    lemma_three_digits(line, 2, 0, 0);
    assert(line.take(9) =~= "HTTP/1.1 ".spec_bytes());
}

proof fn lemma_status_is_named(status: u16)
    requires
        status == 200 || status == 400 || status == 404 || status == 422 || status == 503,
    ensures
        names(status_line(status), status as int),
{
    reveal_strlit("HTTP/1.1 ");
    assert(is_ascii("HTTP/1.1 "));
    let line = status_line(status);
    if status == 200 {
        reveal_strlit("HTTP/1.1 200 OK\r\n");
        assert(is_ascii("HTTP/1.1 200 OK\r\n"));
        lemma_three_digits(line, 2, 0, 0);
    } else if status == 400 {
        reveal_strlit("HTTP/1.1 400 Bad Request\r\n");
        assert(is_ascii("HTTP/1.1 400 Bad Request\r\n"));
        lemma_three_digits(line, 4, 0, 0);
    } else if status == 404 {
        reveal_strlit("HTTP/1.1 404 Not Found\r\n");
        assert(is_ascii("HTTP/1.1 404 Not Found\r\n"));
        lemma_three_digits(line, 4, 0, 4);
    } else if status == 422 {
        reveal_strlit("HTTP/1.1 422 Unprocessable Entity\r\n");
        assert(is_ascii("HTTP/1.1 422 Unprocessable Entity\r\n"));
        lemma_three_digits(line, 4, 2, 2);
    } else {
        reveal_strlit("HTTP/1.1 503 Service Unavailable\r\n");
        assert(is_ascii("HTTP/1.1 503 Service Unavailable\r\n"));
        lemma_three_digits(line, 5, 0, 3);
    }
    assert(line.take(9) =~= "HTTP/1.1 ".spec_bytes());
}

/// A response is written as it should be, byte for byte, whatever was decided.
pub proof fn responses_are_written_out(
    status: u16,
    plainly: Vec<u8>,
    approved: bool,
    score: u32,
    told: Vec<u8>,
)
    requires
        call_ensures(plain_response, (status,), plainly),
        call_ensures(scored_response, (approved, score), told),
    ensures
        plainly@ == plain(status),
        told@ == scored(approved, score as int),
{
}

} // verus!
