//! Requests of the server: where a request ends, and what it asks for.
use vstd::prelude::*;
use vstd::string::*;
use crate::bytes;

verus! {

/// The largest request that is looked at, headers and body together.
pub const MAX_REQUEST_SIZE: usize = 16 * 1024;

/// What a request asks for.
pub enum HttpRoute<'a> {
    /// Whether the server is ready.
    Ready,
    /// The score of the transaction in the body.
    FraudScore(&'a [u8]),
    /// Something that is not offered.
    NotFound,
    /// The request is not complete yet.
    Incomplete,
}

/// What an `HttpRoute` stands for.
pub enum RouteView {
    Ready,
    FraudScore(Seq<u8>),
    NotFound,
    Incomplete,
}

impl<'a> View for HttpRoute<'a> {
    type V = RouteView;

    open spec fn view(&self) -> RouteView {
        match *self {
            HttpRoute::Ready => RouteView::Ready,
            HttpRoute::FraudScore(body) => RouteView::FraudScore(body@),
            HttpRoute::NotFound => RouteView::NotFound,
            HttpRoute::Incomplete => RouteView::Incomplete,
        }
    }
}

/// The length of the headers, the empty line behind them included.
pub open spec fn headers_len(buf: Seq<u8>) -> Option<int> {
    match bytes::find(buf, "\r\n\r\n".spec_bytes()) {
        Some(k) => Some(k + 4),
        None => None,
    }
}

/// What stands between the first two spaces.
pub open spec fn path_of(headers: Seq<u8>) -> Seq<u8> {
    let first = bytes::scan(headers, 0, bytes::byte(0x20));
    let second = bytes::scan(headers, first + 1, bytes::byte(0x20));
    if first < headers.len() && second < headers.len() {
        headers.subrange(first + 1, second)
    } else {
        Seq::empty()
    }
}

/// Digits, and the bytes that end a line.
pub open spec fn digit_or_line_end() -> spec_fn(u8) -> bool {
    |b: u8| bytes::is_digit(b) || b == 0x0d || b == 0x0a
}

/// The number that the first digits behind `start` denote; zero if the line ends before them.
pub open spec fn number_in_line(headers: Seq<u8>, start: int) -> int {
    let first = bytes::scan(headers, start, digit_or_line_end());
    let end = bytes::scan(headers, first, bytes::non_digit());
    bytes::decimal(headers.subrange(first, end))
}

/// Where the name of the header that gives the length of the body stands, in the one spelling
/// or else in the other.
pub open spec fn length_header(headers: Seq<u8>) -> Option<int> {
    match bytes::find(headers, "Content-Length: ".spec_bytes()) {
        Some(k) => Some(k),
        None => bytes::find(headers, "content-length: ".spec_bytes()),
    }
}

/// The length of the body that the headers announce.
pub open spec fn content_length(headers: Seq<u8>) -> int {
    match length_header(headers) {
        Some(k) => number_in_line(headers, k + 16),
        None => 0,
    }
}

/// The route of a complete request.
pub open spec fn route_of(path: Seq<u8>, body: Seq<u8>) -> RouteView {
    if bytes::starts_with(path, "/ready".spec_bytes()) && (path.len() == 6 || path[6] == 0x2f
        || path[6] == 0x3f) {
        RouteView::Ready
    } else if bytes::starts_with(path, "/fraud-score".spec_bytes()) {
        RouteView::FraudScore(body)
    } else {
        RouteView::NotFound
    }
}

/// The length of the request at the start of `buf` whose headers have length `end`.
pub open spec fn request_len(buf: Seq<u8>, end: int) -> int {
    end + content_length(buf.subrange(0, end))
}

/// The route of the request at the start of `buf`, and its length. An incomplete request and
/// one that is too large have length zero.
pub open spec fn request(buf: Seq<u8>) -> (RouteView, int) {
    match headers_len(buf) {
        None => (RouteView::Incomplete, 0),
        Some(end) => {
            let total = request_len(buf, end);
            if total > MAX_REQUEST_SIZE {
                (RouteView::NotFound, 0)
            } else if buf.len() < total {
                (RouteView::Incomplete, 0)
            } else {
                (route_of(path_of(buf.subrange(0, end)), buf.subrange(end, total)), total)
            }
        },
    }
}

/// Whether the length of the request at the start of `buf` is a `usize`.
pub open spec fn in_range(buf: Seq<u8>) -> bool {
    headers_len(buf) matches Some(end) ==> request_len(buf, end) <= usize::MAX
}

/// The path of a request.
fn find_path<'a>(headers: &'a [u8]) -> (r: &'a [u8])
    ensures
        r@ == path_of(headers@),
{
    let first = bytes::find_byte(headers, 0, 0x20);
    if first < headers.len() {
        let second = bytes::find_byte(headers, first + 1, 0x20);
        if second < headers.len() {
            return &headers[first + 1..second];
        }
    }
    assert(headers@.subrange(0, 0) =~= Seq::empty());
    &headers[0..0]
}

/// The number in a line; none if it is above `usize::MAX`.
fn read_number(headers: &[u8], start: usize) -> (r: Option<usize>)
    requires
        start <= headers@.len(),
    ensures
        r is Some <==> number_in_line(headers@, start as int) <= usize::MAX,
        r is Some ==> r->0 == number_in_line(headers@, start as int),
        0 <= number_in_line(headers@, start as int),
{
    let mut k: usize = start;
    while k < headers.len() && !bytes::digit_byte(headers[k]) && headers[k] != 0x0d && headers[k]
        != 0x0a
        invariant
            start <= k <= headers@.len(),
            forall|j: int|
                start <= j < k ==> !bytes::is_digit(#[trigger] headers@[j]) && headers@[j] != 0x0d
                    && headers@[j] != 0x0a,
        decreases headers@.len() - k,
    {
        k += 1;
    }
    let first: usize = k;
    proof {
        bytes::lemma_scan_is(headers@, start as int, digit_or_line_end(), first as int);
        bytes::lemma_scan(headers@, first as int, bytes::non_digit());
    }
    let ghost run = headers@.subrange(
        first as int,
        bytes::scan(headers@, first as int, bytes::non_digit()),
    );
    assert forall|j: int| 0 <= j < run.len() implies bytes::is_digit(#[trigger] run[j]) by {
        assert(run[j] == headers@[first + j]);
    }
    let mut val: usize = 0;
    assert(run.take(0) =~= Seq::empty());
    proof {
        bytes::lemma_decimal_monotone(run, 0);
    }
    while k < headers.len() && bytes::digit_byte(headers[k])
        invariant
            first <= k <= headers@.len(),
            k <= first + run.len(),
            first + run.len() == bytes::scan(headers@, first as int, bytes::non_digit()),
            first + run.len() <= headers@.len(),
            first + run.len() < headers@.len() ==> !bytes::is_digit(
                headers@[first + run.len()],
            ),
            run == headers@.subrange(first as int, first + run.len()),
            forall|j: int| 0 <= j < run.len() ==> bytes::is_digit(#[trigger] run[j]),
            val == bytes::decimal(run.take(k - first)),
            bytes::decimal(run) == number_in_line(headers@, start as int),
            0 <= bytes::decimal(run),
        decreases headers@.len() - k,
    {
        assert(k < first + run.len());
        assert(run[k - first] == headers@[k as int]);
        let d: usize = (headers[k] - 0x30) as usize;
        proof {
            assert(run.take(k - first + 1).drop_last() =~= run.take(k - first));
            bytes::lemma_decimal_monotone(run, k - first + 1);
        }
        val = match val.checked_mul(10) {
            Some(v) => match v.checked_add(d) {
                Some(v) => v,
                None => {
                    return None;
                },
            },
            None => {
                return None;
            },
        };
        k += 1;
    }
    proof {
        if k < first + run.len() {
            assert(run[k - first] == headers@[k as int]);
        }
        assert(run.take(k - first) =~= run);
    }
    Some(val)
}

/// The length of the body that the headers announce; none if it is above `usize::MAX`.
fn read_content_length(headers: &[u8]) -> (r: Option<usize>)
    ensures
        r is Some <==> content_length(headers@) <= usize::MAX,
        r is Some ==> r->0 == content_length(headers@),
        0 <= content_length(headers@),
{
    let upper: &[u8] = "Content-Length: ".as_bytes();
    let lower: &[u8] = "content-length: ".as_bytes();
    proof {
        reveal_strlit("Content-Length: ");
        reveal_strlit("content-length: ");
        assert(is_ascii("Content-Length: "));
        assert(is_ascii("content-length: "));
        assert(upper@.len() == 16 && lower@.len() == 16);
        assert(headers@.len() == headers.len());
        bytes::lemma_find_from(headers@, 0, upper@);
        bytes::lemma_find_from(headers@, 0, lower@);
    }
    let pos = match memchr::memmem::find(headers, upper) {
        Some(k) => Some(k),
        None => memchr::memmem::find(headers, lower),
    };
    match pos {
        Some(k) => read_number(headers, k + 16),
        None => Some(0),
    }
}

/// Finds the request at the start of `buf`, whatever it holds: its route and its length. The
/// result is `None` exactly if its length is above `usize::MAX`.
pub fn read_request(buf: &[u8]) -> (r: Option<(HttpRoute<'_>, usize)>)
    ensures
        r is Some <==> in_range(buf@),
        r matches Some((route, len)) ==> route@ == request(buf@).0 && len == request(buf@).1,
{
    let mark: &[u8] = "\r\n\r\n".as_bytes();
    proof {
        reveal_strlit("\r\n\r\n");
        assert(is_ascii("\r\n\r\n"));
        assert(mark@.len() == 4);
        assert(buf@.len() == buf.len());
        bytes::lemma_find_from(buf@, 0, mark@);
    }
    let end = match memchr::memmem::find(buf, mark) {
        Some(k) => k + 4,
        None => {
            return Some((HttpRoute::Incomplete, 0));
        },
    };
    let headers: &[u8] = &buf[0..end];
    let path = find_path(headers);
    let total = match read_content_length(headers) {
        Some(n) => match end.checked_add(n) {
            Some(total) => total,
            None => {
                return None;
            },
        },
        None => {
            return None;
        },
    };
    if total > MAX_REQUEST_SIZE {
        return Some((HttpRoute::NotFound, 0));
    }
    if buf.len() < total {
        return Some((HttpRoute::Incomplete, 0));
    }
    proof {
        reveal_strlit("/ready");
        assert(is_ascii("/ready"));
    }
    let route = if bytes::has_prefix(path, "/ready".as_bytes()) && (path.len() == 6 || path[6]
        == 0x2f || path[6] == 0x3f) {
        HttpRoute::Ready
    } else if bytes::has_prefix(path, "/fraud-score".as_bytes()) {
        HttpRoute::FraudScore(&buf[end..total])
    } else {
        HttpRoute::NotFound
    };
    Some((route, total))
}

/// Finds the request at the start of `buf`: its route and its length.
pub fn parse_http_request(buf: &[u8]) -> (r: (HttpRoute<'_>, usize))
    requires
        in_range(buf@),
    ensures
        r.0@ == request(buf@).0,
        r.1 == request(buf@).1,
{
    match read_request(buf) {
        Some(r) => r,
        None => (HttpRoute::NotFound, 0),
    }
}

/// A request is read from its own bytes: what follows it in the buffer changes neither its
/// route nor its length.
pub proof fn what_follows_does_not_matter(buf: Seq<u8>, more: Seq<u8>)
    requires
        request(buf).0 !is Incomplete,
    ensures
        request(buf + more) == request(buf),
{
    let mark = "\r\n\r\n".spec_bytes();
    reveal_strlit("\r\n\r\n");
    assert(is_ascii("\r\n\r\n"));
    bytes::lemma_find_from(buf, 0, mark);
    bytes::lemma_find_extends(buf, more, mark);
    let end = headers_len(buf)->0;
    let total = request_len(buf, end);
    lemma_content_length_nonnegative(buf.subrange(0, end));
    assert((buf + more).subrange(0, end) =~= buf.subrange(0, end));
    if total <= buf.len() {
        assert((buf + more).subrange(end, total) =~= buf.subrange(end, total));
    }
}

/// A request that is taken off the buffer is not larger than the limit and lies in the buffer
/// as a whole; and it is the same request when it stands there alone.
pub proof fn a_request_lies_in_the_buffer(buf: Seq<u8>)
    requires
        request(buf).1 > 0,
    ensures
        request(buf).0 !is Incomplete,
        request(buf).1 <= MAX_REQUEST_SIZE,
        request(buf).1 <= buf.len(),
        request(buf.take(request(buf).1)) == request(buf),
{
    let mark = "\r\n\r\n".spec_bytes();
    reveal_strlit("\r\n\r\n");
    assert(is_ascii("\r\n\r\n"));
    bytes::lemma_find_from(buf, 0, mark);
    let end = headers_len(buf)->0;
    let total = request_len(buf, end);
    lemma_content_length_nonnegative(buf.subrange(0, end));
    let alone = buf.take(total);
    assert(alone + buf.skip(total) =~= buf);
    assert forall|j: int| 0 <= j < end - 4 implies !#[trigger] bytes::occurs_at(
        alone,
        j,
        mark,
    ) by {
        assert(alone.subrange(j, j + 4) =~= buf.subrange(j, j + 4));
        assert(!bytes::occurs_at(buf, j, mark));
    }
    assert(alone.subrange(end - 4, end) =~= buf.subrange(end - 4, end));
    bytes::lemma_find_is(alone, 0, mark, end - 4);
    assert(alone.subrange(0, end) =~= buf.subrange(0, end));
    assert(alone.subrange(end, total) =~= buf.subrange(end, total));
}

proof fn lemma_content_length_nonnegative(headers: Seq<u8>)
    ensures
        0 <= content_length(headers),
{
    match length_header(headers) {
        Some(k) => {
            bytes::lemma_find_from(headers, 0, "Content-Length: ".spec_bytes());
            bytes::lemma_find_from(headers, 0, "content-length: ".spec_bytes());
            reveal_strlit("Content-Length: ");
            reveal_strlit("content-length: ");
            assert(is_ascii("Content-Length: "));
            assert(is_ascii("content-length: "));
            bytes::lemma_scan(headers, k + 16, digit_or_line_end());
            let first = bytes::scan(headers, k + 16, digit_or_line_end());
            bytes::lemma_scan(headers, first, bytes::non_digit());
            let run = headers.subrange(first, bytes::scan(headers, first, bytes::non_digit()));
            assert forall|j: int| 0 <= j < run.len() implies bytes::is_digit(
                #[trigger] run[j],
            ) by {
                assert(run[j] == headers[first + j]);
            }
            bytes::lemma_decimal_monotone(run, 0);
            assert(run.take(0) =~= Seq::empty());
        },
        None => {},
    }
}

/// Whether these bytes are headers: an empty line ends them, and there is none before.
pub open spec fn are_headers(headers: Seq<u8>) -> bool {
    &&& headers.len() >= 4
    &&& headers.skip(headers.len() - 4) == seq![0x0du8, 0x0au8, 0x0du8, 0x0au8]
    &&& forall|i: int|
        0 <= i < headers.len() - 4 ==> #[trigger] headers.subrange(i, i + 4)
            != seq![0x0du8, 0x0au8, 0x0du8, 0x0au8]
}

/// Whether headers announce a length: the name of the header, for the first time, at `p`, and
/// then digits for it up to the end of the line. The name in capitals goes before the other
/// one.
pub open spec fn announce_at(headers: Seq<u8>, p: int, digits: Seq<u8>) -> bool {
    let upper = "Content-Length: ".spec_bytes();
    let lower = "content-length: ".spec_bytes();
    &&& 0 <= p
    &&& digits.len() > 0
    &&& forall|k: int| 0 <= k < digits.len() ==> 48 <= #[trigger] digits[k] <= 57
    &&& p + 16 + digits.len() < headers.len()
    &&& headers.subrange(p + 16, p + 16 + digits.len()) == digits
    &&& !(48 <= headers[p + 16 + digits.len()] <= 57)
    &&& {
        ||| headers.subrange(p, p + 16) == upper && forall|i: int|
            0 <= i < p ==> #[trigger] headers.subrange(i, i + 16) != upper
        ||| headers.subrange(p, p + 16) == lower && (forall|i: int|
            0 <= i < p ==> #[trigger] headers.subrange(i, i + 16) != lower) && forall|i: int|
            0 <= i <= headers.len() - 16 ==> #[trigger] headers.subrange(i, i + 16) != upper
    }
}

/// Whether headers announce no length.
pub open spec fn announce_nothing(headers: Seq<u8>) -> bool {
    forall|i: int|
        0 <= i <= headers.len() - 16 ==> #[trigger] headers.subrange(i, i + 16)
            != "Content-Length: ".spec_bytes() && headers.subrange(i, i + 16)
            != "content-length: ".spec_bytes()
}

proof fn lemma_names()
    ensures
        "Content-Length: ".spec_bytes().len() == 16,
        "content-length: ".spec_bytes().len() == 16,
        "\r\n\r\n".spec_bytes() == seq![0x0du8, 0x0au8, 0x0du8, 0x0au8],
{
    reveal_strlit("Content-Length: ");
    assert(is_ascii("Content-Length: "));
    reveal_strlit("content-length: ");
    assert(is_ascii("content-length: "));
    reveal_strlit("\r\n\r\n");
    assert(is_ascii("\r\n\r\n"));
    assert("\r\n\r\n".spec_bytes() =~= seq![0x0du8, 0x0au8, 0x0du8, 0x0au8]);
}

proof fn lemma_not_found(s: Seq<u8>, needle: Seq<u8>)
    requires
        needle.len() == 16,
        forall|i: int|
            0 <= i <= s.len() - 16 ==> #[trigger] s.subrange(i, i + 16) != needle,
    ensures
        bytes::find(s, needle) is None,
{
    bytes::lemma_find_from(s, 0, needle);
    if let Some(k) = bytes::find(s, needle) {
        assert(bytes::occurs_at(s, k, needle));
        assert(s.subrange(k, k + 16) == needle);
    }
}

/// The length that headers announce is the number that they write; it is zero if they write
/// none.
pub proof fn the_announced_length_is_read(headers: Seq<u8>, p: int, digits: Seq<u8>)
    ensures
        announce_at(headers, p, digits) ==> content_length(headers) == bytes::decimal(digits),
        announce_nothing(headers) ==> content_length(headers) == 0,
{
    let upper = "Content-Length: ".spec_bytes();
    let lower = "content-length: ".spec_bytes();
    lemma_names();
    if announce_nothing(headers) {
        lemma_not_found(headers, upper);
        lemma_not_found(headers, lower);
    }
    if announce_at(headers, p, digits) {
        let name = headers.subrange(p, p + 16);
        if name == lower && name != upper {
            assert(forall|i: int|
                0 <= i <= headers.len() - 16 ==> #[trigger] headers.subrange(i, i + 16) != upper);
            lemma_not_found(headers, upper);
        }
        assert(bytes::occurs_at(headers, p, name));
        assert forall|i: int| 0 <= i < p implies !#[trigger] bytes::occurs_at(
            headers,
            i,
            name,
        ) by {
            assert(headers.subrange(i, i + 16) != name);
        }
        bytes::lemma_find_is(headers, 0, name, p);
        assert(length_header(headers) == Some(p));
        let q = p + 16;
        let e = q + digits.len();
        assert forall|j: int| q <= j < e implies bytes::is_digit(#[trigger] headers[j]) by {
            assert(headers.subrange(q, e)[j - q] == digits[j - q]);
        }
        bytes::lemma_scan_is(headers, q, digit_or_line_end(), q);
        bytes::lemma_scan_is(headers, q, bytes::non_digit(), e);
    }
}

/// A whole request is taken as it is: its path stands between the first two spaces of its
/// headers, its body is everything behind them that they announce, neither more nor less, and
/// its length is that of both. What comes behind it does not matter.
pub proof fn a_whole_request_is_taken(
    method: Seq<u8>,
    path: Seq<u8>,
    lines: Seq<u8>,
    body: Seq<u8>,
    more: Seq<u8>,
    p: int,
    digits: Seq<u8>,
)
    requires
        forall|k: int| 0 <= k < method.len() ==> #[trigger] method[k] != 0x20,
        forall|k: int| 0 <= k < path.len() ==> #[trigger] path[k] != 0x20,
        are_headers(method + seq![0x20u8] + path + seq![0x20u8] + lines),
        announce_at(method + seq![0x20u8] + path + seq![0x20u8] + lines, p, digits)
            && bytes::decimal(digits) == body.len() || announce_nothing(
            method + seq![0x20u8] + path + seq![0x20u8] + lines,
        ) && body.len() == 0,
    ensures
        ({
            let headers = method + seq![0x20u8] + path + seq![0x20u8] + lines;
            let (route, len) = request(headers + body + more);
            let fits = headers.len() + body.len() <= 16384;
            let ready = path == "/ready".spec_bytes() || bytes::starts_with(
                path,
                "/ready/".spec_bytes(),
            ) || bytes::starts_with(path, "/ready?".spec_bytes());
            let score = bytes::starts_with(path, "/fraud-score".spec_bytes());
            &&& fits ==> len == headers.len() + body.len()
            &&& fits && ready ==> route == RouteView::Ready
            &&& fits && score ==> route == RouteView::FraudScore(body)
            &&& fits && !ready && !score ==> route == RouteView::NotFound
            &&& !fits ==> route == RouteView::NotFound && len == 0
        }),
{
    let front = method + seq![0x20u8] + path + seq![0x20u8];
    let headers = front + lines;
    let buf = headers + body + more;
    let n = headers.len() as int;
    let mark = "\r\n\r\n".spec_bytes();
    lemma_names();
    assert(buf.subrange(n - 4, n) =~= headers.skip(n - 4));
    assert forall|i: int| 0 <= i < n - 4 implies !#[trigger] bytes::occurs_at(buf, i, mark) by {
        assert(buf.subrange(i, i + 4) =~= headers.subrange(i, i + 4));
    }
    bytes::lemma_find_is(buf, 0, mark, n - 4);
    assert(buf.subrange(0, n) =~= headers);
    the_announced_length_is_read(headers, p, digits);
    assert(buf.subrange(n, n + body.len()) =~= body);
    let a = method.len() as int;
    let b = a + 1 + path.len();
    assert forall|j: int| 0 <= j < a implies #[trigger] headers[j] != 0x20 by {
        assert(headers[j] == method[j]);
    }
    assert(headers[a] == 0x20);
    bytes::lemma_scan_is(headers, 0, bytes::byte(0x20), a);
    assert forall|j: int| a + 1 <= j < b implies #[trigger] headers[j] != 0x20 by {
        assert(headers[j] == path[j - a - 1]);
    }
    assert(headers[b] == 0x20);
    bytes::lemma_scan_is(headers, a + 1, bytes::byte(0x20), b);
    assert(headers.subrange(a + 1, b) =~= path);
    assert(path_of(headers) == path);
    lemma_routes(path, body);
}

proof fn lemma_routes(path: Seq<u8>, body: Seq<u8>)
    ensures
        ({
            let ready = path == "/ready".spec_bytes() || bytes::starts_with(
                path,
                "/ready/".spec_bytes(),
            ) || bytes::starts_with(path, "/ready?".spec_bytes());
            let score = bytes::starts_with(path, "/fraud-score".spec_bytes());
            &&& ready ==> route_of(path, body) == RouteView::Ready
            &&& score ==> route_of(path, body) == RouteView::FraudScore(body)
            &&& !ready && !score ==> route_of(path, body) == RouteView::NotFound
        }),
{
    reveal_strlit("/ready");
    assert(is_ascii("/ready"));
    reveal_strlit("/ready/");
    assert(is_ascii("/ready/"));
    reveal_strlit("/ready?");
    assert(is_ascii("/ready?"));
    reveal_strlit("/fraud-score");
    assert(is_ascii("/fraud-score"));
    let word = "/ready".spec_bytes();
    let slash = "/ready/".spec_bytes();
    let mark = "/ready?".spec_bytes();
    let score = "/fraud-score".spec_bytes();
    assert(slash =~= word.push(0x2f));
    assert(mark =~= word.push(0x3f));
    if bytes::starts_with(path, word) {
        let front = path.subrange(0, 6);
        assert(front[1] == 0x72);
        assert(path[1] == 0x72);
        if path.len() == 6 {
            assert(path =~= front);
        } else {
            assert(path.subrange(0, 7) =~= front.push(path[6]));
            if bytes::starts_with(path, slash) {
                assert(path.subrange(0, 7)[6] == slash[6]);
            }
            if bytes::starts_with(path, mark) {
                assert(path.subrange(0, 7)[6] == mark[6]);
            }
        }
    }
    if bytes::starts_with(path, slash) {
        assert(path.subrange(0, 6) =~= path.subrange(0, 7).take(6));
        assert(slash.take(6) =~= word);
    }
    if bytes::starts_with(path, mark) {
        assert(path.subrange(0, 6) =~= path.subrange(0, 7).take(6));
        assert(mark.take(6) =~= word);
    }
    if path == word {
        assert(path.subrange(0, 6) =~= path);
    }
    if bytes::starts_with(path, score) {
        assert(path.subrange(0, 12)[1] == score[1]);
        assert(path[1] == 0x66);
    }
}

/// A request of which bytes are missing waits for them, however few they are.
pub proof fn a_part_of_a_request_waits(
    headers: Seq<u8>,
    body: Seq<u8>,
    p: int,
    digits: Seq<u8>,
    n: int,
)
    requires
        are_headers(headers),
        announce_at(headers, p, digits) && bytes::decimal(digits) == body.len()
            || announce_nothing(headers) && body.len() == 0,
        headers.len() + body.len() <= 16384,
        0 <= n < headers.len() + body.len(),
    ensures
        request((headers + body).take(n)) == (RouteView::Incomplete, 0int),
{
    let part = (headers + body).take(n);
    let mark = "\r\n\r\n".spec_bytes();
    lemma_names();
    let h = headers.len() as int;
    if n < h {
        bytes::lemma_find_from(part, 0, mark);
        if let Some(k) = bytes::find(part, mark) {
            assert(bytes::occurs_at(part, k, mark));
            assert(part.subrange(k, k + 4) =~= headers.subrange(k, k + 4));
        }
    } else {
        assert(part.subrange(h - 4, h) =~= headers.skip(h - 4));
        assert forall|i: int| 0 <= i < h - 4 implies !#[trigger] bytes::occurs_at(
            part,
            i,
            mark,
        ) by {
            assert(part.subrange(i, i + 4) =~= headers.subrange(i, i + 4));
        }
        bytes::lemma_find_is(part, 0, mark, h - 4);
        assert(part.subrange(0, h) =~= headers);
        the_announced_length_is_read(headers, p, digits);
    }
}

/// Both ways of reading a request find the same one, with its route and its length; that in
/// which its length may be out of range gives nothing exactly then.
pub proof fn both_readings_find_the_request(
    buf: &[u8],
    read: Option<(HttpRoute<'_>, usize)>,
    parsed: (HttpRoute<'_>, usize),
)
    requires
        call_ensures(read_request, (buf,), read),
        in_range(buf@) ==> call_ensures(parse_http_request, (buf,), parsed),
    ensures
        read is None <==> !in_range(buf@),
        read matches Some((route, len)) ==> route@ == request(buf@).0 && len == request(buf@).1
            && parsed.0@ == route@ && parsed.1 == len,
{
}

/// A request that announces more than 16384 bytes in all is not found, as soon as its headers
/// are there and however much of it came. Its length is out of range exactly if it is no
/// `usize`.
pub proof fn a_request_that_is_too_large_is_not_found(
    headers: Seq<u8>,
    rest: Seq<u8>,
    p: int,
    digits: Seq<u8>,
)
    requires
        are_headers(headers),
        announce_at(headers, p, digits),
    ensures
        headers.len() + bytes::decimal(digits) > 16384 ==> request(headers + rest) == (
            RouteView::NotFound,
            0int,
        ),
        in_range(headers + rest) <==> headers.len() + bytes::decimal(digits) <= usize::MAX,
{
    let buf = headers + rest;
    let mark = "\r\n\r\n".spec_bytes();
    lemma_names();
    let h = headers.len() as int;
    assert(buf.subrange(h - 4, h) =~= headers.skip(h - 4));
    assert forall|i: int| 0 <= i < h - 4 implies !#[trigger] bytes::occurs_at(buf, i, mark) by {
        assert(buf.subrange(i, i + 4) =~= headers.subrange(i, i + 4));
    }
    bytes::lemma_find_is(buf, 0, mark, h - 4);
    assert(buf.subrange(0, h) =~= headers);
    the_announced_length_is_read(headers, p, digits);
}

} // verus!
