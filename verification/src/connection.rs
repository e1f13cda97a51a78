//! Connections of the server: what is done with the bytes that come in, and with a response
//! that can be written in part only.
//!
//! A connection has one buffer. Requests are read into it one behind the other, and the
//! response to the first one is written over its start; what follows that request is moved to
//! the start when the response is out.
use vstd::prelude::*;
use crate::http_parser;
use crate::http_parser::{read_request, HttpRoute, RouteView};
use crate::knn::Weighing;
use crate::scoring;
use crate::scoring::{answer_request, AppState};
use crate::vectorizer::Feature;

verus! {

/// The size of the buffer of a connection.
pub const BUF_SIZE: usize = 16384;

/// Connections have numbers below this.
pub const MAX_FDS: usize = 1024;

/// How many new connections are taken over before those that are open have their turn.
pub const UDS_BUDGET: usize = 16;

/// What a request asked for.
#[derive(Clone, Copy, PartialEq, Eq, Structural, Debug)]
pub enum Route {
    Ready,
    FraudScore,
    NotFound,
}

impl Route {
    /// The name of the route in the log.
    pub fn name(&self) -> (r: &'static str)
        ensures
            r@ == match *self {
                Route::Ready => "ready"@,
                Route::FraudScore => "fraud-score"@,
                Route::NotFound => "not-found"@,
            },
    {
        match self {
            Route::Ready => "ready",
            Route::FraudScore => "fraud-score",
            Route::NotFound => "not-found",
        }
    }
}

/// A response that is being written: `len` bytes at the start of the buffer, of which
/// `written` are out. The bytes that came behind the request lie at `leftover_pos`.
pub struct Writing {
    pub buf: Vec<u8>,
    pub len: usize,
    pub written: usize,
    pub route: Route,
    pub status: u16,
    pub leftover_pos: usize,
    pub leftover_len: usize,
}

impl Writing {
    /// All lies in the buffer, and something is left to write.
    pub open spec fn wf(&self) -> bool {
        &&& self.buf@.len() == BUF_SIZE
        &&& self.written < self.len <= BUF_SIZE
        &&& self.leftover_pos + self.leftover_len <= BUF_SIZE
    }
}

/// The state of a connection.
pub enum ConnState {
    Idle,
    /// `pos` bytes were read.
    Reading { buf: Vec<u8>, pos: usize },
    Writing(Writing),
}

/// What becomes of bytes that came in.
pub enum ProcessResult {
    /// There is a response to write.
    Writing(Writing),
    /// The request is not complete.
    Incomplete(Vec<u8>),
    /// The request is not complete and the buffer is full.
    Closed(Vec<u8>),
    /// A number is out of range, or the index does not fit the records.
    OutOfRange(Vec<u8>),
}

/// A buffer after a response was written over its start.
pub open spec fn overwritten(buf: Seq<u8>, response: Seq<u8>) -> Seq<u8> {
    response + buf.skip(response.len() as int)
}

/// The route without the body.
pub open spec fn bare_route(route: RouteView) -> Route {
    match route {
        RouteView::Ready => Route::Ready,
        RouteView::FraudScore(_) => Route::FraudScore,
        _ => Route::NotFound,
    }
}

/// Whether the first `pos` bytes of a buffer may be processed so.
pub open spec fn may_process<
    'a,
    E: for <'b>Fn(Feature<'b>) -> u32,
    D: Fn([u32; 16], [u32; 16]) -> u32,
    S: Fn(Weighing) -> u32,
    N: Fn(u32) -> u32,
>(
    state: Option<AppState<'a, E, D, S, N>>,
    buf: Seq<u8>,
    pos: int,
    r: ProcessResult,
) -> bool {
    let bytes = buf.take(pos);
    let (route, total) = http_parser::request(bytes);
    if !http_parser::in_range(bytes) {
        r matches ProcessResult::OutOfRange(b) && b@ == buf
    } else if route is Incomplete {
        if pos == BUF_SIZE {
            r matches ProcessResult::Closed(b) && b@ == buf
        } else {
            r matches ProcessResult::Incomplete(b) && b@ == buf
        }
    } else {
        match r {
            ProcessResult::Writing(w) => exists|response: Seq<u8>|
                {
                    &&& #[trigger] scoring::may_answer(state, route, Some((w.status, response)))
                    &&& w.buf@ == overwritten(buf, response)
                    &&& w.len == response.len()
                    &&& w.written == 0
                    &&& w.route == bare_route(route)
                    &&& w.leftover_pos == total
                    &&& w.leftover_len == pos - total
                },
            ProcessResult::OutOfRange(b) => b@ == buf && scoring::may_answer(state, route, None),
            _ => false,
        }
    }
}

/// Writes a response over the start of a buffer.
fn write_over(buf: &mut Vec<u8>, response: &Vec<u8>)
    requires
        response@.len() <= old(buf)@.len(),
    ensures
        final(buf)@ == overwritten(old(buf)@, response@),
{
    let ghost before = buf@;
    let mut k: usize = 0;
    while k < response.len()
        invariant
            k <= response@.len() <= buf@.len(),
            buf@ =~= response@.take(k as int) + before.skip(k as int),
            buf@.len() == before.len(),
        decreases response@.len() - k,
    {
        buf[k] = response[k];
        k += 1;
    }
    assert(response@.take(response@.len() as int) =~= response@);
}

/// Processes the first `pos` bytes of a buffer: finds the request at its start and prepares
/// the response.
pub fn process_request<
    'a,
    E: for <'b>Fn(Feature<'b>) -> u32,
    D: Fn([u32; 16], [u32; 16]) -> u32,
    S: Fn(Weighing) -> u32,
    N: Fn(u32) -> u32,
>(buf: Vec<u8>, pos: usize, state: &Option<AppState<'a, E, D, S, N>>) -> (r: ProcessResult)
    requires
        buf@.len() == BUF_SIZE,
        pos <= BUF_SIZE,
        *state matches Some(loaded) ==> loaded.wf(),
    ensures
        may_process(*state, buf@, pos as int, r),
        r matches ProcessResult::Writing(w) ==> w.wf(),
{
    let ghost bytes = buf@.take(pos as int);
    let answer: Option<(u16, Vec<u8>)>;
    let route: Route;
    let total: usize;
    {
        let part: &[u8] = &buf.as_slice()[0..pos];
        assert(part@ =~= bytes);
        match read_request(part) {
            None => {
                return ProcessResult::OutOfRange(buf);
            },
            Some((found, len)) => {
                route = match &found {
                    HttpRoute::Ready => Route::Ready,
                    HttpRoute::FraudScore(_) => Route::FraudScore,
                    HttpRoute::NotFound => Route::NotFound,
                    HttpRoute::Incomplete => {
                        if pos == BUF_SIZE {
                            return ProcessResult::Closed(buf);
                        }
                        return ProcessResult::Incomplete(buf);
                    },
                };
                answer = answer_request(state, &found);
                total = len;
            },
        }
    }
    proof {
        if total > 0 {
            http_parser::a_request_lies_in_the_buffer(bytes);
        }
    }
    let ghost asked = http_parser::request(bytes).0;
    assert(scoring::may_answer(*state, asked, scoring::answer_view(answer)));
    match answer {
        None => ProcessResult::OutOfRange(buf),
        Some((status, response)) => {
            assert(scoring::may_answer(*state, asked, Some((status, response@))));
            let mut buf = buf;
            write_over(&mut buf, &response);
            let w = Writing {
                buf,
                len: response.len(),
                written: 0,
                route,
                status,
                leftover_pos: total,
                leftover_len: pos - total,
            };
            proof {
                scoring::responses_are_not_empty(*state, asked, status, response@);
                assert(scoring::may_answer(*state, asked, Some((w.status, response@))));
                assert(w.route == bare_route(asked));
                assert(w.leftover_pos == http_parser::request(bytes).1);
            }
            ProcessResult::Writing(w)
        },
    }
}

/// What is to be done next with a connection.
pub enum Step {
    /// Write what is left of the response.
    Write(Writing),
    /// Wait until there is something to read, with `pos` bytes read so far.
    AwaitBytes { buf: Vec<u8>, pos: usize },
    /// Go on waiting as before.
    Stay { buf: Vec<u8>, pos: usize },
    /// Wait until more can be written.
    AwaitRoom(Writing),
    /// Close the connection; the buffer is free.
    Close(Vec<u8>),
    /// Stop: a number is out of range, or the index does not fit the records.
    Stop(Vec<u8>),
}

impl Step {
    /// All lies in the buffer.
    pub open spec fn wf(&self) -> bool {
        match *self {
            Step::Write(w) => w.wf(),
            Step::AwaitBytes { buf, pos } => buf@.len() == BUF_SIZE && pos < BUF_SIZE,
            Step::Stay { buf, pos } => buf@.len() == BUF_SIZE && pos < BUF_SIZE,
            Step::AwaitRoom(w) => w.wf(),
            Step::Close(buf) => buf@.len() == BUF_SIZE,
            Step::Stop(buf) => buf@.len() == BUF_SIZE,
        }
    }
}

/// What is to be done when bytes were processed.
pub open spec fn step_after(r: ProcessResult, pos: usize) -> Step {
    match r {
        ProcessResult::Writing(w) => Step::Write(w),
        ProcessResult::Incomplete(buf) => Step::AwaitBytes { buf, pos },
        ProcessResult::Closed(buf) => Step::Close(buf),
        ProcessResult::OutOfRange(buf) => Step::Stop(buf),
    }
}

/// Whether this may be done with the first `pos` bytes of a buffer.
pub open spec fn may_step<
    'a,
    E: for <'b>Fn(Feature<'b>) -> u32,
    D: Fn([u32; 16], [u32; 16]) -> u32,
    S: Fn(Weighing) -> u32,
    N: Fn(u32) -> u32,
>(
    state: Option<AppState<'a, E, D, S, N>>,
    buf: Seq<u8>,
    pos: usize,
    step: Step,
) -> bool {
    exists|r: ProcessResult| #[trigger]
        may_process(state, buf, pos as int, r) && step == step_after(r, pos)
}

/// Decides what to do with the first `pos` bytes of a buffer.
pub fn process_pipeline<
    'a,
    E: for <'b>Fn(Feature<'b>) -> u32,
    D: Fn([u32; 16], [u32; 16]) -> u32,
    S: Fn(Weighing) -> u32,
    N: Fn(u32) -> u32,
>(buf: Vec<u8>, pos: usize, state: &Option<AppState<'a, E, D, S, N>>) -> (r: Step)
    requires
        buf@.len() == BUF_SIZE,
        pos <= BUF_SIZE,
        *state matches Some(loaded) ==> loaded.wf(),
    ensures
        may_step(*state, buf@, pos, r),
        r.wf(),
{
    let result = process_request(buf, pos, state);
    let ghost seen = result;
    assert(may_process(*state, buf@, pos as int, seen));
    let step = match result {
        ProcessResult::Writing(w) => Step::Write(w),
        ProcessResult::Incomplete(buf) => Step::AwaitBytes { buf, pos },
        ProcessResult::Closed(buf) => Step::Close(buf),
        ProcessResult::OutOfRange(buf) => Step::Stop(buf),
    };
    assert(step == step_after(seen, pos));
    step
}

/// What came of a read.
#[derive(Clone, Copy, PartialEq, Eq, Structural, Debug)]
pub enum ReadOutcome {
    /// So many bytes, at least one, which now lie in the buffer behind those read before.
    Bytes(usize),
    /// The other side has closed the connection.
    End,
    /// There is nothing to read yet.
    WouldBlock,
    /// The read failed.
    Failed,
}

/// What came of a write.
#[derive(Clone, Copy, PartialEq, Eq, Structural, Debug)]
pub enum WriteOutcome {
    /// So many bytes, at least one, are out.
    Bytes(usize),
    /// Nothing can be written now.
    WouldBlock,
    /// The write failed.
    Failed,
}

/// Whether this may be done after the first read of a connection. One that brings nothing is
/// not looked into: it is tried again when there is something to read.
pub open spec fn may_step_after_first_read<
    'a,
    E: for <'b>Fn(Feature<'b>) -> u32,
    D: Fn([u32; 16], [u32; 16]) -> u32,
    S: Fn(Weighing) -> u32,
    N: Fn(u32) -> u32,
>(
    state: Option<AppState<'a, E, D, S, N>>,
    buf: Seq<u8>,
    outcome: ReadOutcome,
    step: Step,
) -> bool {
    match outcome {
        ReadOutcome::Bytes(n) => may_step(state, buf, n, step),
        _ => step matches Step::AwaitBytes { buf: b, pos } && b@ == buf && pos == 0,
    }
}

/// Decides what to do after the first read of a connection that was taken over.
pub fn on_first_read<
    'a,
    E: for <'b>Fn(Feature<'b>) -> u32,
    D: Fn([u32; 16], [u32; 16]) -> u32,
    S: Fn(Weighing) -> u32,
    N: Fn(u32) -> u32,
>(
    buf: Vec<u8>,
    outcome: ReadOutcome,
    state: &Option<AppState<'a, E, D, S, N>>,
) -> (r: Step)
    requires
        buf@.len() == BUF_SIZE,
        outcome matches ReadOutcome::Bytes(n) ==> n <= BUF_SIZE,
        *state matches Some(loaded) ==> loaded.wf(),
    ensures
        may_step_after_first_read(*state, buf@, outcome, r),
        r.wf(),
{
    match outcome {
        ReadOutcome::Bytes(n) => process_pipeline(buf, n, state),
        _ => Step::AwaitBytes { buf, pos: 0 },
    }
}

/// Whether this may be done after a read behind `pos` bytes.
pub open spec fn may_step_after_read<
    'a,
    E: for <'b>Fn(Feature<'b>) -> u32,
    D: Fn([u32; 16], [u32; 16]) -> u32,
    S: Fn(Weighing) -> u32,
    N: Fn(u32) -> u32,
>(
    state: Option<AppState<'a, E, D, S, N>>,
    buf: Seq<u8>,
    pos: usize,
    outcome: ReadOutcome,
    step: Step,
) -> bool {
    match outcome {
        ReadOutcome::Bytes(n) => may_step(state, buf, (pos + n) as usize, step),
        ReadOutcome::WouldBlock => step matches Step::Stay { buf: b, pos: p } && b@ == buf && p
            == pos,
        _ => step matches Step::Close(b) && b@ == buf,
    }
}

/// Decides what to do after a read behind `pos` bytes.
pub fn on_read<
    'a,
    E: for <'b>Fn(Feature<'b>) -> u32,
    D: Fn([u32; 16], [u32; 16]) -> u32,
    S: Fn(Weighing) -> u32,
    N: Fn(u32) -> u32,
>(
    buf: Vec<u8>,
    pos: usize,
    outcome: ReadOutcome,
    state: &Option<AppState<'a, E, D, S, N>>,
) -> (r: Step)
    requires
        buf@.len() == BUF_SIZE,
        pos < BUF_SIZE,
        outcome matches ReadOutcome::Bytes(n) ==> n <= BUF_SIZE - pos,
        *state matches Some(loaded) ==> loaded.wf(),
    ensures
        may_step_after_read(*state, buf@, pos, outcome, r),
        r.wf(),
{
    match outcome {
        ReadOutcome::Bytes(n) => process_pipeline(buf, pos + n, state),
        ReadOutcome::WouldBlock => Step::Stay { buf, pos },
        ReadOutcome::End => Step::Close(buf),
        ReadOutcome::Failed => Step::Close(buf),
    }
}

/// A buffer after the `len` bytes at `from` were moved to its start.
pub open spec fn moved_down(buf: Seq<u8>, from: int, len: int) -> Seq<u8> {
    buf.subrange(from, from + len) + buf.skip(len)
}

/// Moves the `len` bytes at `from` to the start of a buffer.
fn move_down(buf: &mut Vec<u8>, from: usize, len: usize)
    requires
        from + len <= old(buf)@.len(),
    ensures
        final(buf)@ == moved_down(old(buf)@, from as int, len as int),
{
    let ghost before = buf@;
    let mut k: usize = 0;
    while k < len
        invariant
            k <= len,
            from + len <= before.len(),
            buf@.len() == before.len(),
            forall|j: int| 0 <= j < k ==> buf@[j] == before[from + j],
            forall|j: int| k <= j < before.len() ==> buf@[j] == before[j],
        decreases len - k,
    {
        assert(buf@.len() == buf.len());
        let b = buf[from + k];
        buf[k] = b;
        k += 1;
    }
    assert(buf@ =~= moved_down(before, from as int, len as int));
}

/// Whether this may be done after a write.
pub open spec fn may_step_after_write<
    'a,
    E: for <'b>Fn(Feature<'b>) -> u32,
    D: Fn([u32; 16], [u32; 16]) -> u32,
    S: Fn(Weighing) -> u32,
    N: Fn(u32) -> u32,
>(
    state: Option<AppState<'a, E, D, S, N>>,
    w: Writing,
    outcome: WriteOutcome,
    step: Step,
) -> bool {
    match outcome {
        WriteOutcome::Bytes(n) => if w.written + n < w.len {
            step matches Step::Write(v) && v == (Writing {
                buf: v.buf,
                written: (w.written + n) as usize,
                ..w
            }) && v.buf@ == w.buf@
        } else {
            let buf = moved_down(w.buf@, w.leftover_pos as int, w.leftover_len as int);
            if w.leftover_len > 0 {
                may_step(state, buf, w.leftover_len, step)
            } else {
                step matches Step::AwaitBytes { buf: b, pos } && b@ == buf && pos == 0
            }
        },
        WriteOutcome::WouldBlock => step == Step::AwaitRoom(w),
        WriteOutcome::Failed => step == Step::Close(w.buf),
    }
}

/// Decides what to do after a write. When the response is out, the bytes that came behind the
/// request are moved to the start of the buffer and processed at once.
pub fn handle_greedy_write<
    'a,
    E: for <'b>Fn(Feature<'b>) -> u32,
    D: Fn([u32; 16], [u32; 16]) -> u32,
    S: Fn(Weighing) -> u32,
    N: Fn(u32) -> u32,
>(
    w: Writing,
    outcome: WriteOutcome,
    state: &Option<AppState<'a, E, D, S, N>>,
) -> (r: Step)
    requires
        w.wf(),
        outcome matches WriteOutcome::Bytes(n) ==> 0 < n <= w.len - w.written,
        *state matches Some(loaded) ==> loaded.wf(),
    ensures
        may_step_after_write(*state, w, outcome, r),
        r.wf(),
{
    match outcome {
        WriteOutcome::Bytes(n) => {
            let mut w = w;
            w.written = w.written + n;
            if w.written < w.len {
                return Step::Write(w);
            }
            let from = w.leftover_pos;
            let len = w.leftover_len;
            let mut buf = w.buf;
            move_down(&mut buf, from, len);
            if len > 0 {
                process_pipeline(buf, len, state)
            } else {
                Step::AwaitBytes { buf, pos: 0 }
            }
        },
        WriteOutcome::WouldBlock => Step::AwaitRoom(w),
        WriteOutcome::Failed => Step::Close(w.buf),
    }
}

/// Which connections the poll knows of.
pub struct Registered {
    pub flags: Vec<bool>,
}

impl Registered {
    /// There is a flag for each connection.
    pub open spec fn wf(&self) -> bool {
        self.flags@.len() == MAX_FDS
    }

    /// It knows of none.
    pub fn new() -> (r: Registered)
        ensures
            r.wf(),
            forall|fd: int| 0 <= fd < MAX_FDS ==> !#[trigger] r.flags@[fd],
    {
        let mut flags: Vec<bool> = Vec::new();
        while flags.len() < MAX_FDS
            invariant
                flags@.len() <= MAX_FDS,
                forall|fd: int| 0 <= fd < flags@.len() ==> !#[trigger] flags@[fd],
            decreases MAX_FDS - flags@.len(),
        {
            flags.push(false);
        }
        Registered { flags }
    }

    /// Notes a connection; the result is whether the poll knew of it before.
    pub fn arm(&mut self, fd: usize) -> (r: bool)
        requires
            old(self).wf(),
            fd < MAX_FDS,
        ensures
            final(self).flags@ == old(self).flags@.update(fd as int, true),
            r == old(self).flags@[fd as int],
    {
        let known = self.flags[fd];
        self.flags[fd] = true;
        known
    }

    /// Forgets a connection.
    pub fn forget(&mut self, fd: usize)
        requires
            old(self).wf(),
            fd < MAX_FDS,
        ensures
            final(self).flags@ == old(self).flags@.update(fd as int, false),
    {
        self.flags[fd] = false;
    }
}

/// Whether a connection that is handed over is taken: it has a number, and that is below the
/// limit.
pub fn admits(fd: i32) -> (r: bool)
    ensures
        r <==> 0 <= fd < MAX_FDS,
{
    0 <= fd && fd < 1024
}

/// A request that came behind another one is processed from its own bytes when the first is
/// answered, provided that the response is not longer than the request it answers.
pub proof fn a_request_behind_is_processed_next<
    'a,
    E: for <'b>Fn(Feature<'b>) -> u32,
    D: Fn([u32; 16], [u32; 16]) -> u32,
    S: Fn(Weighing) -> u32,
    N: Fn(u32) -> u32,
>(
    state: Option<AppState<'a, E, D, S, N>>,
    buf: Seq<u8>,
    pos: usize,
    w: Writing,
    last: usize,
    step: Step,
)
    requires
        buf.len() == BUF_SIZE,
        pos <= BUF_SIZE,
        may_process(state, buf, pos as int, ProcessResult::Writing(w)),
        w.len <= http_parser::request(buf.take(pos as int)).1,
        http_parser::request(buf.take(pos as int)).1 < pos,
        w.written + last == w.len,
        may_step_after_write(state, w, WriteOutcome::Bytes(last), step),
    ensures
        ({
            let total = http_parser::request(buf.take(pos as int)).1;
            exists|rest: Seq<u8>| #[trigger]
                may_step(state, rest, (pos - total) as usize, step) && rest.take(pos - total)
                    == buf.subrange(total, pos as int)
        }),
{
    let total = http_parser::request(buf.take(pos as int)).1;
    let (route, _) = http_parser::request(buf.take(pos as int));
    let response = choose|response: Seq<u8>|
        {
            &&& #[trigger] scoring::may_answer(state, route, Some((w.status, response)))
            &&& w.buf@ == overwritten(buf, response)
            &&& w.len == response.len()
            &&& w.written == 0
            &&& w.route == bare_route(route)
            &&& w.leftover_pos == total
            &&& w.leftover_len == pos - total
        };
    let rest = moved_down(w.buf@, total, pos - total);
    assert(rest.take(pos - total) =~= buf.subrange(total, pos as int));
    assert(may_step(state, rest, (pos - total) as usize, step));
}

/// A response that is to be written stands at the start of the buffer byte for byte as the
/// request is answered, all of it still to be written; the rest of the buffer is as it was, and
/// what came behind the request is remembered, from the end of the request to the last byte.
pub proof fn a_response_stands_at_the_start<
    'a,
    E: for <'b>Fn(Feature<'b>) -> u32,
    D: Fn([u32; 16], [u32; 16]) -> u32,
    S: Fn(Weighing) -> u32,
    N: Fn(u32) -> u32,
>(state: Option<AppState<'a, E, D, S, N>>, buf: Seq<u8>, pos: usize, w: Writing)
    requires
        buf.len() == BUF_SIZE,
        pos <= BUF_SIZE,
        may_process(state, buf, pos as int, ProcessResult::Writing(w)),
        w.wf(),
    ensures
        ({
            let (route, total) = http_parser::request(buf.take(pos as int));
            &&& !(route is Incomplete)
            &&& exists|response: Seq<u8>|
                {
                    &&& #[trigger] scoring::may_answer(state, route, Some((w.status, response)))
                    &&& w.len == response.len()
                    &&& forall|k: int| 0 <= k < w.len ==> #[trigger] w.buf@[k] == response[k]
                }
            &&& forall|k: int| w.len <= k < 16384 ==> #[trigger] w.buf@[k] == buf[k]
            &&& w.buf@.len() == 16384
            &&& w.written == 0
            &&& w.leftover_pos == total
            &&& w.leftover_pos + w.leftover_len == pos
            &&& w.route is Ready <==> route is Ready
            &&& w.route is FraudScore <==> route is FraudScore
            &&& w.route is NotFound <==> route is NotFound
        }),
{
}

/// Bytes that are no complete request wait for more, as they are, as long as there is room in
/// the buffer; only when it is full is the connection closed.
pub proof fn an_incomplete_request_waits<
    'a,
    E: for <'b>Fn(Feature<'b>) -> u32,
    D: Fn([u32; 16], [u32; 16]) -> u32,
    S: Fn(Weighing) -> u32,
    N: Fn(u32) -> u32,
>(state: Option<AppState<'a, E, D, S, N>>, buf: Seq<u8>, pos: usize, step: Step)
    requires
        buf.len() == 16384,
        pos <= 16384,
        may_step(state, buf, pos, step),
    ensures
        ({
            let bytes = buf.take(pos as int);
            let incomplete = http_parser::in_range(bytes) && http_parser::request(bytes).0 is
                Incomplete;
            &&& incomplete && pos < 16384 ==> step is AwaitBytes
            &&& incomplete && pos == 16384 ==> step is Close
            &&& step is AwaitBytes || step is Close ==> incomplete
            &&& !http_parser::in_range(bytes) ==> step is Stop
            &&& step matches Step::AwaitBytes { buf: b, pos: p } ==> b@ == buf && p == pos
            &&& step matches Step::Close(b) ==> b@ == buf
            &&& step matches Step::Stop(b) ==> b@ == buf
        }),
{
}

/// A complete request is answered at once: its response is written next, or, where it has none,
/// all stops.
pub proof fn a_complete_request_is_answered_next<
    'a,
    E: for <'b>Fn(Feature<'b>) -> u32,
    D: Fn([u32; 16], [u32; 16]) -> u32,
    S: Fn(Weighing) -> u32,
    N: Fn(u32) -> u32,
>(state: Option<AppState<'a, E, D, S, N>>, buf: Seq<u8>, pos: usize, step: Step)
    requires
        buf.len() == 16384,
        pos <= 16384,
        may_step(state, buf, pos, step),
        http_parser::in_range(buf.take(pos as int)),
        !(http_parser::request(buf.take(pos as int)).0 is Incomplete),
    ensures
        step is Write || step is Stop,
        step is Stop ==> scoring::may_answer(
            state,
            http_parser::request(buf.take(pos as int)).0,
            None,
        ),
        step matches Step::Write(w) ==> may_process(
            state,
            buf,
            pos as int,
            ProcessResult::Writing(w),
        ),
{
}

/// After a read all bytes so far are looked into, those read before and the new ones. A read
/// that brings nothing yet changes nothing, and one that ends or fails closes the connection;
/// but after the first read of a connection every read that brings nothing is tried again.
pub proof fn what_a_read_brings_is_looked_into<
    'a,
    E: for <'b>Fn(Feature<'b>) -> u32,
    D: Fn([u32; 16], [u32; 16]) -> u32,
    S: Fn(Weighing) -> u32,
    N: Fn(u32) -> u32,
>(
    state: Option<AppState<'a, E, D, S, N>>,
    buf: Seq<u8>,
    pos: usize,
    n: usize,
    outcome: ReadOutcome,
    step: Step,
)
    requires
        pos + n <= usize::MAX,
    ensures
        may_step_after_read(state, buf, pos, ReadOutcome::Bytes(n), step) ==> may_step(
            state,
            buf,
            (pos + n) as usize,
            step,
        ),
        may_step_after_first_read(state, buf, ReadOutcome::Bytes(n), step) ==> may_step(
            state,
            buf,
            n,
            step,
        ),
        may_step_after_read(state, buf, pos, outcome, step) ==> {
            &&& outcome is WouldBlock ==> step is Stay && step->Stay_buf@ == buf
                && step->Stay_pos == pos
            &&& outcome is End || outcome is Failed ==> step is Close && step->Close_0@ == buf
        },
        may_step_after_first_read(state, buf, outcome, step) && !(outcome is Bytes) ==> step is
            AwaitBytes && step->AwaitBytes_buf@ == buf && step->AwaitBytes_pos == 0,
{
}

/// A response that is written in parts goes on where it stopped: each write adds what it wrote
/// and changes nothing else. A write that cannot be done now waits with all that is left, and
/// one that fails closes the connection.
pub proof fn a_write_goes_on_where_it_stopped<
    'a,
    E: for <'b>Fn(Feature<'b>) -> u32,
    D: Fn([u32; 16], [u32; 16]) -> u32,
    S: Fn(Weighing) -> u32,
    N: Fn(u32) -> u32,
>(state: Option<AppState<'a, E, D, S, N>>, w: Writing, outcome: WriteOutcome, step: Step)
    requires
        w.wf(),
        outcome matches WriteOutcome::Bytes(n) ==> 0 < n <= w.len - w.written,
        may_step_after_write(state, w, outcome, step),
    ensures
        outcome matches WriteOutcome::Bytes(n) ==> w.written + n < w.len ==> (step matches
            Step::Write(v) && v.written == w.written + n && v.len == w.len && v.buf@ == w.buf@
            && v.leftover_pos == w.leftover_pos && v.leftover_len == w.leftover_len && v.status
            == w.status && v.route == w.route),
        outcome is WouldBlock ==> (step matches Step::AwaitRoom(v) && v == w),
        outcome is Failed ==> (step matches Step::Close(b) && b@ == w.buf@),
{
}

/// When all of a response is written, the bytes that came behind its request are looked into
/// next, each of them and in their order; where there are none, the connection waits for the
/// first byte of a new request.
pub proof fn what_came_behind_is_looked_into<
    'a,
    E: for <'b>Fn(Feature<'b>) -> u32,
    D: Fn([u32; 16], [u32; 16]) -> u32,
    S: Fn(Weighing) -> u32,
    N: Fn(u32) -> u32,
>(state: Option<AppState<'a, E, D, S, N>>, w: Writing, n: usize, step: Step)
    requires
        w.wf(),
        w.written + n == w.len,
        may_step_after_write(state, w, WriteOutcome::Bytes(n), step),
    ensures
        w.leftover_len == 0 ==> step is AwaitBytes && step->AwaitBytes_pos == 0
            && step->AwaitBytes_buf@.len() == 16384,
        w.leftover_len > 0 ==> exists|rest: Seq<u8>|
            {
                &&& #[trigger] may_step(state, rest, w.leftover_len, step)
                &&& rest.len() == 16384
                &&& forall|k: int|
                    0 <= k < w.leftover_len ==> #[trigger] rest[k] == w.buf@[w.leftover_pos + k]
            },
{
    let rest = moved_down(w.buf@, w.leftover_pos as int, w.leftover_len as int);
    if w.leftover_len > 0 {
        assert(may_step(state, rest, w.leftover_len, step));
    }
}

/// Connections are taken that have a number from 0 on and below 1024, and no others.
pub proof fn numbers_below_the_limit_are_taken(fd: i32, r: bool)
    requires
        call_ensures(admits, (fd,), r),
    ensures
        r <==> 0 <= fd < 1024,
{
}

/// The poll knows of a connection from when it is noted until it is forgotten, whatever happens
/// to others.
pub proof fn a_connection_is_known_until_it_is_forgotten(fd: usize, other: usize)
    requires
        fd < 1024,
        other < 1024,
    ensures
        forall|r: Registered| call_ensures(Registered::new, (), r) ==> !r.flags@[fd as int],
        forall|g: &mut Registered, known: bool| #[trigger]
            call_ensures(Registered::arm, (g, other), known) && g.wf() ==> known
                == g.flags@[other as int] && final(g).wf() && final(g).flags@[fd as int] == (
            g.flags@[fd as int] || fd == other),
        forall|g: &mut Registered| #[trigger]
            call_ensures(Registered::forget, (g, other), ()) && g.wf() ==> final(g).wf()
                && final(g).flags@[fd as int] == (g.flags@[fd as int] && fd != other),
{
}

/// What is done with bytes, and after each read and each write, is what may be done then.
pub proof fn what_is_done_may_be_done<
    'a,
    E: for <'b>Fn(Feature<'b>) -> u32,
    D: Fn([u32; 16], [u32; 16]) -> u32,
    S: Fn(Weighing) -> u32,
    N: Fn(u32) -> u32,
>(
    state: Option<AppState<'a, E, D, S, N>>,
    buf: Vec<u8>,
    pos: usize,
    read: ReadOutcome,
    w: Writing,
    wrote: WriteOutcome,
    result: ProcessResult,
    processed: Step,
    first: Step,
    next: Step,
    written: Step,
)
    requires
        call_ensures(process_request::<E, D, S, N>, (buf, pos, &state), result),
        call_ensures(process_pipeline::<E, D, S, N>, (buf, pos, &state), processed),
        call_ensures(on_first_read::<E, D, S, N>, (buf, read, &state), first),
        call_ensures(on_read::<E, D, S, N>, (buf, pos, read, &state), next),
        call_ensures(handle_greedy_write::<E, D, S, N>, (w, wrote, &state), written),
    ensures
        may_process(state, buf@, pos as int, result),
        may_step(state, buf@, pos, processed),
        may_step_after_first_read(state, buf@, read, first),
        may_step_after_read(state, buf@, pos, read, next),
        may_step_after_write(state, w, wrote, written),
{
}

/// Each route has its own name in the log.
pub proof fn routes_have_their_names(route: Route, name: &'static str)
    requires
        call_ensures(Route::name, (&route,), name),
    ensures
        route is Ready ==> name@ == "ready"@,
        route is FraudScore ==> name@ == "fraud-score"@,
        route is NotFound ==> name@ == "not-found"@,
{
}

} // verus!
