//! The load balancer: connections are handed over to the servers in turn, and queue up where
//! a server does not take them at once.
use vstd::prelude::*;
use vstd::string::*;

verus! {

/// The places of a queue. One of them is always free.
pub const QUEUE_SIZE: usize = 1024;

/// How many connections are accepted in one go.
pub const ACCEPT_BUDGET: usize = 128;

/// A server, and the connections that wait for it.
pub struct Upstream {
    pub fd: i32,
    pub queue: [i32; 1024],
    pub head: usize,
    pub tail: usize,
    /// Whether the poll tells when the server takes connections.
    pub registered_writable: bool,
}

/// How many places there are from `head` on to `tail`, around the end.
pub open spec fn queued(head: int, tail: int) -> int {
    (tail + QUEUE_SIZE - head) % QUEUE_SIZE as int
}

impl View for Upstream {
    type V = Seq<i32>;

    /// The connections that wait, the first one first.
    open spec fn view(&self) -> Seq<i32> {
        Seq::new(
            queued(self.head as int, self.tail as int) as nat,
            |k: int| self.queue@[(self.head + k) % QUEUE_SIZE as int],
        )
    }
}

impl Upstream {
    /// Both ends lie in the queue.
    pub open spec fn wf(&self) -> bool {
        self.head < QUEUE_SIZE && self.tail < QUEUE_SIZE
    }

    /// A server for which no connection waits.
    pub fn new(fd: i32) -> (r: Upstream)
        ensures
            r.wf(),
            r.fd == fd,
            r@ == Seq::<i32>::empty(),
            !r.registered_writable,
    {
        let r = Upstream { fd, queue: [0i32; 1024], head: 0, tail: 0, registered_writable: false };
        assert(r@ =~= Seq::empty());
        r
    }

    /// Lets a connection wait behind the others; it cannot if the queue is full.
    pub fn push(&mut self, client_fd: i32) -> (r: bool)
        requires
            old(self).wf(),
        ensures
            final(self).wf(),
            r == (old(self)@.len() < QUEUE_SIZE - 1),
            final(self)@ == if r {
                old(self)@.push(client_fd)
            } else {
                old(self)@
            },
            !r ==> *final(self) == *old(self),
            r ==> final(self).queue@ == old(self).queue@.update(old(self).tail as int, client_fd),
            r ==> final(self).head == old(self).head,
            r ==> final(self).tail == (old(self).tail + 1) % QUEUE_SIZE as int,
            final(self).fd == old(self).fd,
            final(self).registered_writable == old(self).registered_writable,
    {
        let next_tail = (self.tail + 1) % QUEUE_SIZE;
        if next_tail == self.head {
            return false;
        }
        let ghost before = *self;
        let tail = self.tail;
        self.queue[tail] = client_fd;
        self.tail = next_tail;
        assert(self@ =~= before@.push(client_fd));
        true
    }

    /// Takes the connection that waits longest.
    pub fn pop(&mut self) -> (r: Option<i32>)
        requires
            old(self).wf(),
        ensures
            final(self).wf(),
            r == if old(self)@.len() == 0 {
                None
            } else {
                Some(old(self)@.first())
            },
            final(self)@ == if old(self)@.len() == 0 {
                old(self)@
            } else {
                old(self)@.drop_first()
            },
            r is None ==> *final(self) == *old(self),
            r is Some ==> final(self).head == (old(self).head + 1) % QUEUE_SIZE as int,
            final(self).queue == old(self).queue,
            final(self).tail == old(self).tail,
            final(self).fd == old(self).fd,
            final(self).registered_writable == old(self).registered_writable,
    {
        if self.head == self.tail {
            return None;
        }
        let ghost before = *self;
        let fd = self.queue[self.head];
        self.head = (self.head + 1) % QUEUE_SIZE;
        assert(self@ =~= before@.drop_first());
        Some(fd)
    }

    /// The connection that waits longest.
    pub fn peek(&self) -> (r: Option<i32>)
        requires
            self.wf(),
        ensures
            r == if self@.len() == 0 {
                None
            } else {
                Some(self@.first())
            },
    {
        if self.head == self.tail {
            return None;
        }
        Some(self.queue[self.head])
    }

    /// Whether no connection waits.
    pub fn is_empty(&self) -> (r: bool)
        requires
            self.wf(),
        ensures
            r == (self@.len() == 0),
    {
        self.head == self.tail
    }
}

/// The number of the turn that follows; after the last number they start again.
pub open spec fn next_turn(turn: usize) -> usize {
    if turn == usize::MAX {
        0
    } else {
        (turn + 1) as usize
    }
}

/// Whose turn it is among `n` servers.
pub fn take_turn(turn: &mut usize, n: usize) -> (r: usize)
    requires
        n > 0,
    ensures
        r == *old(turn) % n,
        r < n,
        *final(turn) == next_turn(*old(turn)),
{
    let target: usize = *turn % n;
    *turn = turn.wrapping_add(1);
    target
}

/// After so many turns.
pub open spec fn turns_after(turn: usize, k: nat) -> usize
    decreases k,
{
    if k == 0 {
        turn
    } else {
        next_turn(turns_after(turn, (k - 1) as nat))
    }
}

/// The servers have their turns strictly one after the other, around and around, as long as
/// the turns are not started again.
pub proof fn turns_go_round(turn: usize, n: usize, k: nat)
    requires
        n > 0,
        turn + k <= usize::MAX,
    ensures
        turns_after(turn, k) == turn + k,
        turns_after(turn, k) % n == (turn % n + k) % n as int,
    decreases k,
{
    if k > 0 {
        turns_go_round(turn, n, (k - 1) as nat);
    }
    vstd::arithmetic::div_mod::lemma_add_mod_noop(turn as int, k as int, n as int);
    vstd::arithmetic::div_mod::lemma_add_mod_noop(turn as int % n as int, k as int, n as int);
    vstd::arithmetic::div_mod::lemma_mod_twice(turn as int, n as int);
}

/// Of any `n` turns in a row each of `n` servers has exactly one.
pub proof fn each_server_has_its_turn(turn: usize, n: usize, server: int, j: nat, k: nat)
    requires
        0 <= server < n,
        turn + n <= usize::MAX,
        j < n,
        k < n,
    ensures
        exists|l: nat| l < n && #[trigger] turns_after(turn, l) % n == server,
        turns_after(turn, j) % n == server && turns_after(turn, k) % n == server ==> j == k,
{
    let base = turn as int % n as int;
    let l: nat = if server >= base {
        (server - base) as nat
    } else {
        (server + n - base) as nat
    };
    turns_go_round(turn, n, l);
    assert((base + l) % n as int == server) by {
        vstd::arithmetic::div_mod::lemma_small_mod(server as nat, n as nat);
        if server < base {
            vstd::arithmetic::div_mod::lemma_mod_add_multiples_vanish(server, n as int);
            assert(base + l == n + server);
        } else {
            assert(base + l == server);
        }
    }
    assert(turns_after(turn, l) % n == server);
    turns_go_round(turn, n, j);
    turns_go_round(turn, n, k);
    if turns_after(turn, j) % n == server && turns_after(turn, k) % n == server {
        let a = turn + j;
        let b = turn + k;
        vstd::arithmetic::div_mod::lemma_fundamental_div_mod(a, n as int);
        vstd::arithmetic::div_mod::lemma_fundamental_div_mod(b, n as int);
        let p = a / n as int;
        let q = b / n as int;
        assert(a - b == n * (p - q)) by (nonlinear_arith)
            requires
                a == n * p + server,
                b == n * q + server,
        ;
        assert(p == q) by (nonlinear_arith)
            requires
                a - b == n * (p - q),
                -n < a - b < n,
                n > 0,
        ;
    }
}

/// What came of handing a connection over.
#[derive(Clone, Copy, PartialEq, Eq, Structural, Debug)]
pub enum SendOutcome {
    Sent,
    /// The server takes no connection now.
    WouldBlock,
    Failed,
}

/// What is to be done with a connection that was accepted.
#[derive(Clone, Copy, PartialEq, Eq, Structural, Debug)]
pub enum Handoff {
    /// It is handed over, and closed on this side.
    Done,
    /// It waits; the poll is asked to tell when the server takes connections, if it was not
    /// asked before.
    Queued { register: bool },
    /// It is told that the service is unavailable, and closed.
    Refused,
}

/// What is to be done after the connection that waited longest was tried again.
#[derive(Clone, Copy, PartialEq, Eq, Structural, Debug)]
pub enum Drain {
    /// It was handed over, and is closed on this side.
    Close(i32),
    /// It is told that the service is unavailable, and closed.
    Refuse(i32),
    /// All go on waiting.
    Wait,
}

impl Upstream {
    /// While connections wait, the poll tells when the server takes them.
    pub open spec fn watched(&self) -> bool {
        self@.len() > 0 ==> self.registered_writable
    }

    /// Decides what becomes of a connection that was accepted. It is tried at once only if no
    /// other one waits.
    pub fn on_accepted(&mut self, client_fd: i32, tried: Option<SendOutcome>) -> (r: Handoff)
        requires
            old(self).wf(),
            tried is Some <==> old(self)@.len() == 0,
        ensures
            final(self).wf(),
            old(self).watched() ==> final(self).watched(),
            final(self).fd == old(self).fd,
            r == match tried {
                Some(SendOutcome::Sent) => Handoff::Done,
                Some(SendOutcome::Failed) => Handoff::Refused,
                _ => if old(self)@.len() < QUEUE_SIZE - 1 {
                    Handoff::Queued { register: !old(self).registered_writable }
                } else {
                    Handoff::Refused
                },
            },
            final(self)@ == if r is Queued {
                old(self)@.push(client_fd)
            } else {
                old(self)@
            },
            final(self).registered_writable == (old(self).registered_writable || r is Queued),
    {
        if let Some(outcome) = tried {
            match outcome {
                SendOutcome::Sent => {
                    return Handoff::Done;
                },
                SendOutcome::Failed => {
                    return Handoff::Refused;
                },
                SendOutcome::WouldBlock => {},
            }
        }
        if self.push(client_fd) {
            let register = !self.registered_writable;
            self.registered_writable = true;
            Handoff::Queued { register }
        } else {
            Handoff::Refused
        }
    }

    /// Decides what becomes of the connection that waited longest, which was tried again.
    pub fn on_retried(&mut self, outcome: SendOutcome) -> (r: Drain)
        requires
            old(self).wf(),
            old(self)@.len() > 0,
        ensures
            final(self).wf(),
            old(self).watched() ==> final(self).watched(),
            final(self).fd == old(self).fd,
            final(self).registered_writable == old(self).registered_writable,
            r == match outcome {
                SendOutcome::Sent => Drain::Close(old(self)@.first()),
                SendOutcome::Failed => Drain::Refuse(old(self)@.first()),
                SendOutcome::WouldBlock => Drain::Wait,
            },
            final(self)@ == if r is Wait {
                old(self)@
            } else {
                old(self)@.drop_first()
            },
    {
        match outcome {
            SendOutcome::WouldBlock => Drain::Wait,
            SendOutcome::Sent => match self.pop() {
                Some(fd) => Drain::Close(fd),
                None => Drain::Wait,
            },
            SendOutcome::Failed => match self.pop() {
                Some(fd) => Drain::Refuse(fd),
                None => Drain::Wait,
            },
        }
    }

    /// Ends a round of retries; the result is whether the poll need not tell any more.
    pub fn settle(&mut self) -> (r: bool)
        requires
            old(self).wf(),
        ensures
            final(self).wf(),
            old(self).watched() ==> final(self).watched(),
            final(self)@ == old(self)@,
            final(self).fd == old(self).fd,
            r == (old(self)@.len() == 0 && old(self).registered_writable),
            final(self).registered_writable == (old(self).registered_writable && !r),
    {
        if self.is_empty() && self.registered_writable {
            let ghost before = self@;
            self.registered_writable = false;
            assert(self@ =~= before);
            true
        } else {
            false
        }
    }
}

/// What a connection is told that is refused.
pub fn service_unavailable() -> (r: &'static str)
    ensures
        r@ == "HTTP/1.1 503 Service Unavailable\r\nContent-Length: 0\r\nConnection: close\r\n\r\n"@,
{
    "HTTP/1.1 503 Service Unavailable\r\nContent-Length: 0\r\nConnection: close\r\n\r\n"
}

/// The characters with the property White_Space.
pub open spec fn is_white(c: char) -> bool {
    let n = c as u32;
    0x9 <= n <= 0xd || n == 0x20 || n == 0x85 || n == 0xa0 || n == 0x1680 || 0x2000 <= n <= 0x200a
        || n == 0x2028 || n == 0x2029 || n == 0x202f || n == 0x205f || n == 0x3000
}

/// Whether a character has the property White_Space.
fn white(c: char) -> (r: bool)
    ensures
        r == is_white(c),
{
    let n: u32 = c as u32;
    (0x9 <= n && n <= 0xd) || n == 0x20 || n == 0x85 || n == 0xa0 || n == 0x1680 || (0x2000 <= n
        && n <= 0x200a) || n == 0x2028 || n == 0x2029 || n == 0x202f || n == 0x205f || n == 0x3000
}

/// A text without the white characters at its start.
pub open spec fn trimmed_start(s: Seq<char>) -> Seq<char>
    decreases s.len(),
{
    if s.len() > 0 && is_white(s.first()) {
        trimmed_start(s.drop_first())
    } else {
        s
    }
}

/// A text without the white characters at its end.
pub open spec fn trimmed_end(s: Seq<char>) -> Seq<char>
    decreases s.len(),
{
    if s.len() > 0 && is_white(s.last()) {
        trimmed_end(s.drop_last())
    } else {
        s
    }
}

/// The first comma at or behind `i`, or the end.
pub open spec fn comma(s: Seq<char>, i: int) -> int
    decreases s.len() - i,
{
    if i >= s.len() || s[i] == ',' {
        i
    } else {
        comma(s, i + 1)
    }
}

/// The names in a list from `i` on: what stands between commas, trimmed, unless nothing is
/// left of it.
pub open spec fn names(s: Seq<char>, i: int) -> Seq<Seq<char>>
    decreases s.len() - i,
    when 0 <= i <= s.len()
{
    proof {
        lemma_comma(s, i);
    }
    let end = comma(s, i);
    let name = trimmed_end(trimmed_start(s.subrange(i, end)));
    let here = if name.len() > 0 {
        seq![name]
    } else {
        Seq::empty()
    };
    if end < s.len() {
        here + names(s, end + 1)
    } else {
        here
    }
}

/// The comma lies at or behind the start.
pub proof fn lemma_comma(s: Seq<char>, i: int)
    requires
        0 <= i <= s.len(),
    ensures
        i <= comma(s, i) <= s.len(),
    decreases s.len() - i,
{
    if i < s.len() && s[i] != ',' {
        lemma_comma(s, i + 1);
    }
}

/// The names of the servers in a list.
pub fn parse_upstreams(list: &str) -> (r: Vec<String>)
    ensures
        r@.map_values(|name: String| name@) == names(list@, 0),
{
    let mut found: Vec<String> = Vec::new();
    let n = list.unicode_len();
    let mut i: usize = 0;
    loop
        invariant
            i <= n,
            n == list@.len(),
            names(list@, 0) == found@.map_values(|name: String| name@) + names(list@, i as int),
        decreases n - i,
    {
        proof {
            lemma_comma(list@, i as int);
        }
        let mut end: usize = i;
        while end < n && list.get_char(end) != ','
            invariant
                i <= end <= n,
                n == list@.len(),
                comma(list@, i as int) == comma(list@, end as int),
            decreases n - end,
        {
            end += 1;
        }
        let ghost part = list@.subrange(i as int, end as int);
        let mut from: usize = i;
        assert(list@.subrange(from as int, end as int) =~= part);
        while from < end && white(list.get_char(from))
            invariant
                i <= from <= end <= n,
                n == list@.len(),
                trimmed_start(part) == trimmed_start(list@.subrange(from as int, end as int)),
            decreases end - from,
        {
            assert(list@.subrange(from as int, end as int).drop_first() =~= list@.subrange(
                from + 1,
                end as int,
            ));
            from += 1;
        }
        let ghost started = list@.subrange(from as int, end as int);
        let mut to: usize = end;
        while from < to && white(list.get_char(to - 1))
            invariant
                i <= from <= to <= end <= n,
                n == list@.len(),
                trimmed_end(started) == trimmed_end(list@.subrange(from as int, to as int)),
            decreases to - from,
        {
            assert(list@.subrange(from as int, to as int).drop_last() =~= list@.subrange(
                from as int,
                to - 1,
            ));
            to -= 1;
        }
        let ghost before = found@.map_values(|name: String| name@);
        let ghost name = list@.subrange(from as int, to as int);
        assert(name == trimmed_end(trimmed_start(part)));
        if from < to {
            found.push(list.substring_char(from, to).to_owned());
            assert(found@.map_values(|name: String| name@) =~= before.push(name));
        }
        let ghost rest = if end < n {
            names(list@, end + 1)
        } else {
            Seq::empty()
        };
        assert(names(list@, 0) =~= found@.map_values(|name: String| name@) + rest);
        if end == n {
            return found;
        }
        i = end + 1;
    }
}

/// A queue takes a connection as long as fewer than 1023 wait in it, behind all others, which
/// keep their places; and gives back the one that waits longest, the others moving up.
pub proof fn the_first_in_is_the_first_out(fd: i32)
    ensures
        forall|g: &mut Upstream, r: bool| #[trigger]
            call_ensures(Upstream::push, (g, fd), r) && g.wf() ==> {
                &&& r <==> g@.len() < 1023
                &&& r ==> final(g)@.len() == g@.len() + 1 && final(g)@[g@.len() as int] == fd
                &&& !r ==> final(g)@.len() == g@.len()
                &&& forall|k: int| 0 <= k < g@.len() ==> #[trigger] final(g)@[k] == g@[k]
            },
        forall|g: &mut Upstream, r: Option<i32>| #[trigger]
            call_ensures(Upstream::pop, (g,), r) && g.wf() ==> {
                &&& r is None <==> g@.len() == 0
                &&& r matches Some(first) ==> first == g@[0] && final(g)@.len() == g@.len() - 1
                    && forall|k: int| 1 <= k < g@.len() ==> final(g)@[k - 1] == #[trigger] g@[k]
            },
        forall|g: Upstream, r: Option<i32>| #[trigger]
            call_ensures(Upstream::peek, (&g,), r) && g.wf() ==> (r is None <==> g@.len() == 0)
                && (r matches Some(first) ==> first == g@[0]),
        forall|r: Upstream| #[trigger]
            call_ensures(Upstream::new, (fd,), r) ==> r.wf() && r@.len() == 0 && r.fd == fd
                && !r.registered_writable,
{
}

/// The places of a queue that are in use start at its head and go around its end; it is empty
/// exactly if both ends are at one place.
pub proof fn a_queue_goes_around(u: Upstream, k: int)
    requires
        u.wf(),
        0 <= k < u@.len(),
    ensures
        u@.len() < 1024,
        u.head < u.tail ==> u@.len() == u.tail - u.head && u@[k] == u.queue@[u.head + k],
        u.head > u.tail ==> u@.len() == 1024 - u.head + u.tail && u@[k] == if u.head + k < 1024 {
            u.queue@[u.head + k]
        } else {
            u.queue@[u.head + k - 1024]
        },
        u.head != u.tail,
{
}

/// No connection gets lost: one that is accepted is handed over, told that the service is
/// unavailable, or waits behind all others; and none is passed over that waits already. One
/// that waits is handed over or refused only when it waits longest, and leaves the queue then.
pub proof fn no_connection_gets_lost(client_fd: i32)
    ensures
        forall|g: &mut Upstream, tried: Option<SendOutcome>, r: Handoff| #[trigger]
            call_ensures(Upstream::on_accepted, (g, client_fd, tried), r) && g.wf() && (tried is
                Some <==> g@.len() == 0) ==> {
                &&& r is Done <==> tried == Some(SendOutcome::Sent)
                &&& tried == Some(SendOutcome::Failed) ==> r is Refused
                &&& tried == Some(SendOutcome::WouldBlock) ==> r is Queued
                &&& tried is None ==> (r is Queued <==> g@.len() < 1023) && (r is Refused
                    <==> g@.len() >= 1023)
                &&& r is Queued ==> final(g)@.len() == g@.len() + 1 && final(g)@[g@.len() as int]
                    == client_fd && final(g).registered_writable
                &&& r matches Handoff::Queued { register } ==> (register
                    <==> !g.registered_writable)
                &&& !(r is Queued) ==> final(g)@.len() == g@.len() && final(g).registered_writable
                    == g.registered_writable
                &&& forall|k: int| 0 <= k < g@.len() ==> #[trigger] final(g)@[k] == g@[k]
                &&& final(g).fd == g.fd
            },
        forall|g: &mut Upstream, outcome: SendOutcome, r: Drain| #[trigger]
            call_ensures(Upstream::on_retried, (g, outcome), r) && g.wf() && g@.len() > 0 ==> {
                &&& outcome is Sent ==> (r matches Drain::Close(fd) && fd == g@[0])
                &&& outcome is Failed ==> (r matches Drain::Refuse(fd) && fd == g@[0])
                &&& outcome is WouldBlock ==> r is Wait && final(g)@.len() == g@.len()
                    && forall|k: int| 0 <= k < g@.len() ==> #[trigger] final(g)@[k] == g@[k]
                &&& !(outcome is WouldBlock) ==> final(g)@.len() == g@.len() - 1 && forall|k: int|
                    1 <= k < g@.len() ==> final(g)@[k - 1] == #[trigger] g@[k]
                &&& final(g).registered_writable == g.registered_writable
            },
        forall|g: &mut Upstream, r: bool| #[trigger]
            call_ensures(Upstream::settle, (g,), r) && g.wf() ==> {
                &&& final(g)@ == g@
                &&& g@.len() > 0 ==> !r && final(g).registered_writable == g.registered_writable
                &&& g@.len() == 0 ==> !final(g).registered_writable && (r
                    <==> g.registered_writable)
            },
{
}

/// Each turn goes to the server that it counts to, and is followed by the next one; the turn
/// behind the last number is the first one again.
pub proof fn a_turn_is_followed_by_the_next(n: usize)
    requires
        n > 0,
    ensures
        forall|turn: &mut usize, r: usize| #[trigger]
            call_ensures(take_turn, (turn, n), r) ==> {
                &&& r < n
                &&& exists|rounds: int| #[trigger] (rounds * n) + r == *turn
                &&& *turn < usize::MAX ==> *final(turn) == *turn + 1
                &&& *turn == usize::MAX ==> *final(turn) == 0
            },
{
    assert forall|turn: &mut usize, r: usize| #[trigger]
        call_ensures(take_turn, (turn, n), r) implies exists|rounds: int| #[trigger] (rounds * n)
        + r == *turn by {
        vstd::arithmetic::div_mod::lemma_fundamental_div_mod(*turn as int, n as int);
        let rounds = *turn as int / n as int;
        assert(rounds * n == n * rounds) by (nonlinear_arith);
        assert((rounds * n) + r == *turn);
    }
}

/// The part of a list up to its next comma is that of the list that ends there.
proof fn lemma_first_part(a: Seq<char>, b: Seq<char>, i: int)
    requires
        0 <= i <= a.len(),
    ensures
        comma(a + seq![','] + b, i) == comma(a, i),
    decreases a.len() - i,
{
    let s = a + seq![','] + b;
    lemma_comma(a, i);
    if i < a.len() {
        assert(s[i] == a[i]);
        if a[i] != ',' {
            lemma_first_part(a, b, i + 1);
        }
    } else {
        assert(s[i] == ',');
    }
}

proof fn lemma_second_part(a: Seq<char>, b: Seq<char>, i: int)
    requires
        0 <= i <= b.len(),
    ensures
        comma(a + seq![','] + b, a.len() + 1 + i) == a.len() + 1 + comma(b, i),
    decreases b.len() - i,
{
    let s = a + seq![','] + b;
    if i < b.len() {
        assert(s[a.len() + 1 + i] == b[i]);
        if b[i] != ',' {
            lemma_second_part(a, b, i + 1);
        }
    }
}

proof fn lemma_second_names(a: Seq<char>, b: Seq<char>, i: int)
    requires
        0 <= i <= b.len(),
    ensures
        names(a + seq![','] + b, a.len() + 1 + i) == names(b, i),
    decreases b.len() - i,
{
    let s = a + seq![','] + b;
    lemma_second_part(a, b, i);
    lemma_comma(b, i);
    let end = comma(b, i);
    assert(s.subrange(a.len() + 1 + i, a.len() + 1 + end) =~= b.subrange(i, end));
    if end < b.len() {
        lemma_second_names(a, b, end + 1);
    }
}

proof fn lemma_both_names(a: Seq<char>, b: Seq<char>, i: int)
    requires
        0 <= i <= a.len(),
    ensures
        names(a + seq![','] + b, i) == names(a, i) + names(b, 0),
    decreases a.len() - i,
{
    let s = a + seq![','] + b;
    lemma_first_part(a, b, i);
    lemma_comma(a, i);
    let end = comma(a, i);
    assert(s.subrange(i, end) =~= a.subrange(i, end));
    let name = trimmed_end(trimmed_start(s.subrange(i, end)));
    let here = if name.len() > 0 {
        seq![name]
    } else {
        Seq::empty()
    };
    if end < a.len() {
        lemma_both_names(a, b, end + 1);
        assert(here + (names(a, end + 1) + names(b, 0)) =~= here + names(a, end + 1) + names(
            b,
            0,
        ));
    } else {
        lemma_second_names(a, b, 0);
    }
}

/// Two lists that are put together with a comma name what the first one names, and then what
/// the second one does.
pub proof fn lists_are_put_together_with_commas(a: Seq<char>, b: Seq<char>)
    ensures
        names(a + seq![','] + b, 0) == names(a, 0) + names(b, 0),
{
    lemma_both_names(a, b, 0);
}

proof fn lemma_trimmed_start(p: Seq<char>, t: Seq<char>)
    requires
        forall|k: int| 0 <= k < p.len() ==> is_white(#[trigger] p[k]),
        t.len() > 0 ==> !is_white(t[0]),
    ensures
        trimmed_start(p + t) == t,
    decreases p.len(),
{
    let s = p + t;
    if p.len() > 0 {
        assert(is_white(p[0]));
        assert(s.drop_first() =~= p.drop_first() + t);
        assert forall|k: int| 0 <= k < p.drop_first().len() implies is_white(
            #[trigger] p.drop_first()[k],
        ) by {
            assert(p.drop_first()[k] == p[k + 1]);
        }
        lemma_trimmed_start(p.drop_first(), t);
    } else {
        assert(s =~= t);
    }
}

proof fn lemma_trimmed_end(t: Seq<char>, q: Seq<char>)
    requires
        forall|k: int| 0 <= k < q.len() ==> is_white(#[trigger] q[k]),
        t.len() > 0 ==> !is_white(t[t.len() - 1]),
    ensures
        trimmed_end(t + q) == t,
    decreases q.len(),
{
    let s = t + q;
    if q.len() > 0 {
        assert(is_white(q[q.len() - 1]));
        assert(s.drop_last() =~= t + q.drop_last());
        assert forall|k: int| 0 <= k < q.drop_last().len() implies is_white(
            #[trigger] q.drop_last()[k],
        ) by {
            assert(q.drop_last()[k] == q[k]);
        }
        lemma_trimmed_end(t, q.drop_last());
    } else {
        assert(s =~= t);
    }
}

proof fn lemma_no_comma(s: Seq<char>, i: int)
    requires
        0 <= i <= s.len(),
        forall|k: int| 0 <= k < s.len() ==> #[trigger] s[k] != ',',
    ensures
        comma(s, i) == s.len(),
    decreases s.len() - i,
{
    if i < s.len() {
        assert(s[i] != ',');
        lemma_no_comma(s, i + 1);
    }
}

/// A name stands for itself in a list, whatever white space is around it; white space alone is
/// no name.
pub proof fn a_name_stands_between_white_space(p: Seq<char>, name: Seq<char>, q: Seq<char>)
    requires
        forall|k: int| 0 <= k < p.len() ==> is_white(#[trigger] p[k]),
        forall|k: int| 0 <= k < q.len() ==> is_white(#[trigger] q[k]),
        forall|k: int| 0 <= k < name.len() ==> #[trigger] name[k] != ',',
        name.len() > 0 ==> !is_white(name[0]) && !is_white(name[name.len() - 1]),
        name.len() == 0 ==> q.len() == 0,
    ensures
        name.len() > 0 ==> names(p + name + q, 0) == seq![name],
        name.len() == 0 ==> names(p + name + q, 0) == Seq::<Seq<char>>::empty(),
{
    let s = p + name + q;
    assert forall|k: int| 0 <= k < s.len() implies #[trigger] s[k] != ',' by {
        if k < p.len() {
            assert(is_white(p[k]));
        } else if k < p.len() + name.len() {
            assert(name[k - p.len()] != ',');
        } else {
            assert(is_white(q[k - p.len() - name.len()]));
        }
    }
    lemma_no_comma(s, 0);
    assert(s.subrange(0, s.len() as int) =~= p + (name + q));
    if name.len() > 0 {
        assert((name + q)[0] == name[0]);
    }
    lemma_trimmed_start(p, name + q);
    lemma_trimmed_end(name, q);
}

/// Among the characters of ASCII the blank is white, and those from the tab to the carriage
/// return; no other one is.
pub proof fn blanks_and_line_ends_are_white(c: char)
    requires
        c as u32 <= 0x7f,
    ensures
        is_white(c) <==> c == ' ' || c == '\t' || c == '\n' || c == '\r' || c as u32 == 0xb || c as u32
            == 0xc,
{
}

/// The servers are those that the list names, in its order; and a connection that is refused is
/// told so in HTTP, with status 503 and without a body.
pub proof fn the_servers_are_those_of_the_list(list: &str, r: Vec<String>, k: int, told: &'static str)
    requires
        call_ensures(parse_upstreams, (list,), r),
        call_ensures(service_unavailable, (), told),
        0 <= k < r@.len(),
    ensures
        r@.len() == names(list@, 0).len(),
        r@[k]@ == names(list@, 0)[k],
        told@ == "HTTP/1.1 503 Service Unavailable\r\nContent-Length: 0\r\nConnection: close\r\n\r\n"@,
{
    let views = r@.map_values(|name: String| name@);
    assert(views[k] == r@[k]@);
}

} // verus!
