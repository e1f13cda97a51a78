//! Lines of the log, as text or as JSON.
use std::time::{Instant, SystemTime};
use vstd::prelude::*;
use vstd::string::*;
use crate::bytes;

verus! {

/// How much a line matters.
#[derive(Debug, Clone, Copy, PartialEq, Eq, PartialOrd, Ord, Structural)]
pub enum Level {
    Debug,
    Info,
    Warn,
}

/// What a line is about.
#[derive(Debug, Clone, Copy, PartialEq, Eq, Structural)]
pub enum Category {
    Request,
    IoUring,
}

/// How lines are written.
#[derive(Debug, Clone, Copy, PartialEq, Eq, Structural)]
pub enum Transport {
    Text,
    Json,
}

/// `std::time::Instant`, a point in time.
#[verifier::external_type_specification]
#[verifier::external_body]
pub struct ExInstant(std::time::Instant);

/// `std::time::SystemTime`, a time of the system's clock.
#[verifier::external_type_specification]
#[verifier::external_body]
pub struct ExSystemTime(std::time::SystemTime);

/// `Instant::now`: the present. Nothing is claimed of it.
pub assume_specification[ std::time::Instant::now ]() -> (r: std::time::Instant)
;

/// `SystemTime::now`: the present by the system's clock. Nothing is claimed of it.
pub assume_specification[ std::time::SystemTime::now ]() -> (r: std::time::SystemTime)
;

/// `String::push`: appends a character.
pub assume_specification[ String::push ](s: &mut String, c: char)
    ensures
        final(s)@ == old(s)@.push(c),
;

/// `Instant::elapsed`: the time since then, as whole seconds and the nanoseconds beyond them,
/// of which there are less than a billion. How long it is, is not claimed.
#[verifier::external_body]
pub fn elapsed_since(started: &Instant) -> (r: (u64, u32))
    ensures
        r.1 < 1_000_000_000,
{
    let elapsed = started.elapsed();
    (elapsed.as_secs(), elapsed.subsec_nanos())
}

/// `SystemTime::duration_since` the start of 1970, as whole seconds and the nanoseconds beyond
/// them, of which there are less than a billion; nothing for a time before it. How long it is,
/// is not claimed.
#[verifier::external_body]
pub fn since_epoch(time: SystemTime) -> (r: Option<(u64, u32)>)
    ensures
        r matches Some((_, nanos)) ==> nanos < 1_000_000_000,
{
    match time.duration_since(SystemTime::UNIX_EPOCH) {
        Ok(since) => Some((since.as_secs(), since.subsec_nanos())),
        Err(_) => None,
    }
}

/// A span of time in whole microseconds.
pub open spec fn micros(secs: int, nanos: int) -> int {
    (secs * 1_000_000_000 + nanos) / 1000
}

/// A span of time in whole milliseconds.
pub open spec fn millis(secs: int, nanos: int) -> int {
    (secs * 1_000_000_000 + nanos) / 1_000_000
}

/// A span of time in whole microseconds and in whole milliseconds.
pub fn whole_units(secs: u64, nanos: u32) -> (r: (u128, u128))
    ensures
        r.0 == micros(secs as int, nanos as int),
        r.1 == millis(secs as int, nanos as int),
{
    let total: u128 = secs as u128 * 1_000_000_000 + nanos as u128;
    (total / 1000, total / 1_000_000)
}

/// The milliseconds of a time since the start of 1970: zero for one before it.
pub open spec fn unix_millis(since: Option<(u64, u32)>) -> int {
    match since {
        Some((secs, nanos)) => millis(secs as int, nanos as int),
        None => 0,
    }
}

/// The milliseconds of a time since the start of 1970.
pub fn to_unix_ms(since: Option<(u64, u32)>) -> (r: u128)
    ensures
        r == unix_millis(since),
{
    match since {
        Some((secs, nanos)) => {
            let (_, ms) = whole_units(secs, nanos);
            ms
        },
        None => 0,
    }
}

/// The time at which something started.
#[derive(Clone, Copy)]
pub struct Timer {
    pub started: Instant,
}

/// Starts a timer: it holds the present, as `Instant::now` gives it.
pub fn timer_start() -> (r: Timer)
    ensures
        call_ensures(Instant::now, (), r.started),
{
    Timer { started: Instant::now() }
}

impl Timer {
    /// The time since the timer was started, in whole microseconds and in whole milliseconds:
    /// both are those of the span that `elapsed_since` gives.
    pub fn elapsed(&self) -> (r: (u128, u128))
        ensures
            exists|secs: u64, nanos: u32|
                #![trigger micros(secs as int, nanos as int)]
                call_ensures(elapsed_since, (&self.started,), (secs, nanos)) && r.0 == micros(
                    secs as int,
                    nanos as int,
                ) && r.1 == millis(secs as int, nanos as int),
            r.1 == r.0 / 1000,
    {
        let (secs, nanos) = elapsed_since(&self.started);
        let r = whole_units(secs, nanos);
        assert(r.0 == micros(secs as int, nanos as int));
        r
    }
}

/// Whether `now_unix_ms` may give this number: the milliseconds since the start of 1970 that
/// the system's clock shows, and zero if it stands before that.
pub open spec fn is_now(ms: u128) -> bool {
    exists|now: SystemTime, since: Option<(u64, u32)>| #[trigger]
        call_ensures(SystemTime::now, (), now) && #[trigger] call_ensures(
            since_epoch,
            (now,),
            since,
        ) && ms == unix_millis(since)
}

/// The milliseconds since the start of 1970, by the system's clock; zero if it stands before
/// that.
pub fn now_unix_ms() -> (r: u128)
    ensures
        is_now(r),
{
    let now = SystemTime::now();
    let since = since_epoch(now);
    let r = to_unix_ms(since);
    assert(call_ensures(since_epoch, (now,), since));
    r
}

/// The name of a level.
pub open spec fn level_name(level: Level) -> Seq<char> {
    match level {
        Level::Debug => "DEBUG"@,
        Level::Info => "INFO"@,
        Level::Warn => "WARN"@,
    }
}

/// The name of a level.
pub fn level_str(level: Level) -> (r: &'static str)
    ensures
        r@ == level_name(level),
{
    match level {
        Level::Debug => "DEBUG",
        Level::Info => "INFO",
        Level::Warn => "WARN",
    }
}

/// The name of a category.
pub open spec fn category_name(category: Category) -> Seq<char> {
    match category {
        Category::Request => "request"@,
        Category::IoUring => "iouring"@,
    }
}

/// The name of a category.
pub fn category_str(category: Category) -> (r: &'static str)
    ensures
        r@ == category_name(category),
{
    match category {
        Category::Request => "request",
        Category::IoUring => "iouring",
    }
}

/// A letter of ASCII in lower case; other characters as they are.
pub open spec fn lower(c: char) -> char {
    if 'A' <= c && c <= 'Z' {
        ((c as u32) + 32) as char
    } else {
        c
    }
}

/// Whether a setting is the word `json`, in whatever case.
pub open spec fn says_json(value: Seq<char>) -> bool {
    value.map_values(|c: char| lower(c)) == "json"@
}

/// Whether a character is a given small letter or its capital.
fn is_letter(c: char, small: char, capital: char) -> (r: bool)
    requires
        'a' <= small <= 'z',
        capital as u32 + 32 == small as u32,
    ensures
        r == (lower(c) == small),
{
    c == small || c == capital
}

/// How lines are written by a setting: as JSON if it says so, else as text.
pub fn transport_from_env(value: Option<&str>) -> (r: Transport)
    ensures
        r == match value {
            Some(v) => if says_json(v@) {
                Transport::Json
            } else {
                Transport::Text
            },
            None => Transport::Text,
        },
{
    proof {
        reveal_strlit("json");
    }
    match value {
        Some(v) => {
            let ghost low = v@.map_values(|c: char| lower(c));
            if v.unicode_len() == 4 && is_letter(v.get_char(0), 'j', 'J') && is_letter(
                v.get_char(1),
                's',
                'S',
            ) && is_letter(v.get_char(2), 'o', 'O') && is_letter(v.get_char(3), 'n', 'N') {
                assert(low =~= "json"@);
                Transport::Json
            } else {
                assert(low != "json"@) by {
                    if low == "json"@ {
                        assert(low.len() == 4);
                        assert(low[0] == 'j' && low[1] == 's' && low[2] == 'o' && low[3] == 'n');
                    }
                }
                Transport::Text
            }
        },
        None => Transport::Text,
    }
}

/// A hexadecimal digit.
pub open spec fn hex(n: int) -> char {
    if n < 10 {
        (0x30 + n) as char
    } else {
        (0x57 + n) as char
    }
}

/// A character inside a JSON string: quotes, backslashes and control characters are escaped.
pub open spec fn escaped(c: char) -> Seq<char> {
    if c == '"' {
        seq!['\\', '"']
    } else if c == '\\' {
        seq!['\\', '\\']
    } else if c == '\n' {
        seq!['\\', 'n']
    } else if c == '\r' {
        seq!['\\', 'r']
    } else if c == '\t' {
        seq!['\\', 't']
    } else if (c as u32) < 0x20 {
        seq!['\\', 'u', '0', '0', hex(c as int / 16), hex(c as int % 16)]
    } else {
        seq![c]
    }
}

/// The first `n` characters of a text inside a JSON string.
pub open spec fn escaped_text(s: Seq<char>, n: int) -> Seq<char>
    decreases n,
{
    if n <= 0 {
        Seq::empty()
    } else {
        escaped_text(s, n - 1) + escaped(s[n - 1])
    }
}

/// A text as a JSON string.
pub open spec fn json_string(s: Seq<char>) -> Seq<char> {
    seq!['"'] + escaped_text(s, s.len() as int) + seq!['"']
}

/// The hexadecimal digit of a number below sixteen.
fn hex_digit(n: u32) -> (r: char)
    requires
        n < 16,
    ensures
        r == hex(n as int),
{
    if n < 10 {
        (0x30u8 + n as u8) as char
    } else {
        (0x57u8 + n as u8) as char
    }
}

/// Appends a character inside a JSON string.
fn push_escaped(out: &mut String, c: char)
    ensures
        final(out)@ == old(out)@ + escaped(c),
{
    let ghost before = out@;
    if c == '"' {
        out.push('\\');
        out.push('"');
    } else if c == '\\' {
        out.push('\\');
        out.push('\\');
    } else if c == '\n' {
        out.push('\\');
        out.push('n');
    } else if c == '\r' {
        out.push('\\');
        out.push('r');
    } else if c == '\t' {
        out.push('\\');
        out.push('t');
    } else if (c as u32) < 0x20 {
        let code: u32 = c as u32;
        out.push('\\');
        out.push('u');
        out.push('0');
        out.push('0');
        out.push(hex_digit(code / 16));
        out.push(hex_digit(code % 16));
    } else {
        out.push(c);
    }
    assert(out@ =~= before + escaped(c));
}

/// Appends a text as a JSON string.
pub fn push_json_string(out: &mut String, value: &str)
    ensures
        final(out)@ == old(out)@ + json_string(value@),
{
    let ghost before = out@;
    out.push('"');
    let ghost text = value@;
    for c in it: value.chars()
        invariant
            it.seq() == text,
            out@ =~= before + seq!['"'] + escaped_text(text, it.index()),
    {
        push_escaped(out, c);
    }
    out.push('"');
    assert(out@ =~= before + json_string(value@));
}

/// A number in base ten, without leading zeros.
pub open spec fn numeral(n: int) -> Seq<char>
    decreases n,
{
    if n < 10 {
        seq![hex(n)]
    } else {
        numeral(n / 10).push(hex(n % 10))
    }
}

/// Appends a number.
fn push_number(out: &mut String, n: u128)
    ensures
        final(out)@ == old(out)@ + numeral(n as int),
    decreases n,
{
    if n >= 10 {
        push_number(out, n / 10);
    }
    out.push(hex_digit((n % 10) as u32));
    assert(out@ =~= old(out)@ + numeral(n as int));
}

/// The start of a line in JSON: the time and what is logged, then how much it matters and what
/// it is about.
pub open spec fn json_start(
    ts: int,
    event: Seq<char>,
    level: Level,
    category: Category,
) -> Seq<char> {
    "{\"ts\":"@ + numeral(ts) + ",\"event\":\""@ + event + "\",\"level\":\""@ + level_name(level)
        + "\",\"category\":\""@ + category_name(category) + "\""@
}

/// Starts a line in JSON.
fn start_json(ts: u128, event: &str, level: Level, category: Category) -> (r: String)
    ensures
        r@ == json_start(ts as int, event@, level, category),
{
    let mut line = String::new();
    line.append("{\"ts\":");
    push_number(&mut line, ts);
    line.append(",\"event\":\"");
    line.append(event);
    line.append("\",\"level\":\"");
    line.append(level_str(level));
    line.append("\",\"category\":\"");
    line.append(category_str(category));
    line.append("\"");
    assert(line@ =~= json_start(ts as int, event@, level, category));
    line
}

/// A message in JSON.
pub open spec fn json_log(ts: int, level: Level, category: Category, msg: Seq<char>) -> Seq<char> {
    json_start(ts, "log"@, level, category) + ",\"message\":"@ + json_string(msg) + "}"@
}

/// A message in JSON, with a given time.
pub fn format_json_log_at(ts: u128, level: Level, category: Category, msg: &str) -> (r: String)
    ensures
        r@ == json_log(ts as int, level, category, msg@),
{
    let mut line = start_json(ts, "log", level, category);
    line.append(",\"message\":");
    push_json_string(&mut line, msg);
    line.append("}");
    line
}

/// A message in JSON, with the present time.
pub fn format_json_log(level: Level, category: Category, msg: &str) -> (r: String)
    ensures
        exists|ts: u128| #[trigger]
            is_now(ts) && r@ == json_log(ts as int, level, category, msg@),
{
    let ts = now_unix_ms();
    let line = format_json_log_at(ts, level, category, msg);
    assert(line@ == json_log(ts as int, level, category, msg@));
    line
}

/// A timing in JSON.
pub open spec fn json_timing(
    ts: int,
    level: Level,
    category: Category,
    op: Seq<char>,
    elapsed_us: int,
    elapsed_ms: int,
    context: Seq<char>,
) -> Seq<char> {
    json_start(ts, "timing"@, level, category) + ",\"op\":"@ + json_string(op)
        + ",\"elapsed_us\":"@ + numeral(elapsed_us) + ",\"elapsed_ms\":"@ + numeral(elapsed_ms)
        + ",\"context\":"@ + json_string(context) + "}"@
}

/// A timing in JSON, with a given time.
pub fn format_json_timing_at(
    ts: u128,
    level: Level,
    category: Category,
    op: &str,
    elapsed_us: u128,
    elapsed_ms: u128,
    context: &str,
) -> (r: String)
    ensures
        r@ == json_timing(
            ts as int,
            level,
            category,
            op@,
            elapsed_us as int,
            elapsed_ms as int,
            context@,
        ),
{
    let mut line = start_json(ts, "timing", level, category);
    line.append(",\"op\":");
    push_json_string(&mut line, op);
    line.append(",\"elapsed_us\":");
    push_number(&mut line, elapsed_us);
    line.append(",\"elapsed_ms\":");
    push_number(&mut line, elapsed_ms);
    line.append(",\"context\":");
    push_json_string(&mut line, context);
    line.append("}");
    line
}

/// A timing in JSON, with the present time.
pub fn format_json_timing(
    level: Level,
    category: Category,
    op: &str,
    elapsed_us: u128,
    elapsed_ms: u128,
    context: &str,
) -> (r: String)
    ensures
        exists|ts: u128| #[trigger]
            is_now(ts) && r@ == json_timing(
                ts as int,
                level,
                category,
                op@,
                elapsed_us as int,
                elapsed_ms as int,
                context@,
            ),
{
    let ts = now_unix_ms();
    let line = format_json_timing_at(ts, level, category, op, elapsed_us, elapsed_ms, context);
    assert(line@ == json_timing(
        ts as int,
        level,
        category,
        op@,
        elapsed_us as int,
        elapsed_ms as int,
        context@,
    ));
    line
}

/// The start of a line as text.
pub open spec fn text_start(level: Level, category: Category) -> Seq<char> {
    "["@ + level_name(level) + "] ["@ + category_name(category) + "] "@
}

/// Starts a line as text.
fn start_text(level: Level, category: Category) -> (r: String)
    ensures
        r@ == text_start(level, category),
{
    let mut line = String::new();
    line.append("[");
    line.append(level_str(level));
    line.append("] [");
    line.append(category_str(category));
    line.append("] ");
    assert(line@ =~= text_start(level, category));
    line
}

/// The line for a message.
pub fn format_log_line(
    transport: Transport,
    level: Level,
    category: Category,
    msg: &str,
) -> (r: String)
    ensures
        match transport {
            Transport::Text => r@ == text_start(level, category) + msg@,
            Transport::Json => exists|ts: u128| #[trigger]
                is_now(ts) && r@ == json_log(ts as int, level, category, msg@),
        },
{
    match transport {
        Transport::Text => {
            let mut line = start_text(level, category);
            line.append(msg);
            line
        },
        Transport::Json => format_json_log(level, category, msg),
    }
}

/// A timing as text.
pub open spec fn text_timing(
    level: Level,
    category: Category,
    op: Seq<char>,
    elapsed_us: int,
    elapsed_ms: int,
    context: Seq<char>,
) -> Seq<char> {
    text_start(level, category) + "op="@ + op + " elapsed_us="@ + numeral(elapsed_us)
        + " elapsed_ms="@ + numeral(elapsed_ms) + " "@ + context
}

/// The line for a timing.
pub fn format_timing_line(
    transport: Transport,
    level: Level,
    category: Category,
    op: &str,
    elapsed_us: u128,
    elapsed_ms: u128,
    context: &str,
) -> (r: String)
    ensures
        match transport {
            Transport::Text => r@ == text_timing(
                level,
                category,
                op@,
                elapsed_us as int,
                elapsed_ms as int,
                context@,
            ),
            Transport::Json => exists|ts: u128| #[trigger]
                is_now(ts) && r@ == json_timing(
                    ts as int,
                    level,
                    category,
                    op@,
                    elapsed_us as int,
                    elapsed_ms as int,
                    context@,
                ),
        },
{
    match transport {
        Transport::Text => {
            let mut line = start_text(level, category);
            line.append("op=");
            line.append(op);
            line.append(" elapsed_us=");
            push_number(&mut line, elapsed_us);
            line.append(" elapsed_ms=");
            push_number(&mut line, elapsed_ms);
            line.append(" ");
            line.append(context);
            line
        },
        Transport::Json => format_json_timing(level, category, op, elapsed_us, elapsed_ms, context),
    }
}

/// The number of a hexadecimal digit in lower case.
pub open spec fn hex_value(c: char) -> Option<int> {
    if '0' <= c && c <= '9' {
        Some(c as int - 0x30)
    } else if 'a' <= c && c <= 'f' {
        Some(c as int - 0x57)
    } else {
        None
    }
}

/// The text of a JSON string, read from behind the opening quote; there is none if it is no
/// string or does not end with its closing quote.
pub open spec fn read_string(s: Seq<char>) -> Option<Seq<char>>
    decreases s.len(),
{
    if s.len() == 0 || (s[0] as u32) < 0x20 {
        None
    } else if s[0] == '"' {
        if s.len() == 1 {
            Some(Seq::empty())
        } else {
            None
        }
    } else if s[0] != '\\' {
        preceded(s[0], read_string(s.skip(1)))
    } else if s.len() >= 2 && (s[1] == '"' || s[1] == '\\') {
        preceded(s[1], read_string(s.skip(2)))
    } else if s.len() >= 2 && s[1] == 'n' {
        preceded('\n', read_string(s.skip(2)))
    } else if s.len() >= 2 && s[1] == 'r' {
        preceded('\r', read_string(s.skip(2)))
    } else if s.len() >= 2 && s[1] == 't' {
        preceded('\t', read_string(s.skip(2)))
    } else if s.len() >= 6 && s[1] == 'u' && s[2] == '0' && s[3] == '0' {
        match (hex_value(s[4]), hex_value(s[5])) {
            (Some(high), Some(low)) => preceded(
                (16 * high + low) as char,
                read_string(s.skip(6)),
            ),
            _ => None,
        }
    } else {
        None
    }
}

/// A text with a character before it, if there is a text.
pub open spec fn preceded(c: char, rest: Option<Seq<char>>) -> Option<Seq<char>> {
    match rest {
        Some(text) => Some(seq![c] + text),
        None => None,
    }
}

proof fn lemma_escaped_is_read(c: char, rest: Seq<char>)
    ensures
        read_string(escaped(c) + rest) == preceded(c, read_string(rest)),
{
    let s = escaped(c) + rest;
    if escaped(c).len() == 1 {
        assert(s.skip(1) =~= rest);
    } else if escaped(c).len() == 2 {
        assert(s.skip(2) =~= rest);
    } else {
        assert(s.skip(6) =~= rest);
        assert(s[4] == hex(c as int / 16) && s[5] == hex(c as int % 16));
    }
}

/// What is left of a text from place `n` on, inside a JSON string, with the closing quote.
spec fn tail(s: Seq<char>, n: int) -> Seq<char>
    decreases s.len() - n,
{
    if n >= s.len() {
        seq!['"']
    } else {
        escaped(s[n]) + tail(s, n + 1)
    }
}

proof fn lemma_tail_is_read(s: Seq<char>, n: int)
    requires
        0 <= n <= s.len(),
    ensures
        read_string(tail(s, n)) == Some(s.skip(n)),
    decreases s.len() - n,
{
    if n == s.len() {
        assert(s.skip(n) =~= Seq::empty());
    } else {
        lemma_tail_is_read(s, n + 1);
        lemma_escaped_is_read(s[n], tail(s, n + 1));
        assert(seq![s[n]] + s.skip(n + 1) =~= s.skip(n));
    }
}

proof fn lemma_front_and_tail(s: Seq<char>, n: int)
    requires
        0 <= n <= s.len(),
    ensures
        escaped_text(s, n) + tail(s, n) == tail(s, 0),
    decreases n,
{
    if n == 0 {
        assert(escaped_text(s, 0) + tail(s, 0) =~= tail(s, 0));
    } else {
        lemma_front_and_tail(s, n - 1);
        assert(escaped_text(s, n) + tail(s, n) =~= escaped_text(s, n - 1) + tail(s, n - 1));
    }
}

/// A text that is written as a JSON string is read back, whatever characters it holds.
pub proof fn a_json_string_is_read_back(s: Seq<char>)
    ensures
        json_string(s)[0] == '"',
        read_string(json_string(s).skip(1)) == Some(s),
{
    lemma_front_and_tail(s, s.len() as int);
    lemma_tail_is_read(s, 0);
    assert(json_string(s).skip(1) =~= tail(s, 0));
    assert(s.skip(0) =~= s);
}

proof fn lemma_no_control_characters(s: Seq<char>, n: int)
    requires
        0 <= n <= s.len(),
    ensures
        forall|i: int|
            0 <= i < escaped_text(s, n).len() ==> #[trigger] escaped_text(s, n)[i] as int >= 0x20,
    decreases n,
{
    if n > 0 {
        lemma_no_control_characters(s, n - 1);
        let front = escaped_text(s, n - 1);
        let last = escaped(s[n - 1]);
        assert forall|i: int| 0 <= i < (front + last).len() implies #[trigger] (front
            + last)[i] as int >= 0x20 by {
            if i < front.len() {
                assert((front + last)[i] == front[i]);
            } else {
                lemma_escape_holds_none(s[n - 1], i - front.len());
                assert((front + last)[i] == last[i - front.len()]);
            }
        }
    }
}

proof fn lemma_escape_holds_none(c: char, k: int)
    requires
        0 <= k < escaped(c).len(),
    ensures
        escaped(c)[k] as int >= 0x20,
{
    if escaped(c).len() == 6 {
        assert(hex(c as int / 16) as int >= 0x30);
        assert(hex(c as int % 16) as int >= 0x30);
        assert(k == 0 || k == 1 || k == 2 || k == 3 || k == 4 || k == 5);
    } else if escaped(c).len() == 2 {
        assert(k == 0 || k == 1);
    }
}

/// A JSON string holds no line break and no other control character, whatever text it stands
/// for.
pub proof fn json_strings_hold_no_control_characters(s: Seq<char>)
    ensures
        forall|i: int|
            0 <= i < json_string(s).len() ==> #[trigger] json_string(s)[i] as int >= 0x20,
{
    lemma_no_control_characters(s, s.len() as int);
    let text = escaped_text(s, s.len() as int);
    assert forall|i: int| 0 <= i < json_string(s).len() implies #[trigger] json_string(s)[i] as int
        >= 0x20 by {
        if 0 < i && i <= text.len() {
            assert(json_string(s)[i] == text[i - 1]);
        }
    }
}

/// The bytes of characters of ASCII.
pub open spec fn ascii(s: Seq<char>) -> Seq<u8> {
    s.map_values(|c: char| c as u8)
}

/// A number that is written is read back by its digits, and has no zero in front.
pub proof fn a_number_is_read_back(n: int)
    requires
        0 <= n,
    ensures
        numeral(n).len() > 0,
        forall|k: int| 0 <= k < numeral(n).len() ==> '0' <= #[trigger] numeral(n)[k] <= '9',
        bytes::decimal(ascii(numeral(n))) == n,
        n > 0 ==> numeral(n)[0] != '0',
        n == 0 ==> numeral(n).len() == 1,
    decreases n,
{
    let s = numeral(n);
    let b = ascii(s);
    if n < 10 {
        assert(b.drop_last() =~= Seq::empty());
        assert(b.last() == 0x30 + n);
        reveal_with_fuel(bytes::decimal, 2);
    } else {
        a_number_is_read_back(n / 10);
        let t = numeral(n / 10);
        assert(b.drop_last() =~= ascii(t));
        assert(b.last() == 0x30 + n % 10);
        assert forall|k: int| 0 <= k < s.len() implies '0' <= #[trigger] s[k] <= '9' by {
            if k < t.len() {
                assert(s[k] == t[k]);
            }
        }
        assert(s[0] == t[0]);
    }
}

/// A span is told in whole microseconds and whole milliseconds: a second is a million of the
/// ones and a thousand of the others.
pub proof fn spans_are_told_in_whole_units(secs: u64, nanos: u32, r: (u128, u128))
    requires
        nanos < 1_000_000_000,
        call_ensures(whole_units, (secs, nanos), r),
    ensures
        r.0 == 1_000_000 * secs + nanos / 1000,
        r.1 == 1000 * secs + nanos / 1_000_000,
{
}

/// The time of the system's clock is told in whole milliseconds since the start of 1970, and a
/// time before that as zero.
pub proof fn times_are_told_in_milliseconds(since: Option<(u64, u32)>, r: u128)
    requires
        call_ensures(to_unix_ms, (since,), r),
    ensures
        since is None ==> r == 0,
        since matches Some((secs, nanos)) ==> nanos < 1_000_000_000 ==> r == 1000 * secs + nanos
            / 1_000_000,
{
}

/// Lines are written as JSON exactly if the setting is the word `json`, letter by letter in
/// either case.
pub proof fn json_is_asked_for_by_its_name(value: Option<&str>, r: Transport)
    requires
        call_ensures(transport_from_env, (value,), r),
    ensures
        r is Json <==> value is Some && value->0@.len() == 4 && (value->0@[0] == 'j'
            || value->0@[0] == 'J') && (value->0@[1] == 's' || value->0@[1] == 'S') && (
        value->0@[2] == 'o' || value->0@[2] == 'O') && (value->0@[3] == 'n' || value->0@[3]
            == 'N'),
{
    reveal_strlit("json");
    if value is Some {
        let v = value->0@;
        let low = v.map_values(|c: char| lower(c));
        if v.len() == 4 && (v[0] == 'j' || v[0] == 'J') && (v[1] == 's' || v[1] == 'S') && (v[2]
            == 'o' || v[2] == 'O') && (v[3] == 'n' || v[3] == 'N') {
            assert(low =~= "json"@);
        }
        if low == "json"@ {
            assert(low.len() == v.len());
            assert(low[0] == lower(v[0]) && low[1] == lower(v[1]) && low[2] == lower(v[2])
                && low[3] == lower(v[3]));
        }
    }
}

/// What a line says of its level and its category.
proof fn lemma_names(level: Level, category: Category)
    ensures
        level is Debug ==> level_name(level) == "DEBUG"@,
        level is Info ==> level_name(level) == "INFO"@,
        level is Warn ==> level_name(level) == "WARN"@,
        category is Request ==> category_name(category) == "request"@,
        category is IoUring ==> category_name(category) == "iouring"@,
{
}

/// The line of a message in JSON is an object with its time, its event, its level, its category
/// and the message, in this order; each value is the one that is told, and the message is read
/// back from the string.
pub proof fn a_message_is_told_in_json(
    ts: u128,
    level: Level,
    category: Category,
    msg: &str,
    r: String,
)
    requires
        call_ensures(format_json_log_at, (ts, level, category, msg), r),
    ensures
        exists|digits: Seq<char>, l: Seq<char>, c: Seq<char>, m: Seq<char>|
            {
                &&& r@ == #[trigger] ("{\"ts\":"@ + digits) + (#[trigger] (
                ",\"event\":\"log\",\"level\":\""@ + l)) + (#[trigger] ("\",\"category\":\""@ + c))
                    + (#[trigger] ("\",\"message\":\""@ + m)) + "}"@
                &&& bytes::decimal(ascii(digits)) == ts
                &&& level is Debug ==> l == "DEBUG"@
                &&& level is Info ==> l == "INFO"@
                &&& level is Warn ==> l == "WARN"@
                &&& category is Request ==> c == "request"@
                &&& category is IoUring ==> c == "iouring"@
                &&& read_string(m) == Some(msg@)
            },
{
    reveal_strlit("log");
    reveal_strlit(",\"event\":\"");
    reveal_strlit("\",\"level\":\"");
    reveal_strlit(",\"event\":\"log\",\"level\":\"");
    reveal_strlit("\"");
    reveal_strlit(",\"message\":");
    reveal_strlit("\",\"message\":\"");
    a_number_is_read_back(ts as int);
    a_json_string_is_read_back(msg@);
    lemma_names(level, category);
    let digits = numeral(ts as int);
    let l = level_name(level);
    let c = category_name(category);
    let m = json_string(msg@).skip(1);
    assert(json_string(msg@) =~= seq!['"'] + m);
    assert(",\"event\":\"log\",\"level\":\""@ =~= ",\"event\":\""@ + "log"@ + "\",\"level\":\""@);
    assert("\",\"message\":\""@ =~= "\""@ + ",\"message\":"@ + seq!['"']);
    assert(r@ =~= ("{\"ts\":"@ + digits) + (",\"event\":\"log\",\"level\":\""@ + l) + (
    "\",\"category\":\""@ + c) + ("\",\"message\":\""@ + m) + "}"@);
}

/// The line of a timing in JSON is an object with its time, its event, its level, its category,
/// what was timed, how long it took in both units, and the context, in this order; each value is
/// the one that is told, and the strings are read back.
#[verifier::rlimit(40)]
pub proof fn a_timing_is_told_in_json(
    ts: u128,
    level: Level,
    category: Category,
    op: &str,
    us: u128,
    ms: u128,
    context: &str,
    r: String,
)
    requires
        call_ensures(format_json_timing_at, (ts, level, category, op, us, ms, context), r),
    ensures
        exists|time: Seq<char>, o: Seq<char>, u: Seq<char>, m: Seq<char>, x: Seq<char>|
            {
                &&& r@ == #[trigger] ("{\"ts\":"@ + time) + ",\"event\":\"timing\",\"level\":\""@
                    + level_name(level) + "\",\"category\":\""@ + category_name(category) + (
                #[trigger] ("\",\"op\":\""@ + o)) + (#[trigger] (",\"elapsed_us\":"@ + u)) + (
                #[trigger] (",\"elapsed_ms\":"@ + m)) + (#[trigger] (",\"context\":\""@ + x)) + "}"@
                &&& bytes::decimal(ascii(time)) == ts
                &&& bytes::decimal(ascii(u)) == us
                &&& bytes::decimal(ascii(m)) == ms
                &&& read_string(o) == Some(op@)
                &&& read_string(x) == Some(context@)
            },
        level is Debug ==> level_name(level) == "DEBUG"@,
        level is Info ==> level_name(level) == "INFO"@,
        level is Warn ==> level_name(level) == "WARN"@,
        category is Request ==> category_name(category) == "request"@,
        category is IoUring ==> category_name(category) == "iouring"@,
{
    reveal_strlit("timing");
    reveal_strlit(",\"event\":\"");
    reveal_strlit("\",\"level\":\"");
    reveal_strlit(",\"event\":\"timing\",\"level\":\"");
    reveal_strlit("\"");
    reveal_strlit(",\"op\":");
    reveal_strlit("\",\"op\":\"");
    reveal_strlit(",\"context\":");
    reveal_strlit(",\"context\":\"");
    a_number_is_read_back(ts as int);
    a_number_is_read_back(us as int);
    a_number_is_read_back(ms as int);
    a_json_string_is_read_back(op@);
    a_json_string_is_read_back(context@);
    let o = json_string(op@).skip(1);
    let x = json_string(context@).skip(1);
    assert(json_string(op@) =~= seq!['"'] + o);
    assert(json_string(context@) =~= seq!['"'] + x);
    assert(",\"event\":\"timing\",\"level\":\""@ =~= ",\"event\":\""@ + "timing"@
        + "\",\"level\":\""@);
    assert("\",\"op\":\""@ =~= "\""@ + ",\"op\":"@ + seq!['"']);
    assert(",\"context\":\""@ =~= ",\"context\":"@ + seq!['"']);
    assert(r@ =~= ("{\"ts\":"@ + numeral(ts as int)) + ",\"event\":\"timing\",\"level\":\""@
        + level_name(level) + "\",\"category\":\""@ + category_name(category) + ("\",\"op\":\""@
        + o) + (",\"elapsed_us\":"@ + numeral(us as int)) + (",\"elapsed_ms\":"@ + numeral(
        ms as int,
    )) + (",\"context\":\""@ + x) + "}"@);
}

/// A line as text ends with its message as it is, behind its level and its category in
/// brackets; a line in JSON is that of the present time.
pub proof fn a_message_is_told_as_it_is(
    transport: Transport,
    level: Level,
    category: Category,
    msg: &str,
    r: String,
)
    requires
        call_ensures(format_log_line, (transport, level, category, msg), r),
    ensures
        transport is Text ==> r@ == "["@ + level_name(level) + "] ["@ + category_name(category)
            + "] "@ + msg@,
        transport is Json ==> exists|ts: u128| #[trigger]
            is_now(ts) && r@ == json_log(ts as int, level, category, msg@),
{
}

/// A timing as text names what was timed, how long it took in both units, and the context as it
/// is, in this order.
pub proof fn a_timing_is_told_as_it_is(
    transport: Transport,
    level: Level,
    category: Category,
    op: &str,
    us: u128,
    ms: u128,
    context: &str,
    r: String,
)
    requires
        call_ensures(format_timing_line, (transport, level, category, op, us, ms, context), r),
    ensures
        transport is Text ==> exists|u: Seq<char>, m: Seq<char>|
            {
                &&& r@ == "["@ + level_name(level) + "] ["@ + category_name(category) + "] "@
                    + "op="@ + op@ + (#[trigger] (" elapsed_us="@ + u)) + (#[trigger] (
                " elapsed_ms="@ + m)) + " "@ + context@
                &&& bytes::decimal(ascii(u)) == us
                &&& bytes::decimal(ascii(m)) == ms
            },
        transport is Json ==> exists|ts: u128| #[trigger]
            is_now(ts) && r@ == json_timing(
                ts as int,
                level,
                category,
                op@,
                us as int,
                ms as int,
                context@,
            ),
{
    a_number_is_read_back(us as int);
    a_number_is_read_back(ms as int);
    if transport is Text {
        assert(r@ =~= "["@ + level_name(level) + "] ["@ + category_name(category) + "] "@ + "op="@
            + op@ + (" elapsed_us="@ + numeral(us as int)) + (" elapsed_ms="@ + numeral(ms as int))
            + " "@ + context@);
    }
}

/// Each level and each category has its own name.
pub proof fn levels_and_categories_have_their_names(
    level: Level,
    category: Category,
    l: &'static str,
    c: &'static str,
)
    requires
        call_ensures(level_str, (level,), l),
        call_ensures(category_str, (category,), c),
    ensures
        level is Debug ==> l@ == "DEBUG"@,
        level is Info ==> l@ == "INFO"@,
        level is Warn ==> l@ == "WARN"@,
        category is Request ==> c@ == "request"@,
        category is IoUring ==> c@ == "iouring"@,
{
}

} // verus!
