//! The tokens of a JSON payload, read by a cursor that only moves forward.
//!
//! Each reader takes the payload and a cursor and leaves the cursor behind what it read. The
//! spec function beside it gives the token and the new cursor as a function of the payload
//! and the old cursor.
use vstd::prelude::*;
use crate::bytes;
use crate::bytes::{
    CLOSE_BRACE, CLOSE_BRACKET, COLON, COMMA, DOT, MINUS, OPEN_BRACE, OPEN_BRACKET, QUOTE,
};

verus! {

/// A decimal number as it is written: an optional minus sign, the digits before the point
/// and the digits behind it.
#[derive(Clone, Copy)]
pub struct Decimal<'a> {
    pub negative: bool,
    pub whole: &'a [u8],
    pub fraction: &'a [u8],
}

/// What a `Decimal` stands for.
pub struct DecimalView {
    pub negative: bool,
    pub whole: Seq<u8>,
    pub fraction: Seq<u8>,
}

impl<'a> View for Decimal<'a> {
    type V = DecimalView;

    open spec fn view(&self) -> DecimalView {
        DecimalView { negative: self.negative, whole: self.whole@, fraction: self.fraction@ }
    }
}

/// The number without digits, which counts as zero.
pub open spec fn no_digits() -> DecimalView {
    DecimalView { negative: false, whole: Seq::empty(), fraction: Seq::empty() }
}

/// The first position, at or after `i`, that holds no white space.
pub open spec fn after_spaces(s: Seq<u8>, i: int) -> int {
    bytes::scan(s, i, bytes::non_space())
}

/// The string between the next two quotes, and the cursor behind the second one. Without two
/// quotes the string is empty and the cursor is at the end.
pub open spec fn string_at(s: Seq<u8>, i: int) -> (Seq<u8>, int) {
    let open = bytes::scan(s, i, bytes::byte(QUOTE));
    let close = bytes::scan(s, open + 1, bytes::byte(QUOTE));
    if open < s.len() && close < s.len() {
        (s.subrange(open + 1, close), close + 1)
    } else {
        (Seq::empty(), s.len() as int)
    }
}

/// The next key: the string between the next two quotes, if a colon follows it; the cursor is
/// then at what follows the colon and white space. Without a key the cursor stays behind the
/// last of the three marks that was found.
pub open spec fn key_at(s: Seq<u8>, i: int) -> (Option<Seq<u8>>, int) {
    let open = bytes::scan(s, i, bytes::byte(QUOTE));
    let close = bytes::scan(s, open + 1, bytes::byte(QUOTE));
    let colon = bytes::scan(s, close + 1, bytes::byte(COLON));
    if open >= s.len() {
        (None, i)
    } else if close >= s.len() {
        (None, open + 1)
    } else if colon >= s.len() {
        (None, close + 1)
    } else {
        (Some(s.subrange(open + 1, close)), after_spaces(s, colon + 1))
    }
}

/// The next key of the object that the cursor is in. A closing brace before the next quote
/// ends the object, and the cursor is then behind it; so does the end of the payload.
pub open spec fn member_at(s: Seq<u8>, i: int) -> (Option<Seq<u8>>, int) {
    let k = bytes::scan(s, i, bytes::either(QUOTE, CLOSE_BRACE));
    if k >= s.len() {
        (None, s.len() as int)
    } else if s[k] == CLOSE_BRACE {
        (None, k + 1)
    } else {
        key_at(s, k)
    }
}

/// The next string of the array that the cursor is in. A closing bracket before the next
/// quote ends the array, and the cursor is then behind it; so does the end of the payload.
pub open spec fn element_at(s: Seq<u8>, i: int) -> (Option<Seq<u8>>, int) {
    let k = bytes::scan(s, i, bytes::either(QUOTE, CLOSE_BRACKET));
    let close = bytes::scan(s, k + 1, bytes::byte(QUOTE));
    if k >= s.len() {
        (None, s.len() as int)
    } else if s[k] == CLOSE_BRACKET {
        (None, k + 1)
    } else if close >= s.len() {
        (None, s.len() as int)
    } else {
        (Some(s.subrange(k + 1, close)), close + 1)
    }
}

/// The cursor behind the mark that closes the innermost `depth` open pairs.
pub open spec fn closed_at(s: Seq<u8>, i: int, open: u8, close: u8, depth: nat) -> int
    decreases s.len() - i, depth,
{
    let k = bytes::scan(s, i, bytes::either(open, close));
    if i < 0 || i >= s.len() || depth == 0 {
        i
    } else if k < i || k >= s.len() {
        s.len() as int
    } else if s[k] == open {
        closed_at(s, k + 1, open, close, depth + 1)
    } else {
        closed_at(s, k + 1, open, close, (depth - 1) as nat)
    }
}

/// The cursor behind the value that starts at the cursor, white space left out: a string, an
/// object, an array, or else everything up to the next comma or closing mark.
pub open spec fn value_end(s: Seq<u8>, i: int) -> int {
    let k = after_spaces(s, i);
    if k >= s.len() {
        k
    } else if s[k] == QUOTE {
        string_at(s, k).1
    } else if s[k] == OPEN_BRACE {
        closed_at(s, k + 1, OPEN_BRACE, CLOSE_BRACE, 1)
    } else if s[k] == OPEN_BRACKET {
        closed_at(s, k + 1, OPEN_BRACKET, CLOSE_BRACKET, 1)
    } else {
        bytes::scan(s, k, bytes::any_of(COMMA, CLOSE_BRACE, CLOSE_BRACKET))
    }
}

/// The next decimal number, and the cursor behind it.
pub open spec fn decimal_at(s: Seq<u8>, i: int) -> (DecimalView, int) {
    let start = bytes::scan(s, i, bytes::digit_or_minus());
    let negative = start < s.len() && s[start] == MINUS;
    let first = if negative { start + 1 } else { start };
    let point = bytes::scan(s, first, bytes::non_digit());
    let end = bytes::scan(s, point + 1, bytes::non_digit());
    if point < s.len() && s[point] == DOT {
        (
            DecimalView {
                negative,
                whole: s.subrange(first, point),
                fraction: s.subrange(point + 1, end),
            },
            end,
        )
    } else {
        (
            DecimalView { negative, whole: s.subrange(first, point), fraction: Seq::empty() },
            point,
        )
    }
}

/// The number that the next run of digits denotes, and the cursor behind the run.
pub open spec fn numeral_at(s: Seq<u8>, i: int) -> (int, int) {
    let first = bytes::scan(s, i, bytes::digit());
    let end = bytes::scan(s, first, bytes::non_digit());
    (bytes::decimal(s.subrange(first, end)), end)
}

/// The digits of a string, in order, without the other bytes.
pub open spec fn digits_of(s: Seq<u8>) -> Seq<u8> {
    s.filter(bytes::digit())
}

/// The truth value at the next `t` or `f`, and the cursor behind the letters there; `false`
/// at the end of the payload if there is neither.
pub open spec fn bool_at(s: Seq<u8>, i: int) -> (bool, int) {
    let k = bytes::scan(s, i, bytes::either(0x74, 0x66));
    (k < s.len() && s[k] == 0x74, bytes::scan(s, k, bytes::non_letter()))
}

/// `closed_at` does not move the cursor back, nor behind the end.
pub proof fn lemma_closed_at(s: Seq<u8>, i: int, open: u8, close: u8, depth: nat)
    requires
        0 <= i <= s.len(),
    ensures
        i <= closed_at(s, i, open, close, depth) <= s.len(),
    decreases s.len() - i, depth,
{
    let k = bytes::scan(s, i, bytes::either(open, close));
    bytes::lemma_scan(s, i, bytes::either(open, close));
    if i < s.len() && depth > 0 && k < s.len() {
        if s[k] == open {
            lemma_closed_at(s, k + 1, open, close, depth + 1);
        } else {
            lemma_closed_at(s, k + 1, open, close, (depth - 1) as nat);
        }
    }
}

/// No reader moves the cursor back, nor behind the end; one that finds a key or an element
/// moves it.
pub proof fn lemma_cursor(s: Seq<u8>, i: int)
    requires
        0 <= i <= s.len(),
    ensures
        i <= after_spaces(s, i) <= s.len(),
        i <= string_at(s, i).1 <= s.len(),
        i <= key_at(s, i).1 <= s.len(),
        key_at(s, i).0 is Some ==> i < key_at(s, i).1,
        i <= member_at(s, i).1 <= s.len(),
        member_at(s, i).0 is Some ==> i < member_at(s, i).1,
        i <= element_at(s, i).1 <= s.len(),
        element_at(s, i).0 is Some ==> i < element_at(s, i).1,
        i <= value_end(s, i) <= s.len(),
        i <= decimal_at(s, i).1 <= s.len(),
        i <= numeral_at(s, i).1 <= s.len(),
        i <= bool_at(s, i).1 <= s.len(),
{
    assert forall|j: int, p: spec_fn(u8) -> bool| 0 <= j <= s.len() implies j
        <= #[trigger] bytes::scan(s, j, p) <= s.len() by {
        bytes::lemma_scan(s, j, p);
    }
    let k = after_spaces(s, i);
    if k < s.len() {
        lemma_closed_at(s, k + 1, OPEN_BRACE, CLOSE_BRACE, 1);
        lemma_closed_at(s, k + 1, OPEN_BRACKET, CLOSE_BRACKET, 1);
    }
}

/// Moves the cursor over white space.
pub fn skip_spaces(body: &[u8], i: &mut usize)
    requires
        *old(i) <= body@.len(),
    ensures
        *final(i) == after_spaces(body@, *old(i) as int),
        *old(i) <= *final(i) <= body@.len(),
{
    let ghost start = *i as int;
    while *i < body.len() && bytes::space_byte(body[*i])
        invariant
            start <= *i <= body@.len(),
            forall|j: int| start <= j < *i ==> bytes::is_space(#[trigger] body@[j]),
        decreases body@.len() - *i,
    {
        *i += 1;
    }
    proof {
        bytes::lemma_scan_is(body@, start, bytes::non_space(), *i as int);
    }
}

/// Reads the next key.
pub fn next_key<'a>(body: &'a [u8], i: &mut usize) -> (r: Option<&'a [u8]>)
    requires
        *old(i) <= body@.len(),
    ensures
        *final(i) == key_at(body@, *old(i) as int).1,
        *old(i) <= *final(i) <= body@.len(),
        r is Some <==> key_at(body@, *old(i) as int).0 is Some,
        r is Some ==> r->0@ == key_at(body@, *old(i) as int).0->0,
{
    let open = bytes::find_byte(body, *i, QUOTE);
    if open == body.len() {
        return None;
    }
    *i = open + 1;
    let close = bytes::find_byte(body, *i, QUOTE);
    if close == body.len() {
        return None;
    }
    let key: &'a [u8] = &body[*i..close];
    *i = close + 1;
    let colon = bytes::find_byte(body, *i, COLON);
    if colon == body.len() {
        return None;
    }
    *i = colon + 1;
    skip_spaces(body, i);
    Some(key)
}

/// Reads the next key of the object that the cursor is in.
pub fn next_key_in_object<'a>(body: &'a [u8], i: &mut usize) -> (r: Option<&'a [u8]>)
    requires
        *old(i) <= body@.len(),
    ensures
        *final(i) == member_at(body@, *old(i) as int).1,
        *old(i) <= *final(i) <= body@.len(),
        r is Some <==> member_at(body@, *old(i) as int).0 is Some,
        r is Some ==> r->0@ == member_at(body@, *old(i) as int).0->0,
{
    let k = bytes::find_either(body, *i, QUOTE, CLOSE_BRACE);
    *i = k;
    if k == body.len() {
        return None;
    }
    if body[k] == CLOSE_BRACE {
        *i = k + 1;
        return None;
    }
    next_key(body, i)
}

/// Reads the next string of the array that the cursor is in.
pub fn next_str_in_array<'a>(body: &'a [u8], i: &mut usize) -> (r: Option<&'a [u8]>)
    requires
        *old(i) <= body@.len(),
    ensures
        *final(i) == element_at(body@, *old(i) as int).1,
        *old(i) <= *final(i) <= body@.len(),
        r is Some <==> element_at(body@, *old(i) as int).0 is Some,
        r is Some ==> r->0@ == element_at(body@, *old(i) as int).0->0,
{
    let k = bytes::find_either(body, *i, QUOTE, CLOSE_BRACKET);
    *i = k;
    if k == body.len() {
        return None;
    }
    *i = k + 1;
    if body[k] == CLOSE_BRACKET {
        return None;
    }
    let close = bytes::find_byte(body, *i, QUOTE);
    if close == body.len() {
        *i = body.len();
        return None;
    }
    let s: &'a [u8] = &body[*i..close];
    *i = close + 1;
    Some(s)
}

/// Moves the cursor behind the next `target` and says whether there is one; if not, the
/// cursor is at the end.
pub fn skip_to(body: &[u8], i: &mut usize, target: u8) -> (found: bool)
    requires
        *old(i) <= body@.len(),
    ensures
        found == (bytes::scan(body@, *old(i) as int, bytes::byte(target)) < body@.len()),
        found ==> *final(i) == bytes::scan(body@, *old(i) as int, bytes::byte(target)) + 1,
        !found ==> *final(i) == body@.len(),
        *old(i) <= *final(i) <= body@.len(),
{
    let k = bytes::find_byte(body, *i, target);
    if k < body.len() {
        *i = k + 1;
        true
    } else {
        *i = body.len();
        false
    }
}

/// Moves the cursor behind the mark that closes the pair it is in.
fn skip_nested(body: &[u8], i: &mut usize, open: u8, close: u8)
    requires
        1 <= *old(i) <= body@.len(),
    ensures
        *final(i) == closed_at(body@, *old(i) as int, open, close, 1),
        *old(i) <= *final(i) <= body@.len(),
{
    let ghost start = *i as int;
    let mut depth: usize = 1;
    while *i < body.len() && depth > 0
        invariant
            1 <= start <= *i <= body@.len(),
            depth <= *i - start + 1,
            closed_at(body@, start, open, close, 1) == closed_at(
                body@,
                *i as int,
                open,
                close,
                depth as nat,
            ),
        decreases body@.len() - *i,
    {
        let k = bytes::find_either(body, *i, open, close);
        if k == body.len() {
            *i = body.len();
        } else {
            proof {
                bytes::lemma_scan(body@, *i as int, bytes::either(open, close));
            }
            if body[k] == open {
                depth += 1;
            } else {
                depth -= 1;
            }
            *i = k + 1;
        }
    }
}

/// Moves the cursor behind the value it is at.
pub fn skip_value(body: &[u8], i: &mut usize)
    requires
        *old(i) <= body@.len(),
    ensures
        *final(i) == value_end(body@, *old(i) as int),
        *old(i) <= *final(i) <= body@.len(),
{
    skip_spaces(body, i);
    if *i >= body.len() {
        return;
    }
    let first = body[*i];
    if first == QUOTE {
        let _ = parse_str(body, i);
    } else if first == OPEN_BRACE {
        *i += 1;
        skip_nested(body, i, OPEN_BRACE, CLOSE_BRACE);
    } else if first == OPEN_BRACKET {
        *i += 1;
        skip_nested(body, i, OPEN_BRACKET, CLOSE_BRACKET);
    } else {
        *i = bytes::find_any_of(body, *i, COMMA, CLOSE_BRACE, CLOSE_BRACKET);
    }
}

/// Reads the next string.
pub fn parse_str<'a>(body: &'a [u8], i: &mut usize) -> (r: &'a [u8])
    requires
        *old(i) <= body@.len(),
    ensures
        r@ == string_at(body@, *old(i) as int).0,
        *final(i) == string_at(body@, *old(i) as int).1,
        *old(i) <= *final(i) <= body@.len(),
{
    let open = bytes::find_byte(body, *i, QUOTE);
    if open < body.len() {
        let close = bytes::find_byte(body, open + 1, QUOTE);
        if close < body.len() {
            *i = close + 1;
            return &body[open + 1..close];
        }
    }
    *i = body.len();
    &body[0..0]
}

/// Moves the cursor over digits.
fn skip_digits(body: &[u8], i: &mut usize)
    requires
        *old(i) <= body@.len(),
    ensures
        *final(i) == bytes::scan(body@, *old(i) as int, bytes::non_digit()),
        *old(i) <= *final(i) <= body@.len(),
{
    let ghost start = *i as int;
    while *i < body.len() && bytes::digit_byte(body[*i])
        invariant
            start <= *i <= body@.len(),
            forall|j: int| start <= j < *i ==> bytes::is_digit(#[trigger] body@[j]),
        decreases body@.len() - *i,
    {
        *i += 1;
    }
    proof {
        bytes::lemma_scan_is(body@, start, bytes::non_digit(), *i as int);
    }
}

/// Reads the next decimal number.
pub fn parse_decimal<'a>(body: &'a [u8], i: &mut usize) -> (r: Decimal<'a>)
    requires
        *old(i) <= body@.len(),
    ensures
        r@ == decimal_at(body@, *old(i) as int).0,
        *final(i) == decimal_at(body@, *old(i) as int).1,
        *old(i) <= *final(i) <= body@.len(),
{
    let ghost start = *i as int;
    while *i < body.len() && !bytes::digit_byte(body[*i]) && body[*i] != MINUS
        invariant
            start <= *i <= body@.len(),
            forall|j: int|
                start <= j < *i ==> !bytes::is_digit(#[trigger] body@[j]) && body@[j] != MINUS,
        decreases body@.len() - *i,
    {
        *i += 1;
    }
    proof {
        bytes::lemma_scan_is(body@, start, bytes::digit_or_minus(), *i as int);
    }
    let mut negative = false;
    if *i < body.len() && body[*i] == MINUS {
        negative = true;
        *i += 1;
    }
    let first: usize = *i;
    skip_digits(body, i);
    let whole: &'a [u8] = &body[first..*i];
    let mut fraction: &'a [u8] = &body[0..0];
    if *i < body.len() && body[*i] == DOT {
        *i += 1;
        let behind: usize = *i;
        skip_digits(body, i);
        fraction = &body[behind..*i];
    }
    assert(body@.subrange(0, 0) =~= Seq::empty());
    Decimal { negative, whole, fraction }
}

/// Reads the next truth value.
pub fn parse_bool(body: &[u8], i: &mut usize) -> (r: bool)
    requires
        *old(i) <= body@.len(),
    ensures
        r == bool_at(body@, *old(i) as int).0,
        *final(i) == bool_at(body@, *old(i) as int).1,
        *old(i) <= *final(i) <= body@.len(),
{
    let ghost start = *i as int;
    while *i < body.len() && body[*i] != 0x74 && body[*i] != 0x66
        invariant
            start <= *i <= body@.len(),
            forall|j: int| start <= j < *i ==> #[trigger] body@[j] != 0x74 && body@[j] != 0x66,
        decreases body@.len() - *i,
    {
        *i += 1;
    }
    let ghost mark = *i as int;
    proof {
        bytes::lemma_scan_is(body@, start, bytes::either(0x74, 0x66), mark);
    }
    if *i >= body.len() {
        return false;
    }
    let r = body[*i] == 0x74;
    while *i < body.len() && bytes::letter_byte(body[*i])
        invariant
            mark <= *i <= body@.len(),
            forall|j: int| mark <= j < *i ==> bytes::is_letter(#[trigger] body@[j]),
        decreases body@.len() - *i,
    {
        *i += 1;
    }
    proof {
        bytes::lemma_scan_is(body@, mark, bytes::non_letter(), *i as int);
    }
    r
}

/// A run of digits denotes a number that the field's type cannot hold.
#[derive(Clone, Copy, Debug, PartialEq, Eq)]
pub struct OutOfRange;

/// Reads the next run of digits. If the number is above `u32::MAX` the result is
/// `OutOfRange`; the cursor is behind the run all the same.
pub fn parse_u32(body: &[u8], i: &mut usize) -> (r: Result<u32, OutOfRange>)
    requires
        *old(i) <= body@.len(),
    ensures
        r is Ok <==> numeral_at(body@, *old(i) as int).0 <= u32::MAX,
        r is Ok ==> r->Ok_0 == numeral_at(body@, *old(i) as int).0,
        *final(i) == numeral_at(body@, *old(i) as int).1,
        *old(i) <= *final(i) <= body@.len(),
{
    let ghost start = *i as int;
    while *i < body.len() && !bytes::digit_byte(body[*i])
        invariant
            start <= *i <= body@.len(),
            forall|j: int| start <= j < *i ==> !bytes::is_digit(#[trigger] body@[j]),
        decreases body@.len() - *i,
    {
        *i += 1;
    }
    let first: usize = *i;
    proof {
        bytes::lemma_scan_is(body@, start, bytes::digit(), first as int);
    }
    skip_digits(body, i);
    proof {
        bytes::lemma_scan(body@, first as int, bytes::non_digit());
    }
    let run: &[u8] = &body[first..*i];
    assert forall|j: int| 0 <= j < run@.len() implies bytes::is_digit(#[trigger] run@[j]) by {
        assert(run@[j] == body@[first + j]);
    }
    let mut val: u32 = 0;
    let mut k: usize = 0;
    assert(run@.take(0) =~= Seq::empty());
    while k < run.len()
        invariant
            k <= run@.len(),
            forall|j: int| 0 <= j < run@.len() ==> bytes::is_digit(#[trigger] run@[j]),
            val == bytes::decimal(run@.take(k as int)),
            *i == numeral_at(body@, start).1,
            run@ == body@.subrange(
                bytes::scan(body@, start, bytes::digit()),
                numeral_at(body@, start).1,
            ),
            start == *old(i),
            start <= *i <= body@.len(),
        decreases run@.len() - k,
    {
        let d: u32 = (run[k] - 0x30) as u32;
        proof {
            assert(run@.take(k + 1).drop_last() =~= run@.take(k as int));
            bytes::lemma_decimal_monotone(run@, k + 1);
        }
        let wide: u64 = val as u64 * 10 + d as u64;
        if wide > 0xffff_ffff {
            return Err(OutOfRange);
        }
        val = wide as u32;
        k += 1;
    }
    assert(run@.take(run@.len() as int) =~= run@);
    Ok(val)
}

/// Reads the next string and the number that its digits denote. If the number is above
/// `u16::MAX` the result is `OutOfRange`; the cursor is behind the string all the same.
pub fn parse_u16_from_str(body: &[u8], i: &mut usize) -> (r: Result<u16, OutOfRange>)
    requires
        *old(i) <= body@.len(),
    ensures
        r is Ok <==> bytes::decimal(digits_of(string_at(body@, *old(i) as int).0)) <= u16::MAX,
        r is Ok ==> r->Ok_0 == bytes::decimal(digits_of(string_at(body@, *old(i) as int).0)),
        *final(i) == string_at(body@, *old(i) as int).1,
        *old(i) <= *final(i) <= body@.len(),
{
    let ghost start = *i as int;
    let s = parse_str(body, i);
    let mut val: u16 = 0;
    let mut k: usize = 0;
    assert(s@.take(0) =~= Seq::empty());
    reveal(Seq::filter);
    while k < s.len()
        invariant
            k <= s@.len(),
            s@ == string_at(body@, start).0,
            val == bytes::decimal(digits_of(s@.take(k as int))),
            start == *old(i),
            start <= *i <= body@.len(),
            *i == string_at(body@, start).1,
        decreases s@.len() - k,
    {
        proof {
            lemma_digits_of_step(s@, k as int);
            lemma_digits_monotone(s@, k + 1);
            let shorter = digits_of(s@.take(k as int));
            assert(shorter.push(s@[k as int]).drop_last() =~= shorter);
        }
        if bytes::digit_byte(s[k]) {
            let d: u32 = (s[k] - 0x30) as u32;
            let wide: u32 = val as u32 * 10 + d;
            if wide > 0xffff {
                return Err(OutOfRange);
            }
            val = wide as u16;
        }
        k += 1;
    }
    assert(s@.take(s@.len() as int) =~= s@);
    Ok(val)
}

/// The digits of a prefix that is one byte longer.
proof fn lemma_digits_of_step(s: Seq<u8>, k: int)
    requires
        0 <= k < s.len(),
    ensures
        digits_of(s.take(k + 1)) == (if bytes::is_digit(s[k]) {
            digits_of(s.take(k)).push(s[k])
        } else {
            digits_of(s.take(k))
        }),
{
    reveal(Seq::filter);
    assert(s.take(k + 1).drop_last() =~= s.take(k));
}

/// The digits of a prefix denote no more than all digits.
proof fn lemma_digits_monotone(s: Seq<u8>, k: int)
    requires
        0 <= k <= s.len(),
    ensures
        0 <= bytes::decimal(digits_of(s.take(k))) <= bytes::decimal(digits_of(s)),
    decreases s.len() - k,
{
    if k == s.len() {
        assert(s.take(k) =~= s);
        lemma_digits_nonnegative(s);
    } else {
        lemma_digits_monotone(s, k + 1);
        lemma_digits_of_step(s, k);
        lemma_digits_nonnegative(s.take(k));
        let shorter = digits_of(s.take(k));
        assert(shorter.push(s[k]).drop_last() =~= shorter);
    }
}

proof fn lemma_digits_nonnegative(s: Seq<u8>)
    ensures
        0 <= bytes::decimal(digits_of(s)),
    decreases s.len(),
{
    reveal(Seq::filter);
    if s.len() > 0 {
        lemma_digits_nonnegative(s.drop_last());
        let shorter = digits_of(s.drop_last());
        assert(shorter.push(s.last()).drop_last() =~= shorter);
    }
}

} // verus!
