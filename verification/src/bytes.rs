//! Forward search in byte strings.
//!
//! Every parser of the crate is described by one notion: the first position, at or after a
//! given one, whose byte belongs to a class. `scan` names that position; the end of the
//! input stands for "there is none".
use vstd::prelude::*;

verus! {

pub const QUOTE: u8 = 0x22;
pub const COMMA: u8 = 0x2c;
pub const MINUS: u8 = 0x2d;
pub const DOT: u8 = 0x2e;
pub const COLON: u8 = 0x3a;
pub const OPEN_BRACKET: u8 = 0x5b;
pub const CLOSE_BRACKET: u8 = 0x5d;
pub const OPEN_BRACE: u8 = 0x7b;
pub const CLOSE_BRACE: u8 = 0x7d;

/// The first position of `s`, at or after `i`, whose byte satisfies `p`; `s.len()` if there
/// is none.
pub open spec fn scan(s: Seq<u8>, i: int, p: spec_fn(u8) -> bool) -> int
    decreases s.len() - i,
{
    if i >= s.len() {
        s.len() as int
    } else if p(s[i]) {
        i
    } else {
        scan(s, i + 1, p)
    }
}

/// The class of one byte.
pub open spec fn byte(a: u8) -> spec_fn(u8) -> bool {
    |b: u8| b == a
}

/// The class of two bytes.
pub open spec fn either(a1: u8, a2: u8) -> spec_fn(u8) -> bool {
    |b: u8| b == a1 || b == a2
}

/// The class of three bytes.
pub open spec fn any_of(a1: u8, a2: u8, a3: u8) -> spec_fn(u8) -> bool {
    |b: u8| b == a1 || b == a2 || b == a3
}

/// Space, tab, line feed, form feed and carriage return.
pub open spec fn is_space(b: u8) -> bool {
    b == 0x20 || b == 0x09 || b == 0x0a || b == 0x0c || b == 0x0d
}

/// The decimal digits.
pub open spec fn is_digit(b: u8) -> bool {
    0x30 <= b <= 0x39
}

/// The ASCII letters.
pub open spec fn is_letter(b: u8) -> bool {
    0x41 <= b <= 0x5a || 0x61 <= b <= 0x7a
}

pub open spec fn non_space() -> spec_fn(u8) -> bool {
    |b: u8| !is_space(b)
}

pub open spec fn digit() -> spec_fn(u8) -> bool {
    |b: u8| is_digit(b)
}

pub open spec fn non_digit() -> spec_fn(u8) -> bool {
    |b: u8| !is_digit(b)
}

pub open spec fn digit_or_minus() -> spec_fn(u8) -> bool {
    |b: u8| is_digit(b) || b == MINUS
}

pub open spec fn non_letter() -> spec_fn(u8) -> bool {
    |b: u8| !is_letter(b)
}

/// The number that a string of digits denotes in base ten; a byte stands for its distance
/// from the digit zero.
pub open spec fn decimal(s: Seq<u8>) -> int
    decreases s.len(),
{
    if s.len() == 0 {
        0
    } else {
        decimal(s.drop_last()) * 10 + (s.last() - 0x30)
    }
}

/// What `scan` finds is at or after the start, satisfies the class, and nothing before does.
pub proof fn lemma_scan(s: Seq<u8>, i: int, p: spec_fn(u8) -> bool)
    requires
        0 <= i <= s.len(),
    ensures
        i <= scan(s, i, p) <= s.len(),
        scan(s, i, p) < s.len() ==> p(s[scan(s, i, p)]),
        forall|j: int| i <= j < scan(s, i, p) ==> !p(#[trigger] s[j]),
    decreases s.len() - i,
{
    if i < s.len() && !p(s[i]) {
        lemma_scan(s, i + 1, p);
    }
}

/// The position that `lemma_scan` describes is the only one.
pub proof fn lemma_scan_is(s: Seq<u8>, i: int, p: spec_fn(u8) -> bool, k: int)
    requires
        0 <= i <= k <= s.len(),
        k < s.len() ==> p(s[k]),
        forall|j: int| i <= j < k ==> !p(#[trigger] s[j]),
    ensures
        scan(s, i, p) == k,
    decreases k - i,
{
    if i < k {
        assert(!p(s[i]));
        lemma_scan_is(s, i + 1, p, k);
    }
}

/// A numeral is not negative, and each further digit makes it at least ten times as large.
pub proof fn lemma_decimal_monotone(s: Seq<u8>, k: int)
    requires
        0 <= k <= s.len(),
        forall|j: int| 0 <= j < s.len() ==> is_digit(#[trigger] s[j]),
    ensures
        0 <= decimal(s.take(k)) <= decimal(s),
    decreases s.len(),
{
    if k == s.len() {
        assert(s.take(k) =~= s);
        if k > 0 {
            lemma_decimal_monotone(s.drop_last(), k - 1);
        }
    } else {
        assert(s.take(k) =~= s.drop_last().take(k));
        lemma_decimal_monotone(s.drop_last(), k);
    }
}

/// `memchr::memchr`: the index of the first byte of the haystack that equals the needle, or
/// `None` if no byte does.
pub assume_specification[ memchr::memchr ](needle: u8, haystack: &[u8]) -> (r: Option<usize>)
    ensures
        r == (if scan(haystack@, 0, byte(needle)) < haystack@.len() {
            Some(scan(haystack@, 0, byte(needle)) as usize)
        } else {
            None
        }),
;

/// `memchr::memchr2`: the index of the first byte of the haystack that equals one of the two
/// needles, or `None` if no byte does.
pub assume_specification[ memchr::memchr2 ](
    needle1: u8,
    needle2: u8,
    haystack: &[u8],
) -> (r: Option<usize>)
    ensures
        r == (if scan(haystack@, 0, either(needle1, needle2)) < haystack@.len() {
            Some(scan(haystack@, 0, either(needle1, needle2)) as usize)
        } else {
            None
        }),
;

/// `memchr::memchr3`: the index of the first byte of the haystack that equals one of the
/// three needles, or `None` if no byte does.
pub assume_specification[ memchr::memchr3 ](
    needle1: u8,
    needle2: u8,
    needle3: u8,
    haystack: &[u8],
) -> (r: Option<usize>)
    ensures
        r == (if scan(haystack@, 0, any_of(needle1, needle2, needle3)) < haystack@.len() {
            Some(scan(haystack@, 0, any_of(needle1, needle2, needle3)) as usize)
        } else {
            None
        }),
;

/// Searching a suffix is searching the whole from where the suffix starts.
pub proof fn lemma_scan_suffix(s: Seq<u8>, i: int, p: spec_fn(u8) -> bool)
    requires
        0 <= i <= s.len(),
    ensures
        scan(s, i, p) == i + scan(s.skip(i), 0, p),
{
    let t = s.skip(i);
    lemma_scan(t, 0, p);
    let k = scan(t, 0, p);
    assert forall|j: int| i <= j < i + k implies !p(#[trigger] s[j]) by {
        assert(s[j] == t[j - i]);
    }
    lemma_scan_is(s, i, p, i + k);
}

/// The first position of `a` at or after `i`, or the end.
pub fn find_byte(s: &[u8], i: usize, a: u8) -> (r: usize)
    requires
        i <= s@.len(),
    ensures
        r == scan(s@, i as int, byte(a)),
        i <= r <= s@.len(),
{
    proof {
        lemma_scan_suffix(s@, i as int, byte(a));
        lemma_scan(s@, i as int, byte(a));
        assert(s@.skip(i as int) =~= s@.subrange(i as int, s@.len() as int));
    }
    match memchr::memchr(a, &s[i..s.len()]) {
        Some(pos) => i + pos,
        None => s.len(),
    }
}

/// The first position of `a1` or `a2` at or after `i`, or the end.
pub fn find_either(s: &[u8], i: usize, a1: u8, a2: u8) -> (r: usize)
    requires
        i <= s@.len(),
    ensures
        r == scan(s@, i as int, either(a1, a2)),
        i <= r <= s@.len(),
{
    proof {
        lemma_scan_suffix(s@, i as int, either(a1, a2));
        lemma_scan(s@, i as int, either(a1, a2));
        assert(s@.skip(i as int) =~= s@.subrange(i as int, s@.len() as int));
    }
    match memchr::memchr2(a1, a2, &s[i..s.len()]) {
        Some(pos) => i + pos,
        None => s.len(),
    }
}

/// The first position of `a1`, `a2` or `a3` at or after `i`, or the end.
pub fn find_any_of(s: &[u8], i: usize, a1: u8, a2: u8, a3: u8) -> (r: usize)
    requires
        i <= s@.len(),
    ensures
        r == scan(s@, i as int, any_of(a1, a2, a3)),
        i <= r <= s@.len(),
{
    proof {
        lemma_scan_suffix(s@, i as int, any_of(a1, a2, a3));
        lemma_scan(s@, i as int, any_of(a1, a2, a3));
        assert(s@.skip(i as int) =~= s@.subrange(i as int, s@.len() as int));
    }
    match memchr::memchr3(a1, a2, a3, &s[i..s.len()]) {
        Some(pos) => i + pos,
        None => s.len(),
    }
}

/// Whether two byte strings are equal.
pub fn bytes_equal(a: &[u8], b: &[u8]) -> (r: bool)
    ensures
        r == (a@ == b@),
{
    if a.len() != b.len() {
        return false;
    }
    let mut k: usize = 0;
    while k < a.len()
        invariant
            k <= a@.len(),
            a@.len() == b@.len(),
            forall|j: int| 0 <= j < k ==> a@[j] == b@[j],
        decreases a@.len() - k,
    {
        if a[k] != b[k] {
            return false;
        }
        k += 1;
    }
    assert(a@ =~= b@);
    true
}

/// Whether the byte is white space.
pub fn space_byte(b: u8) -> (r: bool)
    ensures
        r == is_space(b),
{
    b == 0x20 || b == 0x09 || b == 0x0a || b == 0x0c || b == 0x0d
}

/// Whether the byte is a decimal digit.
pub fn digit_byte(b: u8) -> (r: bool)
    ensures
        r == is_digit(b),
{
    0x30 <= b && b <= 0x39
}

/// Whether the byte is an ASCII letter.
pub fn letter_byte(b: u8) -> (r: bool)
    ensures
        r == is_letter(b),
{
    (0x41 <= b && b <= 0x5a) || (0x61 <= b && b <= 0x7a)
}

/// Whether `needle` stands in `s` at `i`.
pub open spec fn occurs_at(s: Seq<u8>, i: int, needle: Seq<u8>) -> bool {
    i + needle.len() <= s.len() && s.subrange(i, i + needle.len()) == needle
}

/// The first position of `s`, at or after `i`, where `needle` stands.
pub open spec fn find_from(s: Seq<u8>, i: int, needle: Seq<u8>) -> Option<int>
    decreases s.len() + 1 - i,
{
    if i + needle.len() > s.len() {
        None
    } else if occurs_at(s, i, needle) {
        Some(i)
    } else {
        find_from(s, i + 1, needle)
    }
}

/// The first position of `s` where `needle` stands.
pub open spec fn find(s: Seq<u8>, needle: Seq<u8>) -> Option<int> {
    find_from(s, 0, needle)
}

/// `memchr::memmem::find`: the index at which the needle, which is not empty, first occurs in
/// the haystack, or `None` if it does not.
pub assume_specification[ memchr::memmem::find ](haystack: &[u8], needle: &[u8]) -> (r: Option<
    usize,
>)
    requires
        needle@.len() > 0,
    ensures
        r == (match find(haystack@, needle@) {
            Some(k) => Some(k as usize),
            None => None,
        }),
;

/// What `find_from` finds is an occurrence at or after the start, and there is none before.
pub proof fn lemma_find_from(s: Seq<u8>, i: int, needle: Seq<u8>)
    requires
        0 <= i,
    ensures
        find_from(s, i, needle) matches Some(k) ==> i <= k && occurs_at(s, k, needle) && (forall|
            j: int,
        |
            i <= j < k ==> !#[trigger] occurs_at(s, j, needle)),
        find_from(s, i, needle) is None ==> forall|j: int|
            i <= j ==> !#[trigger] occurs_at(s, j, needle),
    decreases s.len() + 1 - i,
{
    if i + needle.len() <= s.len() && !occurs_at(s, i, needle) {
        lemma_find_from(s, i + 1, needle);
    }
}

/// What `lemma_find_from` describes is the only such position.
pub proof fn lemma_find_is(s: Seq<u8>, i: int, needle: Seq<u8>, k: int)
    requires
        0 <= i <= k,
        occurs_at(s, k, needle),
        forall|j: int| i <= j < k ==> !#[trigger] occurs_at(s, j, needle),
    ensures
        find_from(s, i, needle) == Some(k),
    decreases k - i,
{
    if i < k {
        assert(!occurs_at(s, i, needle));
        lemma_find_is(s, i + 1, needle, k);
    }
}

/// An occurrence is still the first one when more bytes follow.
pub proof fn lemma_find_extends(s: Seq<u8>, more: Seq<u8>, needle: Seq<u8>)
    requires
        find(s, needle) is Some,
    ensures
        find(s + more, needle) == find(s, needle),
{
    lemma_find_from(s, 0, needle);
    let k = find(s, needle)->0;
    assert((s + more).subrange(k, k + needle.len()) =~= s.subrange(k, k + needle.len()));
    assert forall|j: int| 0 <= j < k implies !#[trigger] occurs_at(s + more, j, needle) by {
        assert((s + more).subrange(j, j + needle.len()) =~= s.subrange(j, j + needle.len()));
        assert(!occurs_at(s, j, needle));
    }
    lemma_find_is(s + more, 0, needle, k);
}

/// Whether `s` starts with `prefix`.
pub open spec fn starts_with(s: Seq<u8>, prefix: Seq<u8>) -> bool {
    occurs_at(s, 0, prefix)
}

/// Whether `s` starts with `prefix`.
pub fn has_prefix(s: &[u8], prefix: &[u8]) -> (r: bool)
    ensures
        r == starts_with(s@, prefix@),
{
    s.len() >= prefix.len() && bytes_equal(&s[0..prefix.len()], prefix)
}

/// Digits have the value of their places: a digit behind others makes ten times their number
/// and itself, whatever stands before it.
pub proof fn digits_count_by_their_places(front: Seq<u8>, back: Seq<u8>)
    requires
        back.len() > 0,
    ensures
        decimal(Seq::<u8>::empty()) == 0,
        decimal(front + back) == 10 * decimal(front + back.drop_last()) + back.last() - 48,
        forall|d: u8| is_digit(d) <==> 48 <= d <= 57,
{
    assert((front + back).drop_last() =~= front + back.drop_last());
    assert((front + back).last() == back.last());
}

/// A text starts with another one exactly if that is what its first bytes are.
pub proof fn a_prefix_is_the_front(front: Seq<u8>, rest: Seq<u8>, other: Seq<u8>)
    ensures
        starts_with(front + rest, front),
        starts_with(other, front) <==> exists|tail: Seq<u8>| other == #[trigger] (front + tail),
{
    assert((front + rest).subrange(0, front.len() as int) =~= front);
    if starts_with(other, front) {
        assert(other =~= front + other.skip(front.len() as int));
    }
    if exists|tail: Seq<u8>| other == #[trigger] (front + tail) {
        let tail = choose|tail: Seq<u8>| other == #[trigger] (front + tail);
        assert(other.subrange(0, front.len() as int) =~= front);
    }
}

/// Which bytes are white space, digits and letters: blank, tab, line feed, form feed and
/// carriage return; those from 0 to 9; those from A to Z and from a to z; and no others. None is
/// two of these.
pub proof fn bytes_have_their_kinds(b: u8, space: bool, number: bool, letter: bool)
    requires
        call_ensures(space_byte, (b,), space),
        call_ensures(digit_byte, (b,), number),
        call_ensures(letter_byte, (b,), letter),
    ensures
        space <==> b == 32 || b == 9 || b == 10 || b == 12 || b == 13,
        number <==> 48 <= b && b < 48 + 10,
        letter <==> (65 <= b && b < 65 + 26) || (97 <= b && b < 97 + 26),
        space == is_space(b),
        number == is_digit(b),
        letter == is_letter(b),
        !(space && number) && !(space && letter) && !(number && letter),
{
}

/// What is looked for is found at the first place from the start on at which it stands, and
/// otherwise at the end.
pub proof fn the_first_place_is_found(s: &[u8], i: usize, a: u8, b: u8, c: u8, p: usize, q: usize, r: usize)
    requires
        i <= s@.len(),
        call_ensures(find_byte, (s, i, a), p),
        call_ensures(find_either, (s, i, a, b), q),
        call_ensures(find_any_of, (s, i, a, b, c), r),
    ensures
        i <= p <= s@.len(),
        p < s@.len() ==> s@[p as int] == a,
        forall|k: int| i <= k < p ==> #[trigger] s@[k] != a,
        i <= q <= s@.len(),
        q < s@.len() ==> s@[q as int] == a || s@[q as int] == b,
        forall|k: int| i <= k < q ==> #[trigger] s@[k] != a && s@[k] != b,
        i <= r <= s@.len(),
        r < s@.len() ==> s@[r as int] == a || s@[r as int] == b || s@[r as int] == c,
        forall|k: int| i <= k < r ==> #[trigger] s@[k] != a && s@[k] != b && s@[k] != c,
{
    lemma_scan(s@, i as int, byte(a));
    lemma_scan(s@, i as int, either(a, b));
    lemma_scan(s@, i as int, any_of(a, b, c));
    assert forall|k: int| i <= k < p implies #[trigger] s@[k] != a by {
        assert(!byte(a)(s@[k]));
    }
    assert forall|k: int| i <= k < q implies #[trigger] s@[k] != a && s@[k] != b by {
        assert(!either(a, b)(s@[k]));
    }
    assert forall|k: int| i <= k < r implies #[trigger] s@[k] != a && s@[k] != b && s@[k]
        != c by {
        assert(!any_of(a, b, c)(s@[k]));
    }
}

} // verus!
