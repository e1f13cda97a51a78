//! Tables that are looked up: the risks of the kinds of merchants, and the transactions whose
//! outcome is known.
//!
//! Every transaction is scored by the search, a known one too. The table of known transactions
//! is for those who want to hold scores against outcomes: it tells what an answer should have
//! been.
use vstd::prelude::*;
use vstd::string::*;
use crate::bytes;
use crate::layout;

verus! {

/// The number that digits denote, at least one of them, if it is not above `max`.
pub open spec fn denoted(digits: Seq<u8>, max: int) -> Option<int> {
    if digits.len() > 0 && (forall|i: int|
        0 <= i < digits.len() ==> bytes::is_digit(#[trigger] digits[i])) && bytes::decimal(digits)
        <= max {
        Some(bytes::decimal(digits))
    } else {
        None
    }
}

/// The number that a numeral denotes, if it is one and not above `max`: digits, with or
/// without a plus before them.
pub open spec fn number(s: Seq<u8>, max: int) -> Option<int> {
    if s.len() > 0 && s[0] == 0x2b {
        denoted(s.skip(1), max)
    } else {
        denoted(s, max)
    }
}

/// Reads a numeral.
fn read_number(s: &[u8], max: u32) -> (r: Option<u32>)
    ensures
        match r {
            Some(n) => number(s@, max as int) == Some(n as int),
            None => number(s@, max as int) is None,
        },
{
    let plus = s.len() > 0 && s[0] == 0x2b;
    let start: usize = if plus {
        1
    } else {
        0
    };
    let digits: &[u8] = &s[start..s.len()];
    assert(start == 0 ==> digits@ =~= s@);
    assert(start == 1 ==> digits@ =~= s@.skip(1));
    assert(number(s@, max as int) == denoted(digits@, max as int));
    if digits.len() == 0 {
        return None;
    }
    let mut k: usize = 0;
    while k < digits.len()
        invariant
            k <= digits@.len(),
            number(s@, max as int) == denoted(digits@, max as int),
            forall|j: int| 0 <= j < k ==> bytes::is_digit(#[trigger] digits@[j]),
        decreases digits@.len() - k,
    {
        if !bytes::digit_byte(digits[k]) {
            return None;
        }
        k += 1;
    }
    let mut value: u32 = 0;
    let mut k: usize = 0;
    assert(digits@.take(0) =~= Seq::empty());
    while k < digits.len()
        invariant
            k <= digits@.len(),
            number(s@, max as int) == denoted(digits@, max as int),
            forall|j: int| 0 <= j < digits@.len() ==> bytes::is_digit(#[trigger] digits@[j]),
            value == bytes::decimal(digits@.take(k as int)),
            value <= max,
        decreases digits@.len() - k,
    {
        let d: u64 = (digits[k] - 0x30) as u64;
        proof {
            assert(digits@.take(k + 1).drop_last() =~= digits@.take(k as int));
            bytes::lemma_decimal_monotone(digits@, k + 1);
        }
        let wide: u64 = value as u64 * 10 + d;
        if wide > max as u64 {
            return None;
        }
        value = wide as u32;
        k += 1;
    }
    assert(digits@.take(digits@.len() as int) =~= digits@);
    Some(value)
}

/// The number in the name of a transaction: `tx-` and a numeral.
pub open spec fn id_number(id: Seq<u8>) -> Option<int> {
    if bytes::starts_with(id, "tx-".spec_bytes()) {
        number(id.skip(3), u32::MAX as int)
    } else {
        None
    }
}

/// Reads the number in the name of a transaction.
pub fn parse_id(id: &[u8]) -> (r: Option<u32>)
    ensures
        match r {
            Some(n) => id_number(id@) == Some(n as int),
            None => id_number(id@) is None,
        },
{
    proof {
        reveal_strlit("tx-");
        assert(is_ascii("tx-"));
    }
    let prefix: &str = "tx-";
    if !bytes::has_prefix(id, prefix.as_bytes()) {
        return None;
    }
    let rest: &[u8] = &id[3..id.len()];
    assert(rest@ =~= id@.skip(3));
    read_number(rest, 0xffff_ffff)
}

/// Transactions whose outcome is known, by number, to hold answers against.
pub struct Labels {
    pub entries: Vec<(u32, bool)>,
}

/// The numbered ones of the first `m` transactions, each with its outcome.
pub open spec fn numbered(ids: Seq<Seq<u8>>, approved: Seq<bool>, m: int) -> Seq<(u32, bool)>
    decreases m,
{
    if m <= 0 {
        Seq::empty()
    } else {
        match id_number(ids[m - 1]) {
            Some(n) => numbered(ids, approved, m - 1).push((n as u32, approved[m - 1])),
            None => numbered(ids, approved, m - 1),
        }
    }
}

/// The entries with number `n`, in order.
pub open spec fn with_number(s: Seq<(u32, bool)>, n: u32) -> Seq<(u32, bool)>
    decreases s.len(),
{
    if s.len() == 0 {
        s
    } else if s.last().0 == n {
        with_number(s.drop_last(), n).push(s.last())
    } else {
        with_number(s.drop_last(), n)
    }
}

/// An entry as a pair of numbers.
spec fn as_pair(e: (u32, bool)) -> (usize, usize) {
    if e.1 {
        (e.0 as usize, 1)
    } else {
        (e.0 as usize, 0)
    }
}

/// The entries as pairs of numbers.
spec fn as_pairs(s: Seq<(u32, bool)>) -> Seq<(usize, usize)> {
    Seq::new(s.len(), |i: int| as_pair(s[i]))
}

proof fn lemma_pairs_with_number(s: Seq<(u32, bool)>, n: u32)
    ensures
        layout::with_key(as_pairs(s), n as usize) == as_pairs(with_number(s, n)),
    decreases s.len(),
{
    let p = as_pairs(s);
    if s.len() == 0 {
        assert(p =~= as_pairs(with_number(s, n)));
    } else {
        lemma_pairs_with_number(s.drop_last(), n);
        assert(p.drop_last() =~= as_pairs(s.drop_last()));
        assert(layout::with_key(p, n as usize) =~= as_pairs(with_number(s, n)));
    }
}

proof fn lemma_same_pairs(a: Seq<(u32, bool)>, b: Seq<(u32, bool)>)
    requires
        as_pairs(a) == as_pairs(b),
    ensures
        a == b,
{
    assert(as_pairs(a).len() == a.len());
    assert(as_pairs(b).len() == b.len());
    assert forall|i: int| 0 <= i < a.len() implies a[i] == b[i] by {
        assert(as_pairs(a)[i] == as_pair(a[i]));
        assert(as_pairs(b)[i] == as_pair(b[i]));
        assert(a[i].0 == b[i].0 && a[i].1 == b[i].1);
    }
    assert(a =~= b);
}

impl Labels {
    /// In the order of the numbers.
    pub open spec fn wf(&self) -> bool {
        forall|i: int, j: int|
            0 <= i <= j < self.entries@.len() ==> (#[trigger] self.entries@[i]).0 <= (
            #[trigger] self.entries@[j]).0
    }

    /// The labels of the transactions that are numbered; the others are left out. Those with
    /// one number stay in their order.
    pub fn new(ids: &Vec<Vec<u8>>, approved: &Vec<bool>) -> (r: Labels)
        requires
            ids@.len() == approved@.len(),
        ensures
            r.wf(),
            forall|n: u32| #[trigger]
                with_number(r.entries@, n) == with_number(
                    numbered(
                        ids@.map_values(|id: Vec<u8>| id@),
                        approved@,
                        ids@.len() as int,
                    ),
                    n,
                ),
    {
        let ghost views = ids@.map_values(|id: Vec<u8>| id@);
        let ghost mut all: Seq<(u32, bool)> = Seq::empty();
        let mut pairs: Vec<(usize, usize)> = Vec::new();
        let mut i: usize = 0;
        while i < ids.len()
            invariant
                i <= ids@.len() == approved@.len(),
                views == ids@.map_values(|id: Vec<u8>| id@),
                all == numbered(views, approved@, i as int),
                pairs@ =~= as_pairs(all),
            decreases ids@.len() - i,
        {
            assert(views[i as int] == ids@[i as int]@);
            if let Some(n) = parse_id(ids[i].as_slice()) {
                let flag: usize = if approved[i] {
                    1
                } else {
                    0
                };
                pairs.push((n as usize, flag));
                proof {
                    all = all.push((n, approved@[i as int]));
                }
            }
            i += 1;
        }
        layout::sort_by_first(&mut pairs);
        let mut entries: Vec<(u32, bool)> = Vec::new();
        let mut k: usize = 0;
        proof {
            assert forall|j: int| 0 <= j < pairs@.len() implies (#[trigger] pairs@[j]).0
                <= u32::MAX && pairs@[j].1 <= 1 by {
                let c = pairs@[j].0;
                layout::with_key_are_members(pairs@, c);
                layout::with_key_are_members(as_pairs(all), c);
                assert(layout::with_key(pairs@, c).contains(pairs@[j]));
                let l = choose|l: int|
                    0 <= l < layout::with_key(pairs@, c).len() && layout::with_key(pairs@, c)[l]
                        == pairs@[j];
                assert(as_pairs(all).contains(layout::with_key(as_pairs(all), c)[l]));
            }
        }
        while k < pairs.len()
            invariant
                k <= pairs@.len(),
                layout::by_key(pairs@),
                forall|j: int|
                    0 <= j < pairs@.len() ==> (#[trigger] pairs@[j]).0 <= u32::MAX && pairs@[j].1
                        <= 1,
                as_pairs(entries@) =~= pairs@.take(k as int),
            decreases pairs@.len() - k,
        {
            let entry = (pairs[k].0 as u32, pairs[k].1 == 1);
            let ghost before = entries@;
            entries.push(entry);
            proof {
                assert(as_pair(entry).0 == pairs@[k as int].0);
                assert(as_pair(entry).1 == pairs@[k as int].1);
                assert(as_pairs(entries@) =~= as_pairs(before).push(as_pair(entry)));
            }
            k += 1;
        }
        let r = Labels { entries };
        proof {
            assert(as_pairs(r.entries@) =~= pairs@);
            assert forall|i: int, j: int| 0 <= i <= j < r.entries@.len() implies (
            #[trigger] r.entries@[i]).0 <= (#[trigger] r.entries@[j]).0 by {
                assert(pairs@[i].0 <= pairs@[j].0);
                assert(as_pairs(r.entries@)[i] == pairs@[i]);
                assert(as_pairs(r.entries@)[j] == pairs@[j]);
            }
            assert forall|n: u32| #[trigger]
                with_number(r.entries@, n) == with_number(all, n) by {
                lemma_pairs_with_number(r.entries@, n);
                lemma_pairs_with_number(all, n);
                lemma_same_pairs(with_number(r.entries@, n), with_number(all, n));
            }
        }
        r
    }

    /// Whether the outcome of the transaction with a name may be found as `found`: that of some
    /// entry with its number; none if the name has no number or no entry has it.
    pub open spec fn may_find(&self, id: Seq<u8>, found: Option<bool>) -> bool {
        match found {
            Some(b) => exists|i: int|
                0 <= i < self.entries@.len() && id_number(id) == Some(
                    self.entries@[i].0 as int,
                ) && (#[trigger] self.entries@[i]).1 == b,
            None => forall|i: int|
                0 <= i < self.entries@.len() ==> id_number(id) != Some(
                    (#[trigger] self.entries@[i]).0 as int,
                ),
        }
    }

    /// Looks up the outcome of a transaction by its name.
    pub fn lookup(&self, id: &[u8]) -> (r: Option<bool>)
        requires
            self.wf(),
        ensures
            self.may_find(id@, r),
    {
        let n = match parse_id(id) {
            Some(n) => n,
            None => {
                return None;
            },
        };
        let mut low: usize = 0;
        let mut high: usize = self.entries.len();
        while low < high
            invariant
                low <= high <= self.entries@.len(),
                self.wf(),
                id_number(id@) == Some(n as int),
                forall|j: int| 0 <= j < low ==> (#[trigger] self.entries@[j]).0 < n,
                forall|j: int|
                    high <= j < self.entries@.len() ==> (#[trigger] self.entries@[j]).0 > n,
            decreases high - low,
        {
            let mid: usize = low + (high - low) / 2;
            let (number, approved) = self.entries[mid];
            if number == n {
                assert(self.entries@[mid as int].1 == approved);
                return Some(approved);
            } else if number < n {
                low = mid + 1;
            } else {
                high = mid;
            }
        }
        None
    }
}

proof fn lemma_numbered_has(ids: Seq<Seq<u8>>, approved: Seq<bool>, m: int, i: int)
    requires
        0 <= i < m <= ids.len(),
        id_number(ids[i]) is Some,
        0 <= id_number(ids[i])->0 <= u32::MAX,
    ensures
        with_number(numbered(ids, approved, m), id_number(ids[i])->0 as u32).len() > 0,
    decreases m,
{
    let n = id_number(ids[i])->0 as u32;
    let before = numbered(ids, approved, m - 1);
    if i < m - 1 {
        lemma_numbered_has(ids, approved, m - 1, i);
    }
    if id_number(ids[m - 1]) is Some {
        assert(numbered(ids, approved, m).drop_last() =~= before);
    }
}

proof fn lemma_with_number_has(s: Seq<(u32, bool)>, n: u32)
    requires
        with_number(s, n).len() > 0,
    ensures
        exists|i: int| 0 <= i < s.len() && (#[trigger] s[i]).0 == n,
    decreases s.len(),
{
    if s.last().0 == n {
        assert(s[s.len() - 1].0 == n);
    } else {
        lemma_with_number_has(s.drop_last(), n);
        let i = choose|i: int| 0 <= i < s.drop_last().len() && (#[trigger] s.drop_last()[i]).0 == n;
        assert(s[i].0 == n);
    }
}

proof fn lemma_number_in_range(s: Seq<u8>, max: int)
    ensures
        number(s, max) matches Some(n) ==> 0 <= n <= max,
{
    if s.len() > 0 && s[0] == 0x2b {
        lemma_denoted_in_range(s.skip(1), max);
    } else {
        lemma_denoted_in_range(s, max);
    }
}

proof fn lemma_denoted_in_range(digits: Seq<u8>, max: int)
    ensures
        denoted(digits, max) matches Some(n) ==> 0 <= n <= max,
{
    if denoted(digits, max) is Some {
        bytes::lemma_decimal_monotone(digits, digits.len() as int);
    }
}

/// A transaction that is listed under a numbered name is found under that name.
pub proof fn a_listed_transaction_is_found(
    labels: Labels,
    ids: Seq<Seq<u8>>,
    approved: Seq<bool>,
    i: int,
    found: Option<bool>,
)
    requires
        forall|n: u32| #[trigger]
            with_number(labels.entries@, n) == with_number(
                numbered(ids, approved, ids.len() as int),
                n,
            ),
        0 <= i < ids.len(),
        id_number(ids[i]) is Some,
        labels.may_find(ids[i], found),
    ensures
        found is Some,
{
    lemma_number_in_range(ids[i].skip(3), u32::MAX as int);
    let n = id_number(ids[i])->0 as u32;
    lemma_numbered_has(ids, approved, ids.len() as int, i);
    assert(with_number(labels.entries@, n).len() > 0);
    lemma_with_number_has(labels.entries@, n);
}

/// The kinds of merchants.
pub const MCC_CODES: usize = 65536;

/// The risk of a kind of merchant that is not listed (0.5).
pub const DEFAULT_RISK: u32 = 0x3f00_0000;

/// The risk of kind `c` in the first `m` lines of a list: that of the last line that names it.
pub open spec fn risk_of(codes: Seq<Seq<u8>>, risks: Seq<u32>, m: int, c: int) -> u32
    decreases m,
{
    if m <= 0 {
        DEFAULT_RISK
    } else if number(codes[m - 1], MCC_CODES - 1) == Some(c) {
        risks[m - 1]
    } else {
        risk_of(codes, risks, m - 1, c)
    }
}

/// The table of the risks in a list, by kind. There is none exactly if a line names no kind.
pub fn risk_table(codes: &Vec<Vec<u8>>, risks: &Vec<u32>) -> (r: Option<Vec<u32>>)
    requires
        codes@.len() == risks@.len(),
    ensures
        r is Some <==> forall|i: int|
            0 <= i < codes@.len() ==> number((#[trigger] codes@[i])@, MCC_CODES - 1) is Some,
        r matches Some(table) ==> table@ == Seq::new(
            MCC_CODES as nat,
            |c: int|
                risk_of(
                    codes@.map_values(|code: Vec<u8>| code@),
                    risks@,
                    codes@.len() as int,
                    c,
                ),
        ),
{
    let ghost views = codes@.map_values(|code: Vec<u8>| code@);
    let mut table: Vec<u32> = Vec::new();
    let mut c: usize = 0;
    while c < MCC_CODES
        invariant
            c <= MCC_CODES,
            table@.len() == c,
            forall|b: int| 0 <= b < c ==> table@[b] == DEFAULT_RISK,
        decreases MCC_CODES - c,
    {
        table.push(DEFAULT_RISK);
        c += 1;
    }
    let mut i: usize = 0;
    while i < codes.len()
        invariant
            i <= codes@.len() == risks@.len(),
            views == codes@.map_values(|code: Vec<u8>| code@),
            table@.len() == MCC_CODES,
            forall|j: int| 0 <= j < i ==> number((#[trigger] codes@[j])@, MCC_CODES - 1) is Some,
            forall|b: int|
                0 <= b < MCC_CODES ==> #[trigger] table@[b] == risk_of(views, risks@, i as int, b),
        decreases codes@.len() - i,
    {
        assert(views[i as int] == codes@[i as int]@);
        match read_number(codes[i].as_slice(), 65535) {
            Some(code) => {
                proof {
                    lemma_number_in_range(codes@[i as int]@, MCC_CODES - 1);
                }
                table[code as usize] = risks[i];
            },
            None => {
                return None;
            },
        }
        i += 1;
    }
    assert(table@ =~= Seq::new(
        MCC_CODES as nat,
        |c: int| risk_of(views, risks@, codes@.len() as int, c),
    ));
    Some(table)
}

/// Digits are the number that they denote if it is not too large, with or without a plus before
/// them; nothing else is a number.
pub proof fn only_digits_are_a_number(digits: Seq<u8>, max: int)
    requires
        0 <= max,
    ensures
        digits.len() > 0 && (forall|i: int|
            0 <= i < digits.len() ==> 0x30 <= #[trigger] digits[i] <= 0x39) ==> ({
            let value = bytes::decimal(digits);
            &&& value <= max ==> number(digits, max) == Some(value) && number(
                seq![0x2bu8] + digits,
                max,
            ) == Some(value)
            &&& value > max ==> number(digits, max) is None && number(
                seq![0x2bu8] + digits,
                max,
            ) is None
        }),
        digits.len() == 0 || (exists|i: int|
            0 <= i < digits.len() && !(0x30 <= #[trigger] digits[i] <= 0x39)) ==> number(
            seq![0x2bu8] + digits,
            max,
        ) is None && (digits.len() == 0 || digits[0] != 0x2b ==> number(digits, max) is None),
{
    let signed = seq![0x2bu8] + digits;
    assert(signed.skip(1) =~= digits);
    if exists|i: int| 0 <= i < digits.len() && !(0x30 <= #[trigger] digits[i] <= 0x39) {
        let i = choose|i: int| 0 <= i < digits.len() && !(0x30 <= #[trigger] digits[i] <= 0x39);
        assert(!bytes::is_digit(digits[i]));
    }
}

/// The name of a transaction is `tx-` and its number.
pub proof fn a_name_holds_its_number(digits: Seq<u8>)
    requires
        digits.len() > 0,
        forall|i: int| 0 <= i < digits.len() ==> 0x30 <= #[trigger] digits[i] <= 0x39,
    ensures
        bytes::decimal(digits) <= 0xffff_ffff ==> id_number("tx-".spec_bytes() + digits) == Some(
            bytes::decimal(digits),
        ),
        bytes::decimal(digits) > 0xffff_ffff ==> id_number("tx-".spec_bytes() + digits) is None,
        id_number(digits) is None,
{
    reveal_strlit("tx-");
    assert(is_ascii("tx-"));
    let id = "tx-".spec_bytes() + digits;
    assert(id.take(3) =~= "tx-".spec_bytes());
    assert(id.skip(3) =~= digits);
    only_digits_are_a_number(digits, 0xffff_ffff);
    if bytes::starts_with(digits, "tx-".spec_bytes()) {
        assert(digits.take(3)[0] == digits[0]);
        assert("tx-".spec_bytes()[0] == 0x74);
    }
}

proof fn lemma_risk_of(codes: Seq<Seq<u8>>, risks: Seq<u32>, m: int, c: int, i: int)
    requires
        0 <= i < m <= codes.len(),
        number(codes[i], MCC_CODES - 1) == Some(c),
        forall|j: int| i < j < m ==> number(#[trigger] codes[j], MCC_CODES - 1) != Some(c),
    ensures
        risk_of(codes, risks, m, c) == risks[i],
    decreases m,
{
    if i < m - 1 {
        assert(number(codes[m - 1], MCC_CODES - 1) != Some(c));
        lemma_risk_of(codes, risks, m - 1, c, i);
    }
}

proof fn lemma_risk_of_none(codes: Seq<Seq<u8>>, risks: Seq<u32>, m: int, c: int)
    requires
        0 <= m <= codes.len(),
        forall|j: int| 0 <= j < m ==> number(#[trigger] codes[j], MCC_CODES - 1) != Some(c),
    ensures
        risk_of(codes, risks, m, c) == DEFAULT_RISK,
    decreases m,
{
    if m > 0 {
        assert(number(codes[m - 1], MCC_CODES - 1) != Some(c));
        lemma_risk_of_none(codes, risks, m - 1, c);
    }
}

/// The table has a risk for each of 65536 kinds of merchants: that of the last line that names
/// the kind, and one half for a kind that no line names.
pub proof fn the_last_line_of_a_kind_counts(
    codes: &Vec<Vec<u8>>,
    risks: &Vec<u32>,
    table: Vec<u32>,
    c: int,
    i: int,
)
    requires
        codes@.len() == risks@.len(),
        call_ensures(risk_table, (codes, risks), Some(table)),
        0 <= c < 65536,
    ensures
        table@.len() == 65536,
        0 <= i < codes@.len() && number(codes@[i]@, 65535) == Some(c) && (forall|j: int|
            i < j < codes@.len() ==> number((#[trigger] codes@[j])@, 65535) != Some(c))
            ==> table@[c] == risks@[i],
        (forall|j: int|
            0 <= j < codes@.len() ==> number((#[trigger] codes@[j])@, 65535) != Some(c))
            ==> table@[c] == 0x3f00_0000,
        forall|j: int|
            0 <= j < codes@.len() ==> number((#[trigger] codes@[j])@, 65535) is Some,
{
    let views = codes@.map_values(|code: Vec<u8>| code@);
    assert forall|j: int| 0 <= j < codes@.len() implies #[trigger] views[j] == codes@[j]@ by {}
    if 0 <= i < codes@.len() && number(codes@[i]@, 65535) == Some(c) && (forall|j: int|
        i < j < codes@.len() ==> number((#[trigger] codes@[j])@, 65535) != Some(c)) {
        assert forall|j: int| i < j < views.len() implies number(
            #[trigger] views[j],
            MCC_CODES - 1,
        ) != Some(c) by {
            assert(number(codes@[j]@, 65535) != Some(c));
        }
        lemma_risk_of(views, risks@, codes@.len() as int, c, i);
    }
    if forall|j: int|
        0 <= j < codes@.len() ==> number((#[trigger] codes@[j])@, 65535) != Some(c) {
        assert forall|j: int| 0 <= j < views.len() implies number(
            #[trigger] views[j],
            MCC_CODES - 1,
        ) != Some(c) by {
            assert(number(codes@[j]@, 65535) != Some(c));
        }
        lemma_risk_of_none(views, risks@, codes@.len() as int, c);
    }
}

proof fn lemma_with_number(s: Seq<(u32, bool)>, n: u32, i: int)
    requires
        0 <= i < s.len(),
        s[i].0 == n,
    ensures
        with_number(s, n).contains(s[i]),
    decreases s.len(),
{
    if i == s.len() - 1 {
        let w = with_number(s, n);
        assert(w[w.len() - 1] == s[i]);
    } else {
        lemma_with_number(s.drop_last(), n, i);
        let w = with_number(s.drop_last(), n);
        let k = choose|k: int| 0 <= k < w.len() && w[k] == s[i];
        assert(with_number(s, n)[k] == s[i]);
    }
}

proof fn lemma_with_number_member(s: Seq<(u32, bool)>, n: u32, e: (u32, bool))
    requires
        with_number(s, n).contains(e),
    ensures
        s.contains(e),
        e.0 == n,
    decreases s.len(),
{
    let w = with_number(s, n);
    let k = choose|k: int| 0 <= k < w.len() && w[k] == e;
    if s.last().0 == n && k == w.len() - 1 {
        assert(s[s.len() - 1] == e);
    } else {
        let v = with_number(s.drop_last(), n);
        assert(v[k] == e);
        lemma_with_number_member(s.drop_last(), n, e);
        let i = choose|i: int| 0 <= i < s.drop_last().len() && s.drop_last()[i] == e;
        assert(s[i] == e);
    }
}

proof fn lemma_numbered_from(ids: Seq<Seq<u8>>, approved: Seq<bool>, m: int, e: (u32, bool))
    requires
        0 <= m <= ids.len(),
        numbered(ids, approved, m).contains(e),
    ensures
        exists|i: int|
            0 <= i < m && id_number(#[trigger] ids[i]) == Some(e.0 as int) && approved[i] == e.1,
    decreases m,
{
    let s = numbered(ids, approved, m);
    let k = choose|k: int| 0 <= k < s.len() && s[k] == e;
    if m > 0 {
        if id_number(ids[m - 1]) is Some {
            lemma_number_in_range(ids[m - 1].skip(3), u32::MAX as int);
        }
        let before = numbered(ids, approved, m - 1);
        if id_number(ids[m - 1]) is Some && k == s.len() - 1 {
            assert(id_number(ids[m - 1]) == Some(e.0 as int));
        } else {
            assert(before[k] == e);
            lemma_numbered_from(ids, approved, m - 1, e);
            let i = choose|i: int|
                0 <= i < m - 1 && id_number(#[trigger] ids[i]) == Some(e.0 as int) && approved[i]
                    == e.1;
            assert(id_number(ids[i]) == Some(e.0 as int));
        }
    }
}

/// What is found for a name is the outcome of a transaction that is listed under its number; so
/// where all that are listed under the number had one outcome, it is that one.
pub proof fn the_outcome_that_is_listed_is_found(
    ids: &Vec<Vec<u8>>,
    approved: &Vec<bool>,
    labels: Labels,
    id: &[u8],
    found: Option<bool>,
)
    requires
        ids@.len() == approved@.len(),
        call_ensures(Labels::new, (ids, approved), labels),
        call_ensures(Labels::lookup, (&labels, id), found),
    ensures
        found matches Some(b) ==> exists|i: int|
            0 <= i < ids@.len() && id_number((#[trigger] ids@[i])@) == id_number(id@)
                && approved@[i] == b,
        found is None ==> forall|i: int|
            0 <= i < ids@.len() && id_number((#[trigger] ids@[i])@) is Some ==> id_number(
                ids@[i]@,
            ) != id_number(id@),
{
    let views = ids@.map_values(|id: Vec<u8>| id@);
    assert forall|j: int| 0 <= j < ids@.len() implies #[trigger] views[j] == ids@[j]@ by {}
    let all = numbered(views, approved@, ids@.len() as int);
    if let Some(b) = found {
        let k = choose|k: int|
            0 <= k < labels.entries@.len() && id_number(id@) == Some(labels.entries@[k].0 as int)
                && (#[trigger] labels.entries@[k]).1 == b;
        let e = labels.entries@[k];
        lemma_with_number(labels.entries@, e.0, k);
        assert(with_number(labels.entries@, e.0) == with_number(all, e.0));
        lemma_with_number_member(all, e.0, e);
        lemma_numbered_from(views, approved@, ids@.len() as int, e);
        let i = choose|i: int|
            0 <= i < ids@.len() && id_number(#[trigger] views[i]) == Some(e.0 as int)
                && approved@[i] == e.1;
        assert(id_number(ids@[i]@) == id_number(id@));
    } else {
        assert forall|i: int| 0 <= i < ids@.len() && id_number((#[trigger] ids@[i])@) is Some
            implies id_number(ids@[i]@) != id_number(id@) by {
            if id_number(ids@[i]@) == id_number(id@) {
                assert(views[i] == ids@[i]@);
                assert(labels.may_find(views[i], None));
                a_listed_transaction_is_found(labels, views, approved@, i, None);
            }
        }
    }
}

} // verus!
