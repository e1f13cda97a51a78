//! The payload of a fraud-score request.
//!
//! The payload is a JSON object whose members `id`, `transaction`, `customer`, `merchant`,
//! `terminal` and `last_transaction` are read, in whatever order they come; other members
//! are skipped. Of a member that occurs twice the later one counts.
use vstd::prelude::*;
use vstd::string::*;
use crate::bytes;
use crate::bytes::{OPEN_BRACE, OPEN_BRACKET};
use crate::json_lexer;
use crate::json_lexer::{Decimal, DecimalView, OutOfRange};

verus! {

/// How many known merchants of a customer are kept.
pub const MAX_KNOWN_MERCHANTS: usize = 10;

/// A transaction to be scored. Strings are slices of the payload. The first
/// `customer_known_merchants_len` entries of `customer_known_merchants` are in use.
#[derive(Clone, Copy)]
pub struct ParsedTransaction<'a> {
    pub id: &'a [u8],
    pub amount: Decimal<'a>,
    pub installments: u8,
    pub requested_at: &'a [u8],
    pub customer_avg_amount: Decimal<'a>,
    pub customer_tx_count_24h: u32,
    pub customer_known_merchants: [&'a [u8]; 10],
    pub customer_known_merchants_len: usize,
    pub merchant_id: &'a [u8],
    pub merchant_mcc: u16,
    pub merchant_avg_amount: Decimal<'a>,
    pub is_online: bool,
    pub card_present: bool,
    pub km_from_home: Decimal<'a>,
    pub last_tx_timestamp: Option<&'a [u8]>,
    pub last_tx_km: Option<Decimal<'a>>,
}

/// What a `ParsedTransaction` stands for.
#[verifier::ext_equal]
pub struct TransactionView {
    pub id: Seq<u8>,
    pub amount: DecimalView,
    pub installments: u8,
    pub requested_at: Seq<u8>,
    pub customer_avg_amount: DecimalView,
    pub customer_tx_count_24h: u32,
    pub customer_known_merchants: Seq<Seq<u8>>,
    pub merchant_id: Seq<u8>,
    pub merchant_mcc: u16,
    pub merchant_avg_amount: DecimalView,
    pub is_online: bool,
    pub card_present: bool,
    pub km_from_home: DecimalView,
    pub last_tx_timestamp: Option<Seq<u8>>,
    pub last_tx_km: Option<DecimalView>,
}

impl<'a> View for ParsedTransaction<'a> {
    type V = TransactionView;

    open spec fn view(&self) -> TransactionView {
        TransactionView {
            id: self.id@,
            amount: self.amount@,
            installments: self.installments,
            requested_at: self.requested_at@,
            customer_avg_amount: self.customer_avg_amount@,
            customer_tx_count_24h: self.customer_tx_count_24h,
            customer_known_merchants: Seq::new(
                self.customer_known_merchants_len as nat,
                |k: int| self.customer_known_merchants@[k]@,
            ),
            merchant_id: self.merchant_id@,
            merchant_mcc: self.merchant_mcc,
            merchant_avg_amount: self.merchant_avg_amount@,
            is_online: self.is_online,
            card_present: self.card_present,
            km_from_home: self.km_from_home@,
            last_tx_timestamp: match self.last_tx_timestamp {
                Some(t) => Some(t@),
                None => None,
            },
            last_tx_km: match self.last_tx_km {
                Some(d) => Some(d@),
                None => None,
            },
        }
    }
}

impl<'a> ParsedTransaction<'a> {
    /// At most `MAX_KNOWN_MERCHANTS` known merchants are in use; the other entries are empty.
    pub open spec fn wf(&self) -> bool {
        &&& self.customer_known_merchants_len <= MAX_KNOWN_MERCHANTS
        &&& forall|k: int|
            self.customer_known_merchants_len <= k < MAX_KNOWN_MERCHANTS
                ==> #[trigger] self.customer_known_merchants@[k]@ == Seq::<u8>::empty()
    }
}

/// The transaction before anything was read.
pub open spec fn blank() -> TransactionView {
    TransactionView {
        id: Seq::empty(),
        amount: json_lexer::no_digits(),
        installments: 0,
        requested_at: Seq::empty(),
        customer_avg_amount: json_lexer::no_digits(),
        customer_tx_count_24h: 0,
        customer_known_merchants: Seq::empty(),
        merchant_id: Seq::empty(),
        merchant_mcc: 0,
        merchant_avg_amount: json_lexer::no_digits(),
        is_online: false,
        card_present: false,
        km_from_home: json_lexer::no_digits(),
        last_tx_timestamp: None,
        last_tx_km: None,
    }
}

/// The members of the payload that are objects.
#[derive(Clone, Copy, PartialEq, Eq, Structural)]
pub enum Section {
    Transaction,
    Customer,
    Merchant,
    Terminal,
    LastTransaction,
}

/// Why reading stopped.
#[derive(Clone, Copy, PartialEq, Eq, Structural, Debug)]
pub enum Stop {
    /// A run of digits denotes a number that its field cannot hold.
    OutOfRange,
    /// An object or an array that a key announces does not open.
    Malformed,
}

/// How far reading came: what was read, and the cursor behind it; or why it stopped.
pub enum Step {
    At(TransactionView, int),
    Stopped(Stop),
}

/// The strings of the array that the cursor is in, added to those that are known, as long as
/// there is room; and the cursor behind the array.
pub open spec fn merchants_at(s: Seq<u8>, i: int, known: Seq<Seq<u8>>) -> (Seq<Seq<u8>>, int)
    decreases s.len() - i,
    when 0 <= i <= s.len()
{
    proof {
        json_lexer::lemma_cursor(s, i);
    }
    match json_lexer::element_at(s, i) {
        (None, k) => (known, k),
        (Some(name), k) => merchants_at(
            s,
            k,
            if known.len() < MAX_KNOWN_MERCHANTS {
                known.push(name)
            } else {
                known
            },
        ),
    }
}

/// Reads the value of one member of a section.
pub open spec fn field_at(
    s: Seq<u8>,
    i: int,
    section: Section,
    key: Seq<u8>,
    tx: TransactionView,
) -> Step {
    let decimal = json_lexer::decimal_at(s, i);
    let string = json_lexer::string_at(s, i);
    let numeral = json_lexer::numeral_at(s, i);
    let truth = json_lexer::bool_at(s, i);
    let code = bytes::decimal(json_lexer::digits_of(string.0));
    let bracket = bytes::scan(s, i, bytes::byte(OPEN_BRACKET));
    let skipped = Step::At(tx, json_lexer::value_end(s, i));
    match section {
        Section::Transaction => if key == "amount".spec_bytes() {
            Step::At(TransactionView { amount: decimal.0, ..tx }, decimal.1)
        } else if key == "installments".spec_bytes() {
            if numeral.0 > u32::MAX {
                Step::Stopped(Stop::OutOfRange)
            } else {
                Step::At(
                    TransactionView { installments: (numeral.0 % 256) as u8, ..tx },
                    numeral.1,
                )
            }
        } else if key == "requested_at".spec_bytes() {
            Step::At(TransactionView { requested_at: string.0, ..tx }, string.1)
        } else {
            skipped
        },
        Section::Customer => if key == "avg_amount".spec_bytes() {
            Step::At(TransactionView { customer_avg_amount: decimal.0, ..tx }, decimal.1)
        } else if key == "tx_count_24h".spec_bytes() {
            if numeral.0 > u32::MAX {
                Step::Stopped(Stop::OutOfRange)
            } else {
                Step::At(
                    TransactionView { customer_tx_count_24h: numeral.0 as u32, ..tx },
                    numeral.1,
                )
            }
        } else if key == "known_merchants".spec_bytes() {
            if bracket >= s.len() {
                Step::Stopped(Stop::Malformed)
            } else {
                let known = merchants_at(s, bracket + 1, tx.customer_known_merchants);
                Step::At(TransactionView { customer_known_merchants: known.0, ..tx }, known.1)
            }
        } else {
            skipped
        },
        Section::Merchant => if key == "id".spec_bytes() {
            Step::At(TransactionView { merchant_id: string.0, ..tx }, string.1)
        } else if key == "mcc".spec_bytes() {
            if code > u16::MAX {
                Step::Stopped(Stop::OutOfRange)
            } else {
                Step::At(TransactionView { merchant_mcc: code as u16, ..tx }, string.1)
            }
        } else if key == "avg_amount".spec_bytes() {
            Step::At(TransactionView { merchant_avg_amount: decimal.0, ..tx }, decimal.1)
        } else {
            skipped
        },
        Section::Terminal => if key == "is_online".spec_bytes() {
            Step::At(TransactionView { is_online: truth.0, ..tx }, truth.1)
        } else if key == "card_present".spec_bytes() {
            Step::At(TransactionView { card_present: truth.0, ..tx }, truth.1)
        } else if key == "km_from_home".spec_bytes() {
            Step::At(TransactionView { km_from_home: decimal.0, ..tx }, decimal.1)
        } else {
            skipped
        },
        Section::LastTransaction => if key == "timestamp".spec_bytes() {
            Step::At(TransactionView { last_tx_timestamp: Some(string.0), ..tx }, string.1)
        } else if key == "km_from_current".spec_bytes() {
            Step::At(TransactionView { last_tx_km: Some(decimal.0), ..tx }, decimal.1)
        } else {
            skipped
        },
    }
}

/// `merchants_at` does not move the cursor back, nor behind the end.
pub proof fn lemma_merchants_at(s: Seq<u8>, i: int, known: Seq<Seq<u8>>)
    requires
        0 <= i <= s.len(),
    ensures
        i <= merchants_at(s, i, known).1 <= s.len(),
        known.len() <= MAX_KNOWN_MERCHANTS ==> merchants_at(s, i, known).0.len()
            <= MAX_KNOWN_MERCHANTS,
    decreases s.len() - i,
{
    json_lexer::lemma_cursor(s, i);
    match json_lexer::element_at(s, i) {
        (None, k) => {},
        (Some(name), k) => lemma_merchants_at(
            s,
            k,
            if known.len() < MAX_KNOWN_MERCHANTS {
                known.push(name)
            } else {
                known
            },
        ),
    }
}

/// `field_at` does not move the cursor back, nor behind the end.
pub proof fn lemma_field_at(
    s: Seq<u8>,
    i: int,
    section: Section,
    key: Seq<u8>,
    tx: TransactionView,
)
    requires
        0 <= i <= s.len(),
    ensures
        field_at(s, i, section, key, tx) matches Step::At(_, k) ==> i <= k <= s.len(),
{
    json_lexer::lemma_cursor(s, i);
    bytes::lemma_scan(s, i, bytes::byte(OPEN_BRACKET));
    let bracket = bytes::scan(s, i, bytes::byte(OPEN_BRACKET));
    if bracket < s.len() {
        lemma_merchants_at(s, bracket + 1, tx.customer_known_merchants);
    }
}

/// Reads the members of the section that the cursor is in, up to its end.
pub open spec fn members_at(s: Seq<u8>, i: int, section: Section, tx: TransactionView) -> Step
    decreases s.len() - i,
    when 0 <= i <= s.len()
{
    proof {
        json_lexer::lemma_cursor(s, i);
        let (key, k) = json_lexer::member_at(s, i);
        lemma_field_at(s, k, section, key->0, tx);
    }
    match json_lexer::member_at(s, i) {
        (None, k) => Step::At(tx, k),
        (Some(key), k) => match field_at(s, k, section, key, tx) {
            Step::At(next, j) => members_at(s, j, section, next),
            stopped => stopped,
        },
    }
}

/// Reads a section from its opening brace on.
pub open spec fn section_at(s: Seq<u8>, i: int, section: Section, tx: TransactionView) -> Step {
    let brace = bytes::scan(s, i, bytes::byte(OPEN_BRACE));
    if brace >= s.len() {
        Step::Stopped(Stop::Malformed)
    } else {
        members_at(s, brace + 1, section, tx)
    }
}

/// `members_at` does not move the cursor back, nor behind the end.
pub proof fn lemma_members_at(s: Seq<u8>, i: int, section: Section, tx: TransactionView)
    requires
        0 <= i <= s.len(),
    ensures
        members_at(s, i, section, tx) matches Step::At(_, k) ==> i <= k <= s.len(),
    decreases s.len() - i,
{
    json_lexer::lemma_cursor(s, i);
    match json_lexer::member_at(s, i) {
        (None, k) => {},
        (Some(key), k) => {
            lemma_field_at(s, k, section, key, tx);
            match field_at(s, k, section, key, tx) {
                Step::At(next, j) => lemma_members_at(s, j, section, next),
                _ => {},
            }
        },
    }
}

/// Whether the payload holds the word `null` at the cursor.
pub open spec fn null_at(s: Seq<u8>, i: int) -> bool {
    i + 4 <= s.len() && s.subrange(i, i + 4) == "null".spec_bytes()
}

/// Reads the value of one member of the payload. `last` says whether the latest
/// `last_transaction` was an object; the second result says so afterwards.
pub open spec fn entry_at(
    s: Seq<u8>,
    i: int,
    key: Seq<u8>,
    tx: TransactionView,
    last: bool,
) -> (Step, bool) {
    let string = json_lexer::string_at(s, i);
    let k = json_lexer::after_spaces(s, i);
    if key == "id".spec_bytes() {
        (Step::At(TransactionView { id: string.0, ..tx }, string.1), last)
    } else if key == "transaction".spec_bytes() {
        (section_at(s, i, Section::Transaction, tx), last)
    } else if key == "customer".spec_bytes() {
        (section_at(s, i, Section::Customer, tx), last)
    } else if key == "merchant".spec_bytes() {
        (section_at(s, i, Section::Merchant, tx), last)
    } else if key == "terminal".spec_bytes() {
        (section_at(s, i, Section::Terminal, tx), last)
    } else if key == "last_transaction".spec_bytes() {
        if null_at(s, k) {
            (Step::At(tx, k + 4), false)
        } else {
            (section_at(s, k, Section::LastTransaction, tx), true)
        }
    } else {
        (Step::At(tx, json_lexer::value_end(s, i)), last)
    }
}

/// `entry_at` does not move the cursor back, nor behind the end.
pub proof fn lemma_entry_at(s: Seq<u8>, i: int, key: Seq<u8>, tx: TransactionView, last: bool)
    requires
        0 <= i <= s.len(),
    ensures
        entry_at(s, i, key, tx, last).0 matches Step::At(_, k) ==> i <= k <= s.len(),
{
    json_lexer::lemma_cursor(s, i);
    let k = json_lexer::after_spaces(s, i);
    assert forall|j: int, section: Section| 0 <= j <= s.len() implies (#[trigger] section_at(
        s,
        j,
        section,
        tx,
    ) matches Step::At(_, e) ==> j <= e <= s.len()) by {
        bytes::lemma_scan(s, j, bytes::byte(OPEN_BRACE));
        let brace = bytes::scan(s, j, bytes::byte(OPEN_BRACE));
        if brace < s.len() {
            lemma_members_at(s, brace + 1, section, tx);
        }
    }
}

/// Reads the members of the payload from the cursor on, until there is no further key.
pub open spec fn entries_at(
    s: Seq<u8>,
    i: int,
    tx: TransactionView,
    last: bool,
) -> Result<TransactionView, Stop>
    decreases s.len() - i,
    when 0 <= i <= s.len()
{
    proof {
        json_lexer::lemma_cursor(s, i);
        let (key, k) = json_lexer::key_at(s, i);
        lemma_entry_at(s, k, key->0, tx, last);
    }
    match json_lexer::key_at(s, i) {
        (None, _) => Ok(
            if last {
                tx
            } else {
                TransactionView { last_tx_timestamp: None, last_tx_km: None, ..tx }
            },
        ),
        (Some(key), k) => match entry_at(s, k, key, tx, last) {
            (Step::At(next, j), flag) => entries_at(s, j, next, flag),
            (Step::Stopped(stop), _) => Err(stop),
        },
    }
}

/// The transaction that the payload describes, or why it describes none.
pub open spec fn payload(s: Seq<u8>) -> Result<TransactionView, Stop> {
    entries_at(s, 0, blank(), false)
}

/// Whether every number of the payload that is read as an integer fits its field.
pub open spec fn in_range(s: Seq<u8>) -> bool {
    payload(s) != Err::<TransactionView, Stop>(Stop::OutOfRange)
}

/// Whether reading from a cursor ended as `step` says.
pub open spec fn agrees(
    r: Result<(), Stop>,
    tx: ParsedTransaction<'_>,
    i: usize,
    step: Step,
) -> bool {
    match step {
        Step::At(next, k) => r is Ok && tx.wf() && tx@ == next && i == k,
        Step::Stopped(stop) => r == Err::<(), Stop>(stop),
    }
}

/// Reads the known merchants from the array that the cursor is in.
fn read_merchants<'a>(body: &'a [u8], i: &mut usize, tx: &mut ParsedTransaction<'a>)
    requires
        *old(i) <= body@.len(),
        old(tx).wf(),
    ensures
        *old(i) <= *final(i) <= body@.len(),
        final(tx).wf(),
        *final(i) == merchants_at(body@, *old(i) as int, old(tx)@.customer_known_merchants).1,
        final(tx)@ == (TransactionView {
            customer_known_merchants: merchants_at(
                body@,
                *old(i) as int,
                old(tx)@.customer_known_merchants,
            ).0,
            ..old(tx)@
        }),
{
    let ghost before = tx@;
    let ghost goal = merchants_at(body@, *i as int, tx@.customer_known_merchants);
    loop
        invariant_except_break
            goal == merchants_at(body@, *i as int, tx@.customer_known_merchants),
        invariant
            *old(i) <= *i <= body@.len(),
            tx.wf(),
            tx@ == (TransactionView {
                customer_known_merchants: tx@.customer_known_merchants,
                ..before
            }),
        ensures
            *old(i) <= *i <= body@.len(),
            tx.wf(),
            tx@ == (TransactionView { customer_known_merchants: goal.0, ..before }),
            *i == goal.1,
        decreases body@.len() - *i,
    {
        proof {
            json_lexer::lemma_cursor(body@, *i as int);
        }
        let ghost known = tx@.customer_known_merchants;
        match json_lexer::next_str_in_array(body, i) {
            None => {
                break;
            },
            Some(name) => {
                if tx.customer_known_merchants_len < MAX_KNOWN_MERCHANTS {
                    tx.customer_known_merchants[tx.customer_known_merchants_len] = name;
                    tx.customer_known_merchants_len = tx.customer_known_merchants_len + 1;
                    assert(tx@.customer_known_merchants =~= known.push(name@));
                }
            },
        }
    }
}

/// Whether the key is the given name.
fn key_is(key: &[u8], name: &str) -> (r: bool)
    ensures
        r == (key@ == name.spec_bytes()),
{
    bytes::bytes_equal(key, name.as_bytes())
}

/// Reads the value of one member of a section.
fn read_field<'a>(
    body: &'a [u8],
    i: &mut usize,
    section: Section,
    key: &[u8],
    tx: &mut ParsedTransaction<'a>,
) -> (r: Result<(), Stop>)
    requires
        *old(i) <= body@.len(),
        old(tx).wf(),
    ensures
        agrees(r, *final(tx), *final(i), field_at(body@, *old(i) as int, section, key@, old(tx)@)),
{
    match section {
        Section::Transaction => {
            if key_is(key, "amount") {
                tx.amount = json_lexer::parse_decimal(body, i);
            } else if key_is(key, "installments") {
                match json_lexer::parse_u32(body, i) {
                    Ok(n) => {
                        tx.installments = (n % 256) as u8;
                    },
                    Err(_) => {
                        return Err(Stop::OutOfRange);
                    },
                }
            } else if key_is(key, "requested_at") {
                tx.requested_at = json_lexer::parse_str(body, i);
            } else {
                json_lexer::skip_value(body, i);
            }
        },
        Section::Customer => {
            if key_is(key, "avg_amount") {
                tx.customer_avg_amount = json_lexer::parse_decimal(body, i);
            } else if key_is(key, "tx_count_24h") {
                match json_lexer::parse_u32(body, i) {
                    Ok(n) => {
                        tx.customer_tx_count_24h = n;
                    },
                    Err(_) => {
                        return Err(Stop::OutOfRange);
                    },
                }
            } else if key_is(key, "known_merchants") {
                if !json_lexer::skip_to(body, i, OPEN_BRACKET) {
                    return Err(Stop::Malformed);
                }
                read_merchants(body, i, tx);
            } else {
                json_lexer::skip_value(body, i);
            }
        },
        Section::Merchant => {
            if key_is(key, "id") {
                tx.merchant_id = json_lexer::parse_str(body, i);
            } else if key_is(key, "mcc") {
                match json_lexer::parse_u16_from_str(body, i) {
                    Ok(n) => {
                        tx.merchant_mcc = n;
                    },
                    Err(_) => {
                        return Err(Stop::OutOfRange);
                    },
                }
            } else if key_is(key, "avg_amount") {
                tx.merchant_avg_amount = json_lexer::parse_decimal(body, i);
            } else {
                json_lexer::skip_value(body, i);
            }
        },
        Section::Terminal => {
            if key_is(key, "is_online") {
                tx.is_online = json_lexer::parse_bool(body, i);
            } else if key_is(key, "card_present") {
                tx.card_present = json_lexer::parse_bool(body, i);
            } else if key_is(key, "km_from_home") {
                tx.km_from_home = json_lexer::parse_decimal(body, i);
            } else {
                json_lexer::skip_value(body, i);
            }
        },
        Section::LastTransaction => {
            if key_is(key, "timestamp") {
                tx.last_tx_timestamp = Some(json_lexer::parse_str(body, i));
            } else if key_is(key, "km_from_current") {
                tx.last_tx_km = Some(json_lexer::parse_decimal(body, i));
            } else {
                json_lexer::skip_value(body, i);
            }
        },
    }
    Ok(())
}

/// Reads a section from its opening brace on.
fn read_section<'a>(
    body: &'a [u8],
    i: &mut usize,
    section: Section,
    tx: &mut ParsedTransaction<'a>,
) -> (r: Result<(), Stop>)
    requires
        *old(i) <= body@.len(),
        old(tx).wf(),
    ensures
        agrees(r, *final(tx), *final(i), section_at(body@, *old(i) as int, section, old(tx)@)),
{
    let ghost goal = section_at(body@, *i as int, section, tx@);
    proof {
        bytes::lemma_scan(body@, *i as int, bytes::byte(OPEN_BRACE));
    }
    if !json_lexer::skip_to(body, i, OPEN_BRACE) {
        return Err(Stop::Malformed);
    }
    loop
        invariant
            *i <= body@.len(),
            tx.wf(),
            goal == section_at(body@, *old(i) as int, section, old(tx)@),
            goal == members_at(body@, *i as int, section, tx@),
        decreases body@.len() - *i,
    {
        proof {
            json_lexer::lemma_cursor(body@, *i as int);
        }
        match json_lexer::next_key_in_object(body, i) {
            None => {
                return Ok(());
            },
            Some(key) => {
                proof {
                    lemma_field_at(body@, *i as int, section, key@, tx@);
                }
                match read_field(body, i, section, key, tx) {
                    Ok(()) => {},
                    Err(stop) => {
                        return Err(stop);
                    },
                }
            },
        }
    }
}

/// Whether the payload holds the word `null` at the cursor.
fn is_null(body: &[u8], i: usize) -> (r: bool)
    requires
        i <= body@.len(),
    ensures
        r == null_at(body@, i as int),
{
    body.len() - i >= 4 && bytes::bytes_equal(&body[i..i + 4], "null".as_bytes())
}

/// Reads the value of one member of the payload.
fn read_entry<'a>(
    body: &'a [u8],
    i: &mut usize,
    key: &[u8],
    tx: &mut ParsedTransaction<'a>,
    last: &mut bool,
) -> (r: Result<(), Stop>)
    requires
        *old(i) <= body@.len(),
        old(tx).wf(),
    ensures
        agrees(
            r,
            *final(tx),
            *final(i),
            entry_at(body@, *old(i) as int, key@, old(tx)@, *old(last)).0,
        ),
        *final(last) == entry_at(body@, *old(i) as int, key@, old(tx)@, *old(last)).1,
{
    if key_is(key, "id") {
        tx.id = json_lexer::parse_str(body, i);
        Ok(())
    } else if key_is(key, "transaction") {
        read_section(body, i, Section::Transaction, tx)
    } else if key_is(key, "customer") {
        read_section(body, i, Section::Customer, tx)
    } else if key_is(key, "merchant") {
        read_section(body, i, Section::Merchant, tx)
    } else if key_is(key, "terminal") {
        read_section(body, i, Section::Terminal, tx)
    } else if key_is(key, "last_transaction") {
        json_lexer::skip_spaces(body, i);
        if is_null(body, *i) {
            *last = false;
            assert(*i + 4 <= body.len());
            *i += 4;
            Ok(())
        } else {
            *last = true;
            read_section(body, i, Section::LastTransaction, tx)
        }
    } else {
        json_lexer::skip_value(body, i);
        Ok(())
    }
}

/// Reads the payload of a fraud-score request, whatever it holds. The result says which
/// transaction it describes, or why it describes none.
pub fn read_payload(body: &[u8]) -> (r: Result<ParsedTransaction<'_>, Stop>)
    ensures
        match payload(body@) {
            Ok(tx) => r is Ok && r->Ok_0.wf() && r->Ok_0@ == tx,
            Err(stop) => r is Err && r->Err_0 == stop,
        },
{
    let empty: &[u8] = &body[0..0];
    let zero = Decimal { negative: false, whole: empty, fraction: empty };
    let mut tx = ParsedTransaction {
        id: empty,
        amount: zero,
        installments: 0,
        requested_at: empty,
        customer_avg_amount: zero,
        customer_tx_count_24h: 0,
        customer_known_merchants: [empty; 10],
        customer_known_merchants_len: 0,
        merchant_id: empty,
        merchant_mcc: 0,
        merchant_avg_amount: zero,
        is_online: false,
        card_present: false,
        km_from_home: zero,
        last_tx_timestamp: None,
        last_tx_km: None,
    };
    let mut last = false;
    let mut i: usize = 0;
    assert(empty@ =~= Seq::empty());
    assert(tx@ =~= blank());
    loop
        invariant
            i <= body@.len(),
            tx.wf(),
            payload(body@) == entries_at(body@, i as int, tx@, last),
        decreases body@.len() - i,
    {
        proof {
            json_lexer::lemma_cursor(body@, i as int);
        }
        match json_lexer::next_key(body, &mut i) {
            None => {
                if !last {
                    tx.last_tx_timestamp = None;
                    tx.last_tx_km = None;
                }
                return Ok(tx);
            },
            Some(key) => {
                proof {
                    lemma_entry_at(body@, i as int, key@, tx@, last);
                }
                match read_entry(body, &mut i, key, &mut tx, &mut last) {
                    Ok(()) => {},
                    Err(stop) => {
                        return Err(stop);
                    },
                }
            },
        }
    }
}

/// Reads the payload of a fraud-score request whose integers fit their fields. There is no
/// transaction exactly if an announced object or array does not open.
pub fn parse_json_payload(body: &[u8]) -> (r: Option<ParsedTransaction<'_>>)
    requires
        in_range(body@),
    ensures
        match payload(body@) {
            Ok(tx) => r is Some && r->0.wf() && r->0@ == tx,
            Err(_) => r is None,
        },
{
    match read_payload(body) {
        Ok(tx) => Some(tx),
        Err(_) => None,
    }
}

/// Both ways of reading a payload give the transaction that it describes; that in which a
/// number may be out of range tells why there is none.
pub proof fn both_readings_give_the_transaction(
    body: &[u8],
    read: Result<ParsedTransaction<'_>, Stop>,
    parsed: Option<ParsedTransaction<'_>>,
)
    requires
        call_ensures(read_payload, (body,), read),
        in_range(body@) ==> call_ensures(parse_json_payload, (body,), parsed),
    ensures
        read is Ok <==> payload(body@) is Ok,
        read is Ok ==> read->Ok_0@ == payload(body@)->Ok_0 && parsed is Some && parsed->0@
            == read->Ok_0@,
        read is Err ==> payload(body@) == Err::<TransactionView, Stop>(read->Err_0),
        read is Err && read->Err_0 is Malformed ==> parsed is None,
{
}

} // verus!
