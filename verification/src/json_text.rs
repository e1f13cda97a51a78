//! The JSON texts of a request, and what they mean.
//!
//! A text of a request is taken apart here as JSON prescribes it: an object whose members come
//! in some order, with white space wherever it may stand. What it means is the object itself,
//! in which there is neither an order nor white space. Strings hold no quotes; a member that is
//! not known may have any value.
use vstd::prelude::*;
use vstd::string::*;
use crate::bytes;
use crate::bytes::{
    CLOSE_BRACE, CLOSE_BRACKET, COLON, COMMA, DOT, MINUS, OPEN_BRACE, OPEN_BRACKET, QUOTE,
};
use crate::json_lexer;
use crate::json_lexer::DecimalView;
use crate::json_parser;
use crate::json_parser::{Section, Step, Stop, TransactionView, MAX_KNOWN_MERCHANTS};

verus! {

/// The beginning of a member: white space, the key, and white space on both sides of the
/// colon.
pub struct Head {
    pub before: Seq<u8>,
    pub key: Seq<u8>,
    pub gap: Seq<u8>,
    pub after: Seq<u8>,
}

/// A number: its sign, its digits before and behind the point, and its exponent with the
/// letter in front. Without digits behind it there is no point.
pub struct Number {
    pub negative: bool,
    pub whole: Seq<u8>,
    pub fraction: Seq<u8>,
    pub exponent: Seq<u8>,
}

/// A string in an array, with white space on both sides.
pub struct Name {
    pub before: Seq<u8>,
    pub name: Seq<u8>,
    pub behind: Seq<u8>,
}

/// The value of a member of a section, as it is written.
pub enum FieldText {
    Text(Seq<u8>),
    Number(Number),
    Truth(bool),
    /// White space behind the opening bracket, and strings.
    Names(Seq<u8>, Seq<Name>),
    /// Any value of a member that is not known.
    Other(Seq<u8>),
}

/// A member of a section, with white space behind it.
pub struct Field {
    pub head: Head,
    pub value: FieldText,
    pub behind: Seq<u8>,
}

/// The value of a member of the request, as it is written.
pub enum EntryText {
    Text(Seq<u8>),
    Null,
    /// White space behind the opening brace, and members.
    Object(Seq<u8>, Seq<Field>),
    /// Any value of a member that is not known.
    Other(Seq<u8>),
}

/// A member of the request, with white space behind it.
pub struct Entry {
    pub head: Head,
    pub value: EntryText,
    pub behind: Seq<u8>,
}

/// A text of a request: white space before, inside and behind the braces, and members.
pub struct Document {
    pub before: Seq<u8>,
    pub blank: Seq<u8>,
    pub entries: Seq<Entry>,
    pub behind: Seq<u8>,
}

/// What the value of a member of a section means.
pub enum FieldValue {
    Text(Seq<u8>),
    Number(DecimalView),
    Truth(bool),
    Names(Seq<Seq<u8>>),
    Other,
}

/// What the value of a member of the request means.
pub enum EntryValue {
    Text(Seq<u8>),
    Null,
    Object(Map<Seq<u8>, FieldValue>),
    Other,
}

/// Whether there is only white space.
pub open spec fn is_blank(t: Seq<u8>) -> bool {
    forall|k: int| 0 <= k < t.len() ==> bytes::is_space(#[trigger] t[k])
}

/// Whether there are only digits.
pub open spec fn all_digits(t: Seq<u8>) -> bool {
    forall|k: int| 0 <= k < t.len() ==> bytes::is_digit(#[trigger] t[k])
}

/// Whether a byte does not occur.
pub open spec fn without(t: Seq<u8>, b: u8) -> bool {
    forall|k: int| 0 <= k < t.len() ==> #[trigger] t[k] != b
}

/// A string between quotes.
pub open spec fn quoted(t: Seq<u8>) -> Seq<u8> {
    seq![QUOTE] + t + seq![QUOTE]
}

pub open spec fn head_text(h: Head) -> Seq<u8> {
    h.before + quoted(h.key) + h.gap + seq![COLON] + h.after
}

pub open spec fn sign_text(negative: bool) -> Seq<u8> {
    if negative {
        seq![MINUS]
    } else {
        Seq::empty()
    }
}

pub open spec fn fraction_text(fraction: Seq<u8>) -> Seq<u8> {
    if fraction.len() > 0 {
        seq![DOT] + fraction
    } else {
        Seq::empty()
    }
}

pub open spec fn number_text(n: Number) -> Seq<u8> {
    sign_text(n.negative) + n.whole + fraction_text(n.fraction) + n.exponent
}

pub open spec fn truth_text(b: bool) -> Seq<u8> {
    if b {
        seq![0x74u8, 0x72u8, 0x75u8, 0x65u8]
    } else {
        seq![0x66u8, 0x61u8, 0x6cu8, 0x73u8, 0x65u8]
    }
}

/// What stands between two members, or two strings of an array: a comma, but none behind the
/// last of them.
pub open spec fn comma_text(remaining: nat) -> Seq<u8> {
    if remaining > 1 {
        seq![COMMA]
    } else {
        Seq::empty()
    }
}

pub open spec fn names_text(names: Seq<Name>) -> Seq<u8>
    decreases names.len(),
{
    if names.len() == 0 {
        Seq::empty()
    } else {
        let n = names[0];
        n.before + quoted(n.name) + n.behind + comma_text(names.len()) + names_text(
            names.drop_first(),
        )
    }
}

pub open spec fn field_value_text(v: FieldText) -> Seq<u8> {
    match v {
        FieldText::Text(t) => quoted(t),
        FieldText::Number(n) => number_text(n),
        FieldText::Truth(b) => truth_text(b),
        FieldText::Names(blank, names) => seq![OPEN_BRACKET] + blank + names_text(names)
            + seq![CLOSE_BRACKET],
        FieldText::Other(t) => t,
    }
}

pub open spec fn fields_text(fields: Seq<Field>) -> Seq<u8>
    decreases fields.len(),
{
    if fields.len() == 0 {
        Seq::empty()
    } else {
        let f = fields[0];
        head_text(f.head) + field_value_text(f.value) + f.behind + comma_text(fields.len())
            + fields_text(fields.drop_first())
    }
}

pub open spec fn entry_value_text(v: EntryText) -> Seq<u8> {
    match v {
        EntryText::Text(t) => quoted(t),
        EntryText::Null => "null".spec_bytes(),
        EntryText::Object(blank, fields) => seq![OPEN_BRACE] + blank + fields_text(fields)
            + seq![CLOSE_BRACE],
        EntryText::Other(t) => t,
    }
}

pub open spec fn entries_text(entries: Seq<Entry>) -> Seq<u8>
    decreases entries.len(),
{
    if entries.len() == 0 {
        Seq::empty()
    } else {
        let e = entries[0];
        head_text(e.head) + entry_value_text(e.value) + e.behind + comma_text(entries.len())
            + entries_text(entries.drop_first())
    }
}

/// The text of a request.
pub open spec fn text(d: Document) -> Seq<u8> {
    d.before + seq![OPEN_BRACE] + d.blank + entries_text(d.entries) + seq![CLOSE_BRACE] + d.behind
}

/// How many more marks open than close among the first `n` bytes.
pub open spec fn level(t: Seq<u8>, open: u8, close: u8, n: int) -> int
    decreases n,
{
    if n <= 0 {
        0
    } else if t[n - 1] == open {
        level(t, open, close, n - 1) + 1
    } else if t[n - 1] == close {
        level(t, open, close, n - 1) - 1
    } else {
        level(t, open, close, n - 1)
    }
}

/// Whether the text goes from an opening mark to the one that closes it.
pub open spec fn encloses(t: Seq<u8>, open: u8, close: u8) -> bool {
    &&& t.len() > 0
    &&& t[0] == open
    &&& forall|n: int| 0 < n < t.len() ==> #[trigger] level(t, open, close, n) > 0
    &&& level(t, open, close, t.len() as int) == 0
}

/// Whether the text is a word: a number, a truth value or `null`.
pub open spec fn is_word(t: Seq<u8>) -> bool {
    &&& t.len() > 0
    &&& !bytes::is_space(t[0])
    &&& without(t, QUOTE)
    &&& without(t, COMMA)
    &&& without(t, OPEN_BRACE)
    &&& without(t, CLOSE_BRACE)
    &&& without(t, OPEN_BRACKET)
    &&& without(t, CLOSE_BRACKET)
}

/// Whether the text is the value of a member that is not known: a string, an object, an array
/// or a word.
pub open spec fn is_other(t: Seq<u8>) -> bool {
    ||| exists|inner: Seq<u8>| t == #[trigger] quoted(inner) && without(inner, QUOTE)
    ||| encloses(t, OPEN_BRACE, CLOSE_BRACE)
    ||| encloses(t, OPEN_BRACKET, CLOSE_BRACKET)
    ||| is_word(t)
}

/// Whether an exponent is written as JSON prescribes: a letter, a sign or none, and digits.
pub open spec fn is_exponent(t: Seq<u8>) -> bool {
    &&& t.len() >= 2
    &&& t[0] == 0x65 || t[0] == 0x45
    &&& bytes::is_digit(t.last())
    &&& bytes::is_digit(t[1]) || t[1] == 0x2b || t[1] == MINUS
    &&& forall|k: int| 2 <= k < t.len() ==> bytes::is_digit(#[trigger] t[k])
}

impl Head {
    pub open spec fn wf(self) -> bool {
        is_blank(self.before) && without(self.key, QUOTE) && is_blank(self.gap) && is_blank(
            self.after,
        )
    }
}

impl Number {
    pub open spec fn wf(self) -> bool {
        &&& self.whole.len() > 0
        &&& all_digits(self.whole)
        &&& all_digits(self.fraction)
        &&& self.exponent.len() > 0 ==> is_exponent(self.exponent)
    }

    /// What is read of the number.
    pub open spec fn decimal(self) -> DecimalView {
        DecimalView { negative: self.negative, whole: self.whole, fraction: self.fraction }
    }
}

impl Name {
    pub open spec fn wf(self) -> bool {
        is_blank(self.before) && without(self.name, QUOTE) && is_blank(self.behind)
    }
}

impl FieldText {
    pub open spec fn wf(self) -> bool {
        match self {
            FieldText::Text(t) => without(t, QUOTE),
            FieldText::Number(n) => n.wf(),
            FieldText::Truth(_) => true,
            FieldText::Names(blank, names) => is_blank(blank) && forall|k: int|
                0 <= k < names.len() ==> (#[trigger] names[k]).wf(),
            FieldText::Other(t) => is_other(t),
        }
    }

    pub open spec fn meaning(self) -> FieldValue {
        match self {
            FieldText::Text(t) => FieldValue::Text(t),
            FieldText::Number(n) => FieldValue::Number(n.decimal()),
            FieldText::Truth(b) => FieldValue::Truth(b),
            FieldText::Names(_, names) => FieldValue::Names(names.map_values(|n: Name| n.name)),
            FieldText::Other(_) => FieldValue::Other,
        }
    }
}

/// Whether a member of a section has a value of its type, which its field can hold.
pub open spec fn fits_field(section: Section, key: Seq<u8>, v: FieldValue) -> bool {
    match section {
        Section::Transaction => if key == "amount".spec_bytes() {
            v is Number
        } else if key == "installments".spec_bytes() {
            v matches FieldValue::Number(d) && bytes::decimal(d.whole) <= u32::MAX
        } else if key == "requested_at".spec_bytes() {
            v is Text
        } else {
            v is Other
        },
        Section::Customer => if key == "avg_amount".spec_bytes() {
            v is Number
        } else if key == "tx_count_24h".spec_bytes() {
            v matches FieldValue::Number(d) && bytes::decimal(d.whole) <= u32::MAX
        } else if key == "known_merchants".spec_bytes() {
            v is Names
        } else {
            v is Other
        },
        Section::Merchant => if key == "id".spec_bytes() {
            v is Text
        } else if key == "mcc".spec_bytes() {
            v matches FieldValue::Text(t) && bytes::decimal(json_lexer::digits_of(t)) <= u16::MAX
        } else if key == "avg_amount".spec_bytes() {
            v is Number
        } else {
            v is Other
        },
        Section::Terminal => if key == "is_online".spec_bytes() || key
            == "card_present".spec_bytes() {
            v is Truth
        } else if key == "km_from_home".spec_bytes() {
            v is Number
        } else {
            v is Other
        },
        Section::LastTransaction => if key == "timestamp".spec_bytes() {
            v is Text
        } else if key == "km_from_current".spec_bytes() {
            v is Number
        } else {
            v is Other
        },
    }
}

/// Whether members of a section are written as they should be: each with a value of its type,
/// and no key twice.
pub open spec fn are_fields(section: Section, fields: Seq<Field>) -> bool {
    &&& forall|k: int|
        0 <= k < fields.len() ==> {
            let f = #[trigger] fields[k];
            &&& f.head.wf()
            &&& f.value.wf()
            &&& is_blank(f.behind)
            &&& fits_field(section, f.head.key, f.value.meaning())
        }
    &&& forall|j: int, k: int|
        0 <= j < k < fields.len() ==> (#[trigger] fields[j]).head.key != (
        #[trigger] fields[k]).head.key
}

/// The object that the members of a section make up.
pub open spec fn fields_object(fields: Seq<Field>) -> Map<Seq<u8>, FieldValue>
    decreases fields.len(),
{
    if fields.len() == 0 {
        Map::empty()
    } else {
        fields_object(fields.drop_first()).insert(fields[0].head.key, fields[0].value.meaning())
    }
}

/// The section that a key of the request announces.
pub open spec fn section_of(key: Seq<u8>) -> Option<Section> {
    if key == "transaction".spec_bytes() {
        Some(Section::Transaction)
    } else if key == "customer".spec_bytes() {
        Some(Section::Customer)
    } else if key == "merchant".spec_bytes() {
        Some(Section::Merchant)
    } else if key == "terminal".spec_bytes() {
        Some(Section::Terminal)
    } else if key == "last_transaction".spec_bytes() {
        Some(Section::LastTransaction)
    } else {
        None
    }
}

impl Entry {
    /// Whether the member is written as it should be, with a value of its type.
    pub open spec fn wf(self) -> bool {
        &&& self.head.wf()
        &&& is_blank(self.behind)
        &&& if self.head.key == "id".spec_bytes() {
            self.value matches EntryText::Text(t) && without(t, QUOTE)
        } else {
            match section_of(self.head.key) {
                Some(section) => match self.value {
                    EntryText::Object(blank, fields) => is_blank(blank) && are_fields(
                        section,
                        fields,
                    ),
                    EntryText::Null => section == Section::LastTransaction,
                    _ => false,
                },
                None => self.value matches EntryText::Other(t) && is_other(t),
            }
        }
    }
}

impl EntryText {
    pub open spec fn meaning(self) -> EntryValue {
        match self {
            EntryText::Text(t) => EntryValue::Text(t),
            EntryText::Null => EntryValue::Null,
            EntryText::Object(_, fields) => EntryValue::Object(fields_object(fields)),
            EntryText::Other(_) => EntryValue::Other,
        }
    }
}

/// Whether members of the request are written as they should be, and no key occurs twice.
pub open spec fn are_entries(entries: Seq<Entry>) -> bool {
    &&& forall|k: int| 0 <= k < entries.len() ==> (#[trigger] entries[k]).wf()
    &&& forall|j: int, k: int|
        0 <= j < k < entries.len() ==> (#[trigger] entries[j]).head.key != (
        #[trigger] entries[k]).head.key
}

/// The object that the members of the request make up.
pub open spec fn entries_object(entries: Seq<Entry>) -> Map<Seq<u8>, EntryValue>
    decreases entries.len(),
{
    if entries.len() == 0 {
        Map::empty()
    } else {
        entries_object(entries.drop_first()).insert(
            entries[0].head.key,
            entries[0].value.meaning(),
        )
    }
}

impl Document {
    pub open spec fn wf(self) -> bool {
        is_blank(self.before) && is_blank(self.blank) && is_blank(self.behind) && are_entries(
            self.entries,
        )
    }

    /// The object that the text means.
    pub open spec fn object(self) -> Map<Seq<u8>, EntryValue> {
        entries_object(self.entries)
    }
}

/// The string of a member, or what stands for none.
pub open spec fn string_of(
    m: Map<Seq<u8>, FieldValue>,
    key: Seq<u8>,
    none: Seq<u8>,
) -> Seq<u8> {
    if m.contains_key(key) {
        match m[key] {
            FieldValue::Text(t) => t,
            _ => none,
        }
    } else {
        none
    }
}

/// The number of a member, or what stands for none.
pub open spec fn number_of(
    m: Map<Seq<u8>, FieldValue>,
    key: Seq<u8>,
    none: DecimalView,
) -> DecimalView {
    if m.contains_key(key) {
        match m[key] {
            FieldValue::Number(d) => d,
            _ => none,
        }
    } else {
        none
    }
}

/// The count in a member, or what stands for none.
pub open spec fn count_of(m: Map<Seq<u8>, FieldValue>, key: Seq<u8>, none: int) -> int {
    if m.contains_key(key) {
        match m[key] {
            FieldValue::Number(d) => bytes::decimal(d.whole),
            _ => none,
        }
    } else {
        none
    }
}

/// The truth value of a member, or what stands for none.
pub open spec fn truth_of(m: Map<Seq<u8>, FieldValue>, key: Seq<u8>, none: bool) -> bool {
    if m.contains_key(key) {
        match m[key] {
            FieldValue::Truth(b) => b,
            _ => none,
        }
    } else {
        none
    }
}

/// The strings of a member.
pub open spec fn names_of(m: Map<Seq<u8>, FieldValue>, key: Seq<u8>) -> Seq<Seq<u8>> {
    if m.contains_key(key) {
        match m[key] {
            FieldValue::Names(names) => names,
            _ => Seq::empty(),
        }
    } else {
        Seq::empty()
    }
}

/// As many strings as are kept.
pub open spec fn kept(names: Seq<Seq<u8>>) -> Seq<Seq<u8>> {
    if names.len() <= MAX_KNOWN_MERCHANTS {
        names
    } else {
        names.take(MAX_KNOWN_MERCHANTS as int)
    }
}

/// A transaction, with what the members of a section say of it.
#[verifier::opaque]
pub open spec fn filled(
    section: Section,
    tx: TransactionView,
    m: Map<Seq<u8>, FieldValue>,
) -> TransactionView {
    match section {
        Section::Transaction => TransactionView {
            amount: number_of(m, "amount".spec_bytes(), tx.amount),
            installments: (count_of(m, "installments".spec_bytes(), tx.installments as int)
                % 256) as u8,
            requested_at: string_of(m, "requested_at".spec_bytes(), tx.requested_at),
            ..tx
        },
        Section::Customer => TransactionView {
            customer_avg_amount: number_of(m, "avg_amount".spec_bytes(), tx.customer_avg_amount),
            customer_tx_count_24h: count_of(
                m,
                "tx_count_24h".spec_bytes(),
                tx.customer_tx_count_24h as int,
            ) as u32,
            customer_known_merchants: kept(
                tx.customer_known_merchants + names_of(m, "known_merchants".spec_bytes()),
            ),
            ..tx
        },
        Section::Merchant => TransactionView {
            merchant_id: string_of(m, "id".spec_bytes(), tx.merchant_id),
            merchant_mcc: if m.contains_key("mcc".spec_bytes()) {
                bytes::decimal(
                    json_lexer::digits_of(string_of(m, "mcc".spec_bytes(), Seq::empty())),
                ) as u16
            } else {
                tx.merchant_mcc
            },
            merchant_avg_amount: number_of(m, "avg_amount".spec_bytes(), tx.merchant_avg_amount),
            ..tx
        },
        Section::Terminal => TransactionView {
            is_online: truth_of(m, "is_online".spec_bytes(), tx.is_online),
            card_present: truth_of(m, "card_present".spec_bytes(), tx.card_present),
            km_from_home: number_of(m, "km_from_home".spec_bytes(), tx.km_from_home),
            ..tx
        },
        Section::LastTransaction => TransactionView {
            last_tx_timestamp: if m.contains_key("timestamp".spec_bytes()) {
                Some(string_of(m, "timestamp".spec_bytes(), Seq::empty()))
            } else {
                tx.last_tx_timestamp
            },
            last_tx_km: if m.contains_key("km_from_current".spec_bytes()) {
                Some(
                    number_of(m, "km_from_current".spec_bytes(), json_lexer::no_digits()),
                )
            } else {
                tx.last_tx_km
            },
            ..tx
        },
    }
}

/// The members of a section of the request; none without the section.
pub open spec fn part(m: Map<Seq<u8>, EntryValue>, key: Seq<u8>) -> Map<Seq<u8>, FieldValue> {
    if m.contains_key(key) {
        match m[key] {
            EntryValue::Object(fields) => fields,
            _ => Map::empty(),
        }
    } else {
        Map::empty()
    }
}

/// A transaction, with the name that the request gives it.
pub open spec fn named(tx: TransactionView, m: Map<Seq<u8>, EntryValue>) -> TransactionView {
    if m.contains_key("id".spec_bytes()) {
        match m["id".spec_bytes()] {
            EntryValue::Text(t) => TransactionView { id: t, ..tx },
            _ => tx,
        }
    } else {
        tx
    }
}

/// A transaction, with what a request says of it.
pub open spec fn completed(tx: TransactionView, m: Map<Seq<u8>, EntryValue>) -> TransactionView {
    let t0 = named(tx, m);
    let t1 = filled(Section::Transaction, t0, part(m, "transaction".spec_bytes()));
    let t2 = filled(Section::Customer, t1, part(m, "customer".spec_bytes()));
    let t3 = filled(Section::Merchant, t2, part(m, "merchant".spec_bytes()));
    let t4 = filled(Section::Terminal, t3, part(m, "terminal".spec_bytes()));
    filled(Section::LastTransaction, t4, part(m, "last_transaction".spec_bytes()))
}

/// The transaction that a request describes.
pub open spec fn transaction_of(m: Map<Seq<u8>, EntryValue>) -> TransactionView {
    completed(json_parser::blank(), m)
}

/// Whether a text stands at a position.
spec fn holds(s: Seq<u8>, i: int, t: Seq<u8>) -> bool {
    &&& 0 <= i
    &&& i + t.len() <= s.len()
    &&& forall|k: int| 0 <= k < t.len() ==> s[i + k] == #[trigger] t[k]
}

/// Whether a byte does not occur between two positions.
spec fn clear(s: Seq<u8>, i: int, j: int, b: u8) -> bool {
    forall|m: int| i <= m < j ==> #[trigger] s[m] != b
}

/// Whether there is only white space between two positions.
spec fn spaces(s: Seq<u8>, i: int, j: int) -> bool {
    forall|m: int| i <= m < j ==> bytes::is_space(#[trigger] s[m])
}

proof fn lemma_split(s: Seq<u8>, i: int, a: Seq<u8>, b: Seq<u8>)
    requires
        holds(s, i, a + b),
    ensures
        holds(s, i, a),
        holds(s, i + a.len(), b),
        (a + b).len() == a.len() + b.len(),
{
    assert forall|k: int| 0 <= k < a.len() implies s[i + k] == #[trigger] a[k] by {
        assert((a + b)[k] == a[k]);
    }
    assert forall|k: int| 0 <= k < b.len() implies s[i + a.len() + k] == #[trigger] b[k] by {
        assert((a + b)[a.len() + k] == b[k]);
    }
}

/// The parts of a text can be put together otherwise.
proof fn lemma_join(s: Seq<u8>, i: int, a: Seq<u8>, b: Seq<u8>)
    requires
        holds(s, i, a),
        holds(s, i + a.len(), b),
    ensures
        holds(s, i, a + b),
{
    assert forall|k: int| 0 <= k < (a + b).len() implies s[i + k] == #[trigger] (a + b)[k] by {
        if k < a.len() {
            assert((a + b)[k] == a[k]);
        } else {
            assert((a + b)[k] == b[k - a.len()]);
            assert(s[i + a.len() + (k - a.len())] == b[k - a.len()]);
        }
    }
}

proof fn lemma_clear(s: Seq<u8>, i: int, t: Seq<u8>, b: u8)
    requires
        holds(s, i, t),
        without(t, b),
    ensures
        clear(s, i, i + t.len(), b),
{
    assert forall|m: int| i <= m < i + t.len() implies #[trigger] s[m] != b by {
        assert(s[m] == t[m - i]);
    }
}

proof fn lemma_spaces(s: Seq<u8>, i: int, t: Seq<u8>)
    requires
        holds(s, i, t),
        is_blank(t),
    ensures
        spaces(s, i, i + t.len()),
{
    assert forall|m: int| i <= m < i + t.len() implies bytes::is_space(#[trigger] s[m]) by {
        assert(s[m] == t[m - i]);
    }
}

proof fn lemma_digits(s: Seq<u8>, i: int, t: Seq<u8>)
    requires
        holds(s, i, t),
        all_digits(t),
    ensures
        forall|m: int| i <= m < i + t.len() ==> bytes::is_digit(#[trigger] s[m]),
        s.subrange(i, i + t.len()) == t,
{
    assert forall|m: int| i <= m < i + t.len() implies bytes::is_digit(#[trigger] s[m]) by {
        assert(s[m] == t[m - i]);
    }
    assert(s.subrange(i, i + t.len()) =~= t);
}

/// A string between quotes is read from wherever no quote comes before it.
proof fn lemma_quoted(s: Seq<u8>, j: int, i: int, t: Seq<u8>)
    requires
        0 <= j <= i,
        holds(s, i, quoted(t)),
        without(t, QUOTE),
        clear(s, j, i, QUOTE),
    ensures
        quoted(t).len() == t.len() + 2,
        s[i] == QUOTE,
        bytes::scan(s, j, bytes::byte(QUOTE)) == i,
        bytes::scan(s, i + 1, bytes::byte(QUOTE)) == i + 1 + t.len(),
        s.subrange(i + 1, i + 1 + t.len()) == t,
        json_lexer::string_at(s, j) == (t, i + t.len() + 2),
{
    lemma_split(s, i, seq![QUOTE] + t, seq![QUOTE]);
    lemma_split(s, i, seq![QUOTE], t);
    assert(s[i] == seq![QUOTE][0]);
    assert(s[i + 1 + t.len()] == seq![QUOTE][0]);
    lemma_clear(s, i + 1, t, QUOTE);
    bytes::lemma_scan_is(s, j, bytes::byte(QUOTE), i);
    bytes::lemma_scan_is(s, i + 1, bytes::byte(QUOTE), i + 1 + t.len());
    assert(s.subrange(i + 1, i + 1 + t.len()) =~= t);
}

/// The key of a member is read from wherever neither a quote nor, in a section, a closing
/// brace comes before it.
proof fn lemma_head(s: Seq<u8>, j: int, i: int, h: Head)
    requires
        0 <= j <= i,
        holds(s, i, head_text(h)),
        h.wf(),
        clear(s, j, i, QUOTE),
        i + head_text(h).len() < s.len(),
        !bytes::is_space(s[i + head_text(h).len()]),
    ensures
        json_lexer::key_at(s, j) == (Some(h.key), i + head_text(h).len()),
        clear(s, j, i, CLOSE_BRACE) ==> json_lexer::member_at(s, j) == (
            Some(h.key),
            i + head_text(h).len(),
        ),
{
    let a = h.before + quoted(h.key);
    lemma_split(s, i, a + h.gap + seq![COLON], h.after);
    lemma_split(s, i, a + h.gap, seq![COLON]);
    lemma_split(s, i, a, h.gap);
    lemma_split(s, i, h.before, quoted(h.key));
    let open = i + h.before.len();
    lemma_spaces(s, i, h.before);
    lemma_spaces(s, i + a.len(), h.gap);
    let colon = i + a.len() + h.gap.len();
    assert(s[colon] == seq![COLON][0]);
    lemma_spaces(s, colon + 1, h.after);
    lemma_quoted(s, j, open, h.key);
    lemma_quoted(s, open, open, h.key);
    bytes::lemma_scan_is(s, i + a.len(), bytes::byte(COLON), colon);
    bytes::lemma_scan_is(s, colon + 1, bytes::non_space(), i + head_text(h).len());
    if clear(s, j, i, CLOSE_BRACE) {
        bytes::lemma_scan_is(s, j, bytes::either(QUOTE, CLOSE_BRACE), open);
    }
}

/// What follows a value and white space.
spec fn ends_value(s: Seq<u8>, i: int, e: int) -> bool {
    &&& 0 <= i <= e < s.len()
    &&& spaces(s, i, e)
    &&& s[e] == COMMA || s[e] == CLOSE_BRACE
}

/// A number is read, as a number and as a count.
proof fn lemma_number(s: Seq<u8>, i: int, n: Number, e: int)
    requires
        holds(s, i, number_text(n)),
        n.wf(),
        ends_value(s, i + number_text(n).len(), e),
    ensures
        number_text(n).len() > 0,
        !bytes::is_space(s[i]),
        json_lexer::decimal_at(s, i).0 == n.decimal(),
        i <= json_lexer::decimal_at(s, i).1 <= e,
        json_lexer::numeral_at(s, i).0 == bytes::decimal(n.whole),
        i <= json_lexer::numeral_at(s, i).1 <= e,
        clear(s, i, e, QUOTE),
        clear(s, i, e, CLOSE_BRACE),
{
    let sign = sign_text(n.negative);
    let point = fraction_text(n.fraction);
    lemma_split(s, i, sign + n.whole + point, n.exponent);
    lemma_split(s, i, sign + n.whole, point);
    lemma_split(s, i, sign, n.whole);
    let first = i + sign.len();
    let p = first + n.whole.len();
    let q = p + point.len();
    let end = q + n.exponent.len();
    lemma_digits(s, first, n.whole);
    if n.negative {
        assert(s[i] == sign[0]);
    }
    assert(s[first] == n.whole[0]);
    if n.fraction.len() > 0 {
        lemma_split(s, p, seq![DOT], n.fraction);
        lemma_digits(s, p + 1, n.fraction);
        assert(s[p] == seq![DOT][0]);
    }
    if n.exponent.len() > 0 {
        assert(s[q] == n.exponent[0]);
        assert forall|m: int| q <= m < end implies s[m] != QUOTE && s[m] != CLOSE_BRACE by {
            assert(s[m] == n.exponent[m - q]);
        }
    }
    assert(!bytes::is_digit(s[q]) && s[q] != DOT);
    bytes::lemma_scan_is(s, i, bytes::digit_or_minus(), i);
    bytes::lemma_scan_is(s, i, bytes::digit(), first);
    bytes::lemma_scan_is(s, first, bytes::non_digit(), p);
    if n.fraction.len() > 0 {
        bytes::lemma_scan_is(s, p + 1, bytes::non_digit(), q);
    }
    assert(n.fraction.len() == 0 ==> n.fraction =~= Seq::empty());
}

/// A truth value is read.
proof fn lemma_truth(s: Seq<u8>, i: int, b: bool, e: int)
    requires
        holds(s, i, truth_text(b)),
        ends_value(s, i + truth_text(b).len(), e),
    ensures
        !bytes::is_space(s[i]),
        json_lexer::bool_at(s, i) == (b, i + truth_text(b).len()),
{
    let t = truth_text(b);
    let end = i + t.len();
    assert forall|m: int| i <= m < end implies bytes::is_letter(#[trigger] s[m]) by {
        assert(s[m] == t[m - i]);
    }
    assert(s[i] == t[0]);
    bytes::lemma_scan_is(s, i, bytes::either(0x74, 0x66), i);
    bytes::lemma_scan_is(s, i, bytes::non_letter(), end);
}

proof fn lemma_level_between(t: Seq<u8>, open: u8, close: u8, n: int, k: int)
    requires
        0 <= n <= k <= t.len(),
        clear(t, n, k, open),
        clear(t, n, k, close),
    ensures
        level(t, open, close, k) == level(t, open, close, n),
    decreases k - n,
{
    if n < k {
        lemma_level_between(t, open, close, n, k - 1);
        assert(t[k - 1] != open && t[k - 1] != close);
    }
}

/// Behind an opening mark everything is passed over up to the mark that closes it.
proof fn lemma_closed(s: Seq<u8>, i: int, t: Seq<u8>, open: u8, close: u8, n: int)
    requires
        holds(s, i, t),
        open != close,
        encloses(t, open, close),
        0 < n <= t.len(),
    ensures
        json_lexer::closed_at(s, i + n, open, close, level(t, open, close, n) as nat) == i
            + t.len(),
    decreases t.len() - n,
{
    let depth = level(t, open, close, n);
    if n < t.len() {
        assert(depth > 0);
        let either = bytes::either(open, close);
        bytes::lemma_scan(t, n, either);
        let k = bytes::scan(t, n, either);
        lemma_level_between(t, open, close, n, k);
        assert(k < t.len());
        assert forall|m: int| i + n <= m < i + k implies !either(#[trigger] s[m]) by {
            assert(s[m] == t[m - i]);
        }
        assert(s[i + k] == t[k]);
        bytes::lemma_scan_is(s, i + n, either, i + k);
        assert(level(t, open, close, k + 1) == depth + (if t[k] == open {
            1int
        } else {
            -1int
        }));
        lemma_closed(s, i, t, open, close, k + 1);
    }
}

/// The value of a member that is not known is passed over.
proof fn lemma_other(s: Seq<u8>, i: int, t: Seq<u8>, e: int)
    requires
        holds(s, i, t),
        is_other(t),
        ends_value(s, i + t.len(), e),
    ensures
        t.len() > 0,
        !bytes::is_space(s[i]),
        i <= json_lexer::value_end(s, i) <= e,
        spaces(s, json_lexer::value_end(s, i), e),
{
    if exists|inner: Seq<u8>| t == #[trigger] quoted(inner) && without(inner, QUOTE) {
        let inner = choose|inner: Seq<u8>| t == #[trigger] quoted(inner) && without(inner, QUOTE);
        lemma_quoted(s, i, i, inner);
        bytes::lemma_scan_is(s, i, bytes::non_space(), i);
    } else {
        assert(s[i] == t[0]);
        bytes::lemma_scan_is(s, i, bytes::non_space(), i);
        if encloses(t, OPEN_BRACE, CLOSE_BRACE) {
            assert(level(t, OPEN_BRACE, CLOSE_BRACE, 1) == 1) by {
                reveal_with_fuel(level, 2);
            }
            lemma_closed(s, i, t, OPEN_BRACE, CLOSE_BRACE, 1);
        } else if encloses(t, OPEN_BRACKET, CLOSE_BRACKET) {
            assert(level(t, OPEN_BRACKET, CLOSE_BRACKET, 1) == 1) by {
                reveal_with_fuel(level, 2);
            }
            lemma_closed(s, i, t, OPEN_BRACKET, CLOSE_BRACKET, 1);
        } else {
            lemma_clear(s, i, t, COMMA);
            lemma_clear(s, i, t, CLOSE_BRACE);
            lemma_clear(s, i, t, CLOSE_BRACKET);
            lemma_clear(s, i, t, QUOTE);
            lemma_clear(s, i, t, OPEN_BRACE);
            lemma_clear(s, i, t, OPEN_BRACKET);
            bytes::lemma_scan_is(s, i, bytes::any_of(COMMA, CLOSE_BRACE, CLOSE_BRACKET), e);
        }
    }
}

/// The strings of an array are read.
proof fn lemma_names(s: Seq<u8>, j: int, i: int, names: Seq<Name>, known: Seq<Seq<u8>>)
    requires
        0 <= j <= i,
        holds(s, i, names_text(names) + seq![CLOSE_BRACKET]),
        clear(s, j, i, QUOTE),
        clear(s, j, i, CLOSE_BRACKET),
        forall|k: int| 0 <= k < names.len() ==> (#[trigger] names[k]).wf(),
        known.len() <= MAX_KNOWN_MERCHANTS,
    ensures
        json_parser::merchants_at(s, j, known) == (
            kept(known + names.map_values(|n: Name| n.name)),
            i + names_text(names).len() + 1,
        ),
    decreases names.len(),
{
    let all = names.map_values(|n: Name| n.name);
    lemma_split(s, i, names_text(names), seq![CLOSE_BRACKET]);
    if names.len() == 0 {
        assert(s[i] == seq![CLOSE_BRACKET][0]);
        bytes::lemma_scan_is(s, j, bytes::either(QUOTE, CLOSE_BRACKET), i);
        assert(kept(known + all) =~= known);
    } else {
        let n = names[0];
        let rest = names.drop_first();
        let front = n.before + quoted(n.name) + n.behind + comma_text(names.len());
        assert(n.wf());
        lemma_split(s, i, front, names_text(rest));
        lemma_split(s, i, n.before + quoted(n.name) + n.behind, comma_text(names.len()));
        lemma_split(s, i, n.before + quoted(n.name), n.behind);
        lemma_split(s, i, n.before, quoted(n.name));
        lemma_spaces(s, i, n.before);
        let open = i + n.before.len();
        lemma_quoted(s, j, open, n.name);
        lemma_quoted(s, open, open, n.name);
        bytes::lemma_scan_is(s, j, bytes::either(QUOTE, CLOSE_BRACKET), open);
        let next = open + n.name.len() + 2;
        lemma_spaces(s, next, n.behind);
        let at = i + front.len();
        if names.len() > 1 {
            assert(s[next + n.behind.len()] == comma_text(names.len())[0]);
        }
        lemma_join(s, at, names_text(rest), seq![CLOSE_BRACKET]);
        let more = if known.len() < MAX_KNOWN_MERCHANTS {
            known.push(n.name)
        } else {
            known
        };
        lemma_names(s, next, at, rest, more);
        assert(all.drop_first() =~= rest.map_values(|n: Name| n.name));
        assert(kept(more + all.drop_first()) =~= kept(known + all));
    }
}

/// The keys of the section are different.
proof fn lemma_transaction_keys()
    ensures
        "amount".spec_bytes() != "installments".spec_bytes(),
        "amount".spec_bytes() != "requested_at".spec_bytes(),
        "installments".spec_bytes() != "requested_at".spec_bytes(),
{
    reveal_strlit("amount");
    assert(is_ascii("amount"));
    reveal_strlit("installments");
    assert(is_ascii("installments"));
    reveal_strlit("requested_at");
    assert(is_ascii("requested_at"));
    assert("installments".spec_bytes()[0] != "requested_at".spec_bytes()[0]);
}

/// The keys of the section are different.
proof fn lemma_customer_keys()
    ensures
        "avg_amount".spec_bytes() != "tx_count_24h".spec_bytes(),
        "avg_amount".spec_bytes() != "known_merchants".spec_bytes(),
        "tx_count_24h".spec_bytes() != "known_merchants".spec_bytes(),
{
    reveal_strlit("avg_amount");
    assert(is_ascii("avg_amount"));
    reveal_strlit("tx_count_24h");
    assert(is_ascii("tx_count_24h"));
    reveal_strlit("known_merchants");
    assert(is_ascii("known_merchants"));
}

/// The keys of the section are different.
proof fn lemma_merchant_keys()
    ensures
        "id".spec_bytes() != "mcc".spec_bytes(),
        "id".spec_bytes() != "avg_amount".spec_bytes(),
        "mcc".spec_bytes() != "avg_amount".spec_bytes(),
{
    reveal_strlit("id");
    assert(is_ascii("id"));
    reveal_strlit("mcc");
    assert(is_ascii("mcc"));
    reveal_strlit("avg_amount");
    assert(is_ascii("avg_amount"));
}

/// The keys of the section are different.
proof fn lemma_terminal_keys()
    ensures
        "is_online".spec_bytes() != "card_present".spec_bytes(),
        "is_online".spec_bytes() != "km_from_home".spec_bytes(),
        "card_present".spec_bytes() != "km_from_home".spec_bytes(),
{
    reveal_strlit("is_online");
    assert(is_ascii("is_online"));
    reveal_strlit("card_present");
    assert(is_ascii("card_present"));
    reveal_strlit("km_from_home");
    assert(is_ascii("km_from_home"));
    assert("card_present".spec_bytes()[0] != "km_from_home".spec_bytes()[0]);
}

/// The keys of the section are different.
proof fn lemma_last_keys()
    ensures
        "timestamp".spec_bytes() != "km_from_current".spec_bytes(),
{
    reveal_strlit("timestamp");
    assert(is_ascii("timestamp"));
    reveal_strlit("km_from_current");
    assert(is_ascii("km_from_current"));
}

/// The keys of the request are different.
proof fn lemma_entry_keys()
    ensures
        "id".spec_bytes() != "transaction".spec_bytes(),
        "id".spec_bytes() != "customer".spec_bytes(),
        "id".spec_bytes() != "merchant".spec_bytes(),
        "id".spec_bytes() != "terminal".spec_bytes(),
        "id".spec_bytes() != "last_transaction".spec_bytes(),
        "transaction".spec_bytes() != "customer".spec_bytes(),
        "transaction".spec_bytes() != "merchant".spec_bytes(),
        "transaction".spec_bytes() != "terminal".spec_bytes(),
        "transaction".spec_bytes() != "last_transaction".spec_bytes(),
        "customer".spec_bytes() != "merchant".spec_bytes(),
        "customer".spec_bytes() != "terminal".spec_bytes(),
        "customer".spec_bytes() != "last_transaction".spec_bytes(),
        "merchant".spec_bytes() != "terminal".spec_bytes(),
        "merchant".spec_bytes() != "last_transaction".spec_bytes(),
        "terminal".spec_bytes() != "last_transaction".spec_bytes(),
{
    reveal_strlit("id");
    assert(is_ascii("id"));
    reveal_strlit("transaction");
    assert(is_ascii("transaction"));
    reveal_strlit("customer");
    assert(is_ascii("customer"));
    reveal_strlit("merchant");
    assert(is_ascii("merchant"));
    reveal_strlit("terminal");
    assert(is_ascii("terminal"));
    reveal_strlit("last_transaction");
    assert(is_ascii("last_transaction"));
    assert("customer".spec_bytes()[0] != "merchant".spec_bytes()[0]);
    assert("customer".spec_bytes()[0] != "terminal".spec_bytes()[0]);
    assert("merchant".spec_bytes()[0] != "terminal".spec_bytes()[0]);
}

/// A transaction, with what a single member of a section says of it.
spec fn with_field(
    section: Section,
    tx: TransactionView,
    key: Seq<u8>,
    v: FieldValue,
) -> TransactionView {
    filled(section, tx, Map::empty().insert(key, v))
}

/// The value of a member of a section is read; behind it there is nothing that could be taken
/// for the beginning of a key or the end of the section.
proof fn lemma_field(
    s: Seq<u8>,
    i: int,
    section: Section,
    key: Seq<u8>,
    v: FieldText,
    tx: TransactionView,
    e: int,
)
    requires
        holds(s, i, field_value_text(v)),
        v.wf(),
        fits_field(section, key, v.meaning()),
        ends_value(s, i + field_value_text(v).len(), e),
        tx.customer_known_merchants.len() <= MAX_KNOWN_MERCHANTS,
    ensures
        field_value_text(v).len() > 0,
        !bytes::is_space(s[i]),
        ({
            let step = json_parser::field_at(s, i, section, key, tx);
            step matches Step::At(next, j) && next == with_field(section, tx, key, v.meaning())
                && i <= j <= e && clear(s, j, e, QUOTE) && clear(s, j, e, CLOSE_BRACE)
        }),
{
    match v {
        FieldText::Text(t) => {
            lemma_quoted(s, i, i, t);
        },
        FieldText::Number(n) => {
            lemma_number(s, i, n, e);
        },
        FieldText::Truth(b) => {
            lemma_truth(s, i, b, e);
        },
        FieldText::Names(blank, names) => {
            let open = seq![OPEN_BRACKET];
            let close = seq![CLOSE_BRACKET];
            lemma_split(s, i, open + blank + names_text(names), close);
            lemma_split(s, i, open + blank, names_text(names));
            lemma_split(s, i, open, blank);
            assert(s[i] == open[0]);
            bytes::lemma_scan_is(s, i, bytes::byte(OPEN_BRACKET), i);
            lemma_spaces(s, i + 1, blank);
            let at = i + 1 + blank.len();
            lemma_join(s, at, names_text(names), close);
            lemma_names(s, i + 1, at, names, tx.customer_known_merchants);
        },
        FieldText::Other(t) => {
            lemma_other(s, i, t, e);
        },
    }
    lemma_with_field(s, i, section, key, v, tx);
}

/// What a single member says of a transaction is what is read of it.
proof fn lemma_with_field(
    s: Seq<u8>,
    i: int,
    section: Section,
    key: Seq<u8>,
    v: FieldText,
    tx: TransactionView,
)
    requires
        fits_field(section, key, v.meaning()),
        tx.customer_known_merchants.len() <= MAX_KNOWN_MERCHANTS,
        v matches FieldText::Text(t) ==> json_lexer::string_at(s, i).0 == t,
        v matches FieldText::Number(n) ==> json_lexer::decimal_at(s, i).0 == n.decimal()
            && json_lexer::numeral_at(s, i).0 == bytes::decimal(n.whole),
        v matches FieldText::Truth(b) ==> json_lexer::bool_at(s, i).0 == b,
        v matches FieldText::Names(_, names) ==> ({
            let bracket = bytes::scan(s, i, bytes::byte(OPEN_BRACKET));
            bracket < s.len() && json_parser::merchants_at(
                s,
                bracket + 1,
                tx.customer_known_merchants,
            ).0 == kept(tx.customer_known_merchants + names.map_values(|n: Name| n.name))
        }),
    ensures
        json_parser::field_at(s, i, section, key, tx) matches Step::At(next, j) && next
            == with_field(section, tx, key, v.meaning()),
{
    reveal(filled);
    assert(kept(tx.customer_known_merchants + Seq::empty()) =~= tx.customer_known_merchants);
    match section {
        Section::Transaction => lemma_transaction_keys(),
        Section::Customer => lemma_customer_keys(),
        Section::Merchant => lemma_merchant_keys(),
        Section::Terminal => lemma_terminal_keys(),
        Section::LastTransaction => lemma_last_keys(),
    }
}

/// Members that are read one after the other say what the object of both says.
proof fn lemma_filled(
    section: Section,
    tx: TransactionView,
    key: Seq<u8>,
    v: FieldValue,
    m: Map<Seq<u8>, FieldValue>,
)
    requires
        !m.contains_key(key),
        fits_field(section, key, v),
        tx.customer_known_merchants.len() <= MAX_KNOWN_MERCHANTS,
    ensures
        filled(section, with_field(section, tx, key, v), m) == filled(
            section,
            tx,
            m.insert(key, v),
        ),
        with_field(section, tx, key, v).customer_known_merchants.len() <= MAX_KNOWN_MERCHANTS,
{
    reveal(filled);
    let known = tx.customer_known_merchants;
    assert(kept(known + Seq::empty()) =~= known);
    if let FieldValue::Names(names) = v {
        assert(kept(kept(known + names) + Seq::empty()) =~= kept(known + names));
    }
    match section {
        Section::Transaction => lemma_transaction_keys(),
        Section::Customer => lemma_customer_keys(),
        Section::Merchant => lemma_merchant_keys(),
        Section::Terminal => lemma_terminal_keys(),
        Section::LastTransaction => lemma_last_keys(),
    }
}

/// A key that no member has is not in their object.
proof fn lemma_no_field(fields: Seq<Field>, key: Seq<u8>)
    requires
        forall|k: int| 0 <= k < fields.len() ==> (#[trigger] fields[k]).head.key != key,
    ensures
        !fields_object(fields).contains_key(key),
    decreases fields.len(),
{
    if fields.len() > 0 {
        assert(fields[0].head.key != key);
        let rest = fields.drop_first();
        assert forall|k: int| 0 <= k < rest.len() implies (#[trigger] rest[k]).head.key
            != key by {
            assert(rest[k] == fields[k + 1]);
        }
        lemma_no_field(rest, key);
    }
}

/// The parts of the first of `n` members, and what comes behind it.
proof fn lemma_member(
    s: Seq<u8>,
    i: int,
    h: Head,
    value: Seq<u8>,
    behind: Seq<u8>,
    n: nat,
    rest: Seq<u8>,
)
    requires
        holds(s, i, head_text(h) + value + behind + comma_text(n) + rest + seq![CLOSE_BRACE]),
        is_blank(behind),
        n > 0,
        n == 1 ==> rest.len() == 0,
    ensures
        ({
            let v = i + head_text(h).len();
            let e = v + value.len() + behind.len();
            let at = e + comma_text(n).len();
            let all = head_text(h) + value + behind + comma_text(n) + rest;
            &&& holds(s, i, head_text(h))
            &&& holds(s, v, value)
            &&& ends_value(s, v + value.len(), e)
            &&& clear(s, e, at, QUOTE)
            &&& clear(s, e, at, CLOSE_BRACE)
            &&& holds(s, at, rest + seq![CLOSE_BRACE])
            &&& at + rest.len() == i + all.len()
        }),
{
    let close = seq![CLOSE_BRACE];
    let head = head_text(h);
    let comma = comma_text(n);
    lemma_split(s, i, head + value + behind + comma + rest, close);
    lemma_split(s, i, head + value + behind + comma, rest);
    lemma_split(s, i, head + value + behind, comma);
    lemma_split(s, i, head + value, behind);
    lemma_split(s, i, head, value);
    let e = i + head.len() + value.len() + behind.len();
    lemma_spaces(s, i + head.len() + value.len(), behind);
    if n > 1 {
        assert(s[e] == comma[0]);
    } else {
        assert(s[e] == close[0]);
    }
    lemma_join(s, e + comma.len(), rest, close);
}

/// The members of a section are read, in whatever order they come.
proof fn lemma_fields(
    s: Seq<u8>,
    j: int,
    i: int,
    section: Section,
    fields: Seq<Field>,
    tx: TransactionView,
)
    requires
        0 <= j <= i,
        holds(s, i, fields_text(fields) + seq![CLOSE_BRACE]),
        clear(s, j, i, QUOTE),
        clear(s, j, i, CLOSE_BRACE),
        are_fields(section, fields),
        tx.customer_known_merchants.len() <= MAX_KNOWN_MERCHANTS,
    ensures
        json_parser::members_at(s, j, section, tx) == Step::At(
            filled(section, tx, fields_object(fields)),
            i + fields_text(fields).len() + 1,
        ),
    decreases fields.len(),
{
    if fields.len() == 0 {
        lemma_split(s, i, fields_text(fields), seq![CLOSE_BRACE]);
        assert(s[i] == seq![CLOSE_BRACE][0]);
        bytes::lemma_scan_is(s, j, bytes::either(QUOTE, CLOSE_BRACE), i);
        lemma_nothing_filled(section, tx);
    } else {
        let f = fields[0];
        let rest = fields.drop_first();
        let value = field_value_text(f.value);
        lemma_member(s, i, f.head, value, f.behind, fields.len(), fields_text(rest));
        let v = i + head_text(f.head).len();
        let e = v + value.len() + f.behind.len();
        lemma_field(s, v, section, f.head.key, f.value, tx, e);
        lemma_head(s, j, i, f.head);
        assert(are_fields(section, rest)) by {
            assert forall|k: int| 0 <= k < rest.len() implies #[trigger] rest[k] == fields[k
                + 1] by {}
        }
        assert forall|k: int| 0 <= k < rest.len() implies (#[trigger] rest[k]).head.key
            != f.head.key by {
            assert(rest[k] == fields[k + 1]);
        }
        lemma_no_field(rest, f.head.key);
        lemma_filled(section, tx, f.head.key, f.value.meaning(), fields_object(rest));
        if let Step::At(next, k) = json_parser::field_at(s, v, section, f.head.key, tx) {
            lemma_fields(s, k, e + comma_text(fields.len()).len(), section, rest, next);
        }
    }
}

/// A transaction, with what a single member of the request says of it.
spec fn with_entry(tx: TransactionView, key: Seq<u8>, v: EntryValue) -> TransactionView {
    if key == "id".spec_bytes() {
        match v {
            EntryValue::Text(t) => TransactionView { id: t, ..tx },
            _ => tx,
        }
    } else {
        match (section_of(key), v) {
            (Some(section), EntryValue::Object(fields)) => filled(section, tx, fields),
            _ => tx,
        }
    }
}

/// Whether the latest `last_transaction` is an object.
spec fn last_after(last: bool, m: Map<Seq<u8>, EntryValue>) -> bool {
    if m.contains_key("last_transaction".spec_bytes()) {
        m["last_transaction".spec_bytes()] is Object
    } else {
        last
    }
}

/// What is kept of a transaction in the end.
spec fn settled(tx: TransactionView, last: bool) -> TransactionView {
    if last {
        tx
    } else {
        TransactionView { last_tx_timestamp: None, last_tx_km: None, ..tx }
    }
}

/// Without members a section says nothing.
proof fn lemma_nothing_filled(section: Section, tx: TransactionView)
    requires
        tx.customer_known_merchants.len() <= MAX_KNOWN_MERCHANTS,
    ensures
        filled(section, tx, Map::empty()) == tx,
{
    reveal(filled);
    assert(kept(tx.customer_known_merchants + Seq::empty()) =~= tx.customer_known_merchants);
}

/// Different sections speak of different things.
proof fn lemma_filled_twice(
    a: Section,
    b: Section,
    tx: TransactionView,
    m: Map<Seq<u8>, FieldValue>,
    n: Map<Seq<u8>, FieldValue>,
)
    requires
        a != b,
    ensures
        filled(a, filled(b, tx, n), m) == filled(b, filled(a, tx, m), n),
{
    reveal(filled);
}

/// No section speaks of the name, and no more known merchants are kept than before or than
/// there is room for.
proof fn lemma_filled_keeps(
    section: Section,
    tx: TransactionView,
    m: Map<Seq<u8>, FieldValue>,
    n: Map<Seq<u8>, EntryValue>,
)
    requires
        tx.customer_known_merchants.len() <= MAX_KNOWN_MERCHANTS,
    ensures
        named(filled(section, tx, m), n) == filled(section, named(tx, n), m),
        filled(section, tx, m).customer_known_merchants.len() <= MAX_KNOWN_MERCHANTS,
{
    reveal(filled);
}

/// What a section says can be read before everything else that a request says.
proof fn lemma_section_completed(
    tx: TransactionView,
    key: Seq<u8>,
    section: Section,
    fields: Map<Seq<u8>, FieldValue>,
    m: Map<Seq<u8>, EntryValue>,
)
    requires
        !m.contains_key(key),
        section_of(key) == Some(section),
        tx.customer_known_merchants.len() <= MAX_KNOWN_MERCHANTS,
    ensures
        completed(filled(section, tx, fields), m) == completed(
            tx,
            m.insert(key, EntryValue::Object(fields)),
        ),
{
    let p1 = part(m, "transaction".spec_bytes());
    let p2 = part(m, "customer".spec_bytes());
    let p3 = part(m, "merchant".spec_bytes());
    let p4 = part(m, "terminal".spec_bytes());
    let p5 = part(m, "last_transaction".spec_bytes());
    lemma_entry_keys();
    let t0 = named(tx, m);
    let t1 = filled(Section::Transaction, t0, p1);
    let t2 = filled(Section::Customer, t1, p2);
    let t3 = filled(Section::Merchant, t2, p3);
    let t4 = filled(Section::Terminal, t3, p4);
    lemma_filled_keeps(section, tx, fields, m);
    lemma_filled_keeps(Section::Transaction, t0, p1, m);
    lemma_filled_keeps(Section::Customer, t1, p2, m);
    lemma_filled_keeps(Section::Merchant, t2, p3, m);
    lemma_filled_keeps(Section::Terminal, t3, p4, m);
    lemma_filled_keeps(section, t0, fields, m);
    lemma_filled_keeps(section, t1, fields, m);
    lemma_filled_keeps(section, t2, fields, m);
    lemma_filled_keeps(section, t3, fields, m);
    lemma_filled_keeps(section, t4, fields, m);
    if section == Section::Transaction {
        lemma_nothing_filled(section, filled(section, t0, fields));
    } else {
        lemma_filled_twice(Section::Transaction, section, t0, p1, fields);
        if section == Section::Customer {
            lemma_nothing_filled(section, filled(section, t1, fields));
            lemma_nothing_filled(section, t1);
        } else {
            lemma_filled_twice(Section::Customer, section, t1, p2, fields);
            if section == Section::Merchant {
                lemma_nothing_filled(section, filled(section, t2, fields));
                lemma_nothing_filled(section, t2);
            } else {
                lemma_filled_twice(Section::Merchant, section, t2, p3, fields);
                if section == Section::Terminal {
                    lemma_nothing_filled(section, filled(section, t3, fields));
                    lemma_nothing_filled(section, t3);
                } else {
                    lemma_filled_twice(Section::Terminal, section, t3, p4, fields);
                    lemma_nothing_filled(section, filled(section, t4, fields));
                    lemma_nothing_filled(section, t4);
                }
            }
        }
    }
}

/// Members that are read one after the other say what the object of both says.
proof fn lemma_completed(
    tx: TransactionView,
    key: Seq<u8>,
    v: EntryValue,
    m: Map<Seq<u8>, EntryValue>,
)
    requires
        !m.contains_key(key),
        tx.customer_known_merchants.len() <= MAX_KNOWN_MERCHANTS,
    ensures
        completed(with_entry(tx, key, v), m) == completed(tx, m.insert(key, v)),
        with_entry(tx, key, v).customer_known_merchants.len() <= MAX_KNOWN_MERCHANTS,
{
    let more = m.insert(key, v);
    lemma_entry_keys();
    match (section_of(key), v) {
        (Some(section), EntryValue::Object(fields)) => {
            lemma_section_completed(tx, key, section, fields, m);
            lemma_filled_keeps(section, tx, fields, m);
        },
        _ => {
            assert(part(more, "transaction".spec_bytes()) == part(
                m,
                "transaction".spec_bytes(),
            ));
            assert(part(more, "customer".spec_bytes()) == part(m, "customer".spec_bytes()));
            assert(part(more, "merchant".spec_bytes()) == part(m, "merchant".spec_bytes()));
            assert(part(more, "terminal".spec_bytes()) == part(m, "terminal".spec_bytes()));
            assert(part(more, "last_transaction".spec_bytes()) == part(
                m,
                "last_transaction".spec_bytes(),
            ));
        },
    }
}

/// The value of a member of the request is read; behind it there is nothing that could be
/// taken for the beginning of a key.
proof fn lemma_entry(
    s: Seq<u8>,
    i: int,
    entry: Entry,
    tx: TransactionView,
    last: bool,
    e: int,
)
    requires
        holds(s, i, entry_value_text(entry.value)),
        entry.wf(),
        ends_value(s, i + entry_value_text(entry.value).len(), e),
        tx.customer_known_merchants.len() <= MAX_KNOWN_MERCHANTS,
    ensures
        entry_value_text(entry.value).len() > 0,
        !bytes::is_space(s[i]),
        ({
            let key = entry.head.key;
            let v = entry.value.meaning();
            let r = json_parser::entry_at(s, i, key, tx, last);
            r.0 matches Step::At(next, j) && next == with_entry(tx, key, v) && r.1 == last_after(
                last,
                Map::empty().insert(key, v),
            ) && i <= j <= e && clear(s, j, e, QUOTE)
        }),
{
    lemma_entry_keys();
    match entry.value {
        EntryText::Text(t) => {
            lemma_quoted(s, i, i, t);
        },
        EntryText::Null => {
            reveal_strlit("null");
            assert(is_ascii("null"));
            let null = "null".spec_bytes();
            assert(s[i] == null[0]);
            bytes::lemma_scan_is(s, i, bytes::non_space(), i);
            assert(s.subrange(i, i + 4) =~= null);
        },
        EntryText::Object(blank, fields) => {
            let open = seq![OPEN_BRACE];
            let close = seq![CLOSE_BRACE];
            lemma_split(s, i, open + blank + fields_text(fields), close);
            lemma_split(s, i, open + blank, fields_text(fields));
            lemma_split(s, i, open, blank);
            assert(s[i] == open[0]);
            bytes::lemma_scan_is(s, i, bytes::byte(OPEN_BRACE), i);
            bytes::lemma_scan_is(s, i, bytes::non_space(), i);
            lemma_spaces(s, i + 1, blank);
            let at = i + 1 + blank.len();
            lemma_join(s, at, fields_text(fields), close);
            if let Some(section) = section_of(entry.head.key) {
                lemma_fields(s, i + 1, at, section, fields, tx);
            }
            assert(!json_parser::null_at(s, i)) by {
                reveal_strlit("null");
                assert(is_ascii("null"));
                if json_parser::null_at(s, i) {
                    assert(s.subrange(i, i + 4)[0] == "null".spec_bytes()[0]);
                }
            }
        },
        EntryText::Other(t) => {
            lemma_other(s, i, t, e);
        },
    }
}

/// A key that no member has is not in their object.
proof fn lemma_no_entry(entries: Seq<Entry>, key: Seq<u8>)
    requires
        forall|k: int| 0 <= k < entries.len() ==> (#[trigger] entries[k]).head.key != key,
    ensures
        !entries_object(entries).contains_key(key),
    decreases entries.len(),
{
    if entries.len() > 0 {
        assert(entries[0].head.key != key);
        let rest = entries.drop_first();
        assert forall|k: int| 0 <= k < rest.len() implies (#[trigger] rest[k]).head.key
            != key by {
            assert(rest[k] == entries[k + 1]);
        }
        lemma_no_entry(rest, key);
    }
}

/// The members of the request are read, in whatever order they come.
proof fn lemma_entries(
    s: Seq<u8>,
    j: int,
    i: int,
    entries: Seq<Entry>,
    tx: TransactionView,
    last: bool,
)
    requires
        0 <= j <= i,
        holds(s, i, entries_text(entries) + seq![CLOSE_BRACE]),
        clear(s, j, i, QUOTE),
        clear(s, i + entries_text(entries).len(), s.len() as int, QUOTE),
        are_entries(entries),
        tx.customer_known_merchants.len() <= MAX_KNOWN_MERCHANTS,
    ensures
        json_parser::entries_at(s, j, tx, last) == Ok::<TransactionView, Stop>(
            settled(
                completed(tx, entries_object(entries)),
                last_after(last, entries_object(entries)),
            ),
        ),
    decreases entries.len(),
{
    if entries.len() == 0 {
        bytes::lemma_scan_is(s, j, bytes::byte(QUOTE), s.len() as int);
        lemma_nothing_filled(Section::Transaction, tx);
        lemma_nothing_filled(Section::Customer, tx);
        lemma_nothing_filled(Section::Merchant, tx);
        lemma_nothing_filled(Section::Terminal, tx);
        lemma_nothing_filled(Section::LastTransaction, tx);
    } else {
        let entry = entries[0];
        let rest = entries.drop_first();
        let value = entry_value_text(entry.value);
        lemma_member(s, i, entry.head, value, entry.behind, entries.len(), entries_text(rest));
        let v = i + head_text(entry.head).len();
        let e = v + value.len() + entry.behind.len();
        lemma_entry(s, v, entry, tx, last, e);
        lemma_head(s, j, i, entry.head);
        assert(are_entries(rest)) by {
            assert forall|k: int| 0 <= k < rest.len() implies #[trigger] rest[k] == entries[k
                + 1] by {}
        }
        assert forall|k: int| 0 <= k < rest.len() implies (#[trigger] rest[k]).head.key
            != entry.head.key by {
            assert(rest[k] == entries[k + 1]);
        }
        lemma_no_entry(rest, entry.head.key);
        lemma_completed(tx, entry.head.key, entry.value.meaning(), entries_object(rest));
        let r = json_parser::entry_at(s, v, entry.head.key, tx, last);
        if let Step::At(next, k) = r.0 {
            lemma_entries(s, k, e + comma_text(entries.len()).len(), rest, next, r.1);
        }
    }
}

/// Only the section of the last transaction speaks of it.
proof fn lemma_last_kept(section: Section, tx: TransactionView, m: Map<Seq<u8>, FieldValue>)
    requires
        section != Section::LastTransaction,
        tx.customer_known_merchants.len() <= MAX_KNOWN_MERCHANTS,
    ensures
        filled(section, tx, m).last_tx_timestamp == tx.last_tx_timestamp,
        filled(section, tx, m).last_tx_km == tx.last_tx_km,
        filled(section, tx, m).customer_known_merchants.len() <= MAX_KNOWN_MERCHANTS,
{
    reveal(filled);
}

/// Without the section of the last transaction nothing is said of it.
proof fn lemma_settled(m: Map<Seq<u8>, EntryValue>)
    ensures
        settled(transaction_of(m), last_after(false, m)) == transaction_of(m),
{
    let t0 = named(json_parser::blank(), m);
    let p1 = part(m, "transaction".spec_bytes());
    let p2 = part(m, "customer".spec_bytes());
    let p3 = part(m, "merchant".spec_bytes());
    let p4 = part(m, "terminal".spec_bytes());
    let t1 = filled(Section::Transaction, t0, p1);
    let t2 = filled(Section::Customer, t1, p2);
    let t3 = filled(Section::Merchant, t2, p3);
    let t4 = filled(Section::Terminal, t3, p4);
    lemma_last_kept(Section::Transaction, t0, p1);
    lemma_last_kept(Section::Customer, t1, p2);
    lemma_last_kept(Section::Merchant, t2, p3);
    lemma_last_kept(Section::Terminal, t3, p4);
    lemma_nothing_filled(Section::LastTransaction, t4);
}

/// A text of a request is read as the object that it means: neither the order of the members
/// nor white space between them matters.
pub proof fn a_request_is_read(d: Document)
    requires
        d.wf(),
    ensures
        json_parser::payload(text(d)) == Ok::<TransactionView, Stop>(transaction_of(d.object())),
{
    let s = text(d);
    let open = seq![OPEN_BRACE];
    let close = seq![CLOSE_BRACE];
    let entries = entries_text(d.entries);
    assert(holds(s, 0, s));
    lemma_split(s, 0, d.before + open + d.blank + entries + close, d.behind);
    lemma_split(s, 0, d.before + open + d.blank + entries, close);
    lemma_split(s, 0, d.before + open + d.blank, entries);
    lemma_split(s, 0, d.before + open, d.blank);
    lemma_split(s, 0, d.before, open);
    let brace = d.before.len() as int;
    let at = brace + 1 + d.blank.len();
    lemma_spaces(s, 0, d.before);
    assert(s[brace] == open[0]);
    lemma_spaces(s, brace + 1, d.blank);
    assert(s[at + entries.len()] == close[0]);
    lemma_spaces(s, at + entries.len() + 1, d.behind);
    lemma_join(s, at, entries, close);
    lemma_entries(s, 0, at, d.entries, json_parser::blank(), false);
    lemma_settled(d.object());
}

/// Two texts of one request are read as the same transaction.
pub proof fn texts_of_one_request_agree(a: Document, b: Document)
    requires
        a.wf(),
        b.wf(),
        a.object() == b.object(),
    ensures
        json_parser::payload(text(a)) == json_parser::payload(text(b)),
        json_parser::payload(text(a)) is Ok,
{
    a_request_is_read(a);
    a_request_is_read(b);
}

proof fn lemma_field_in(fields: Seq<Field>, k: int)
    requires
        0 <= k < fields.len(),
        forall|a: int, b: int|
            0 <= a < b < fields.len() ==> (#[trigger] fields[a]).head.key != (
            #[trigger] fields[b]).head.key,
    ensures
        fields_object(fields).contains_key(fields[k].head.key),
        fields_object(fields)[fields[k].head.key] == fields[k].value.meaning(),
    decreases fields.len(),
{
    if k > 0 {
        let rest = fields.drop_first();
        assert forall|a: int| 0 <= a < rest.len() implies #[trigger] rest[a] == fields[a
            + 1] by {}
        lemma_field_in(rest, k - 1);
        assert(fields[0].head.key != fields[k].head.key);
    }
}

/// A member of one object is a member of the other one.
proof fn lemma_field_shared(a: Seq<Field>, b: Seq<Field>, key: Seq<u8>)
    requires
        fields_object(a).contains_key(key),
        forall|j: int, k: int|
            0 <= j < k < a.len() ==> (#[trigger] a[j]).head.key != (#[trigger] a[k]).head.key,
        forall|j: int, k: int|
            0 <= j < k < b.len() ==> (#[trigger] b[j]).head.key != (#[trigger] b[k]).head.key,
        forall|m: Field| a.contains(m) ==> b.contains(m),
    ensures
        fields_object(b).contains_key(key),
        fields_object(b)[key] == fields_object(a)[key],
{
    if forall|k: int| 0 <= k < a.len() ==> (#[trigger] a[k]).head.key != key {
        lemma_no_field(a, key);
    }
    let k = choose|k: int| 0 <= k < a.len() && (#[trigger] a[k]).head.key == key;
    lemma_field_in(a, k);
    assert(a.contains(a[k]));
    let j = choose|j: int| 0 <= j < b.len() && b[j] == a[k];
    lemma_field_in(b, j);
}

/// Members of a section make up the same object in whatever order they come.
pub proof fn fields_have_no_order(section: Section, a: Seq<Field>, b: Seq<Field>)
    requires
        are_fields(section, a),
        are_fields(section, b),
        forall|m: Field| a.contains(m) <==> b.contains(m),
    ensures
        fields_object(a) == fields_object(b),
{
    let x = fields_object(a);
    let y = fields_object(b);
    assert forall|key: Seq<u8>| #[trigger] x.dom().contains(key) implies y.dom().contains(key)
        && x[key] == y[key] by {
        lemma_field_shared(a, b, key);
    }
    assert forall|key: Seq<u8>| #[trigger] y.dom().contains(key) implies x.dom().contains(
        key,
    ) by {
        lemma_field_shared(b, a, key);
    }
    assert(x.dom() =~= y.dom());
    assert(x =~= y);
}

proof fn lemma_entry_in(entries: Seq<Entry>, k: int)
    requires
        0 <= k < entries.len(),
        forall|a: int, b: int|
            0 <= a < b < entries.len() ==> (#[trigger] entries[a]).head.key != (
            #[trigger] entries[b]).head.key,
    ensures
        entries_object(entries).contains_key(entries[k].head.key),
        entries_object(entries)[entries[k].head.key] == entries[k].value.meaning(),
    decreases entries.len(),
{
    if k > 0 {
        let rest = entries.drop_first();
        assert forall|a: int| 0 <= a < rest.len() implies #[trigger] rest[a] == entries[a
            + 1] by {}
        lemma_entry_in(rest, k - 1);
        assert(entries[0].head.key != entries[k].head.key);
    }
}

/// A member of one object is a member of the other one.
proof fn lemma_entry_shared(a: Seq<Entry>, b: Seq<Entry>, key: Seq<u8>)
    requires
        entries_object(a).contains_key(key),
        forall|j: int, k: int|
            0 <= j < k < a.len() ==> (#[trigger] a[j]).head.key != (#[trigger] a[k]).head.key,
        forall|j: int, k: int|
            0 <= j < k < b.len() ==> (#[trigger] b[j]).head.key != (#[trigger] b[k]).head.key,
        forall|m: Entry| a.contains(m) ==> b.contains(m),
    ensures
        entries_object(b).contains_key(key),
        entries_object(b)[key] == entries_object(a)[key],
{
    if forall|k: int| 0 <= k < a.len() ==> (#[trigger] a[k]).head.key != key {
        lemma_no_entry(a, key);
    }
    let k = choose|k: int| 0 <= k < a.len() && (#[trigger] a[k]).head.key == key;
    lemma_entry_in(a, k);
    assert(a.contains(a[k]));
    let j = choose|j: int| 0 <= j < b.len() && b[j] == a[k];
    lemma_entry_in(b, j);
}

/// Members of the request make up the same object in whatever order they come.
pub proof fn entries_have_no_order(a: Seq<Entry>, b: Seq<Entry>)
    requires
        are_entries(a),
        are_entries(b),
        forall|m: Entry| a.contains(m) <==> b.contains(m),
    ensures
        entries_object(a) == entries_object(b),
{
    let x = entries_object(a);
    let y = entries_object(b);
    assert forall|key: Seq<u8>| #[trigger] x.dom().contains(key) implies y.dom().contains(key)
        && x[key] == y[key] by {
        lemma_entry_shared(a, b, key);
    }
    assert forall|key: Seq<u8>| #[trigger] y.dom().contains(key) implies x.dom().contains(
        key,
    ) by {
        lemma_entry_shared(b, a, key);
    }
    assert(x.dom() =~= y.dom());
    assert(x =~= y);
}

/// Each section is filled by its own members, and a section of its own name.
proof fn lemma_fields_of(m: Map<Seq<u8>, EntryValue>)
    ensures
        ({
            let tx = transaction_of(m);
            let p1 = part(m, "transaction".spec_bytes());
            let p2 = part(m, "customer".spec_bytes());
            let p3 = part(m, "merchant".spec_bytes());
            let p4 = part(m, "terminal".spec_bytes());
            let p5 = part(m, "last_transaction".spec_bytes());
            let none = json_lexer::no_digits();
            &&& tx.id == named(json_parser::blank(), m).id
            &&& tx.amount == number_of(p1, "amount".spec_bytes(), none)
            &&& tx.installments == count_of(p1, "installments".spec_bytes(), 0) % 256
            &&& tx.requested_at == string_of(p1, "requested_at".spec_bytes(), Seq::empty())
            &&& tx.customer_avg_amount == number_of(p2, "avg_amount".spec_bytes(), none)
            &&& tx.customer_tx_count_24h == count_of(p2, "tx_count_24h".spec_bytes(), 0) as u32
            &&& tx.customer_known_merchants == kept(
                names_of(p2, "known_merchants".spec_bytes()),
            )
            &&& tx.merchant_id == string_of(p3, "id".spec_bytes(), Seq::empty())
            &&& tx.merchant_mcc == if p3.contains_key("mcc".spec_bytes()) {
                bytes::decimal(
                    json_lexer::digits_of(string_of(p3, "mcc".spec_bytes(), Seq::empty())),
                ) as u16
            } else {
                0
            }
            &&& tx.merchant_avg_amount == number_of(p3, "avg_amount".spec_bytes(), none)
            &&& tx.is_online == truth_of(p4, "is_online".spec_bytes(), false)
            &&& tx.card_present == truth_of(p4, "card_present".spec_bytes(), false)
            &&& tx.km_from_home == number_of(p4, "km_from_home".spec_bytes(), none)
            &&& tx.last_tx_timestamp == if p5.contains_key("timestamp".spec_bytes()) {
                Some(string_of(p5, "timestamp".spec_bytes(), Seq::empty()))
            } else {
                None
            }
            &&& tx.last_tx_km == if p5.contains_key("km_from_current".spec_bytes()) {
                Some(number_of(p5, "km_from_current".spec_bytes(), none))
            } else {
                None
            }
        }),
{
    reveal(filled);
    let p2 = part(m, "customer".spec_bytes());
    let names = names_of(p2, "known_merchants".spec_bytes());
    assert(Seq::<Seq<u8>>::empty() + names =~= names);
}

/// All digits of a string of digits are its digits.
proof fn lemma_only_digits(t: Seq<u8>)
    requires
        all_digits(t),
    ensures
        json_lexer::digits_of(t) == t,
    decreases t.len(),
{
    reveal(Seq::filter);
    if t.len() > 0 {
        lemma_only_digits(t.drop_last());
        assert(t.drop_last().push(t.last()) =~= t);
        assert(bytes::digit()(t[t.len() - 1]));
    }
}

/// Whether a number has the sign and the digits that are written.
pub open spec fn is_digits_of(d: DecimalView, v: FieldText) -> bool {
    v is Number && d.negative == v->Number_0.negative && d.whole == v->Number_0.whole && d.fraction
        == v->Number_0.fraction
}

/// What stands in a section of a request is what its object says under that name.
proof fn lemma_written(d: Document, e: int, f: int, section: Section)
    requires
        d.wf(),
        0 <= e < d.entries.len(),
        section_of(d.entries[e].head.key) == Some(section),
        d.entries[e].head.key != "id".spec_bytes(),
        d.entries[e].value is Object,
        0 <= f < d.entries[e].value->Object_1.len(),
    ensures
        ({
            let field = d.entries[e].value->Object_1[f];
            let m = part(d.object(), d.entries[e].head.key);
            &&& m.contains_key(field.head.key)
            &&& m[field.head.key] == field.value.meaning()
            &&& fits_field(section, field.head.key, field.value.meaning())
        }),
        json_parser::payload(text(d)) == Ok::<TransactionView, Stop>(transaction_of(d.object())),
{
    a_request_is_read(d);
    lemma_entry_in(d.entries, e);
    let entry = d.entries[e];
    let fields = entry.value->Object_1;
    assert(entry.wf());
    assert(are_fields(section, fields));
    lemma_field_in(fields, f);
    assert(part(d.object(), entry.head.key) == fields_object(fields));
}

/// Each member of the section `transaction` that a request writes is found in the transaction
/// that is read of it: the amount digit by digit, the number of installments by its last byte,
/// and the time byte for byte.
pub proof fn the_transaction_is_read(d: Document, e: int, f: int)
    requires
        d.wf(),
        0 <= e < d.entries.len(),
        d.entries[e].head.key == "transaction".spec_bytes(),
        d.entries[e].value is Object,
        0 <= f < d.entries[e].value->Object_1.len(),
    ensures
        json_parser::payload(text(d)) is Ok,
        ({
            let tx = json_parser::payload(text(d))->Ok_0;
            let key = d.entries[e].value->Object_1[f].head.key;
            let v = d.entries[e].value->Object_1[f].value;
            &&& key == "amount".spec_bytes() ==> is_digits_of(tx.amount, v)
            &&& key == "installments".spec_bytes() ==> v is Number && tx.installments
                == bytes::decimal(v->Number_0.whole) % 256
            &&& key == "requested_at".spec_bytes() ==> v is Text && tx.requested_at == v->Text_0
        }),
{
    lemma_entry_keys();
    lemma_written(d, e, f, Section::Transaction);
    lemma_fields_of(d.object());
    lemma_transaction_keys();
    let v = d.entries[e].value->Object_1[f].value;
    if v is Number {
        bytes::lemma_decimal_monotone(v->Number_0.whole, v->Number_0.whole.len() as int);
    }
}

/// Each member of the section `customer` that a request writes is found in the transaction that
/// is read of it; of the known merchants the first ten, in their order.
pub proof fn the_customer_is_read(d: Document, e: int, f: int)
    requires
        d.wf(),
        0 <= e < d.entries.len(),
        d.entries[e].head.key == "customer".spec_bytes(),
        d.entries[e].value is Object,
        0 <= f < d.entries[e].value->Object_1.len(),
    ensures
        json_parser::payload(text(d)) is Ok,
        ({
            let tx = json_parser::payload(text(d))->Ok_0;
            let key = d.entries[e].value->Object_1[f].head.key;
            let v = d.entries[e].value->Object_1[f].value;
            &&& key == "avg_amount".spec_bytes() ==> is_digits_of(tx.customer_avg_amount, v)
            &&& key == "tx_count_24h".spec_bytes() ==> v is Number && tx.customer_tx_count_24h
                == bytes::decimal(v->Number_0.whole)
            &&& key == "known_merchants".spec_bytes() ==> v is Names
                && tx.customer_known_merchants.len() == if v->Names_1.len() < 10 {
                v->Names_1.len() as int
            } else {
                10
            } && forall|k: int|
                0 <= k < tx.customer_known_merchants.len()
                    ==> #[trigger] tx.customer_known_merchants[k] == v->Names_1[k].name
        }),
{
    lemma_entry_keys();
    lemma_written(d, e, f, Section::Customer);
    lemma_fields_of(d.object());
    lemma_customer_keys();
    let v = d.entries[e].value->Object_1[f].value;
    if v is Number {
        bytes::lemma_decimal_monotone(v->Number_0.whole, v->Number_0.whole.len() as int);
    }
}

/// Each member of the section `merchant` that a request writes is found in the transaction that
/// is read of it.
pub proof fn the_merchant_is_read(d: Document, e: int, f: int)
    requires
        d.wf(),
        0 <= e < d.entries.len(),
        d.entries[e].head.key == "merchant".spec_bytes(),
        d.entries[e].value is Object,
        0 <= f < d.entries[e].value->Object_1.len(),
    ensures
        json_parser::payload(text(d)) is Ok,
        ({
            let tx = json_parser::payload(text(d))->Ok_0;
            let key = d.entries[e].value->Object_1[f].head.key;
            let v = d.entries[e].value->Object_1[f].value;
            &&& key == "id".spec_bytes() ==> v is Text && tx.merchant_id == v->Text_0
            &&& key == "mcc".spec_bytes() ==> v is Text && (all_digits(v->Text_0)
                ==> tx.merchant_mcc == bytes::decimal(v->Text_0))
            &&& key == "avg_amount".spec_bytes() ==> is_digits_of(tx.merchant_avg_amount, v)
        }),
{
    lemma_entry_keys();
    lemma_written(d, e, f, Section::Merchant);
    lemma_fields_of(d.object());
    lemma_merchant_keys();
    let v = d.entries[e].value->Object_1[f].value;
    if v is Text && all_digits(v->Text_0) {
        lemma_only_digits(v->Text_0);
        bytes::lemma_decimal_monotone(v->Text_0, v->Text_0.len() as int);
    }
}

/// Each member of the section `terminal` that a request writes is found in the transaction that
/// is read of it.
pub proof fn the_terminal_is_read(d: Document, e: int, f: int)
    requires
        d.wf(),
        0 <= e < d.entries.len(),
        d.entries[e].head.key == "terminal".spec_bytes(),
        d.entries[e].value is Object,
        0 <= f < d.entries[e].value->Object_1.len(),
    ensures
        json_parser::payload(text(d)) is Ok,
        ({
            let tx = json_parser::payload(text(d))->Ok_0;
            let key = d.entries[e].value->Object_1[f].head.key;
            let v = d.entries[e].value->Object_1[f].value;
            &&& key == "is_online".spec_bytes() ==> v is Truth && tx.is_online == v->Truth_0
            &&& key == "card_present".spec_bytes() ==> v is Truth && tx.card_present
                == v->Truth_0
            &&& key == "km_from_home".spec_bytes() ==> is_digits_of(tx.km_from_home, v)
        }),
{
    lemma_entry_keys();
    lemma_written(d, e, f, Section::Terminal);
    lemma_fields_of(d.object());
    lemma_terminal_keys();
}

/// Each member of the section `last_transaction` that a request writes is found in the
/// transaction that is read of it.
pub proof fn the_last_transaction_is_read(d: Document, e: int, f: int)
    requires
        d.wf(),
        0 <= e < d.entries.len(),
        d.entries[e].head.key == "last_transaction".spec_bytes(),
        d.entries[e].value is Object,
        0 <= f < d.entries[e].value->Object_1.len(),
    ensures
        json_parser::payload(text(d)) is Ok,
        ({
            let tx = json_parser::payload(text(d))->Ok_0;
            let key = d.entries[e].value->Object_1[f].head.key;
            let v = d.entries[e].value->Object_1[f].value;
            &&& key == "timestamp".spec_bytes() ==> v is Text && tx.last_tx_timestamp == Some(
                v->Text_0,
            )
            &&& key == "km_from_current".spec_bytes() ==> tx.last_tx_km is Some && is_digits_of(
                tx.last_tx_km->0,
                v,
            )
        }),
{
    lemma_entry_keys();
    lemma_written(d, e, f, Section::LastTransaction);
    lemma_fields_of(d.object());
    lemma_last_keys();
}

/// The name that a request gives a transaction is read as it is written.
pub proof fn the_name_is_read(d: Document, e: int)
    requires
        d.wf(),
        0 <= e < d.entries.len(),
        d.entries[e].head.key == "id".spec_bytes(),
    ensures
        json_parser::payload(text(d)) is Ok,
        d.entries[e].value is Text,
        json_parser::payload(text(d))->Ok_0.id == d.entries[e].value->Text_0,
{
    a_request_is_read(d);
    lemma_fields_of(d.object());
    lemma_entry_in(d.entries, e);
    assert(d.entries[e].wf());
}

/// Whether a section of a request has a member.
pub open spec fn writes(d: Document, section: Seq<u8>, key: Seq<u8>) -> bool {
    exists|e: int, f: int|
        0 <= e < d.entries.len() && d.entries[e].head.key == section
            && d.entries[e].value is Object && 0 <= f < d.entries[e].value->Object_1.len() && (
        #[trigger] d.entries[e].value->Object_1[f]).head.key == key
}

/// Whether a number has no digits and no sign.
pub open spec fn is_blank_number(d: DecimalView) -> bool {
    !d.negative && d.whole.len() == 0 && d.fraction.len() == 0
}

proof fn lemma_not_written(d: Document, section: Seq<u8>, key: Seq<u8>)
    requires
        d.wf(),
    ensures
        part(d.object(), section).contains_key(key) ==> writes(d, section, key),
{
    let entries = d.entries;
    if part(d.object(), section).contains_key(key) {
        if forall|e: int| 0 <= e < entries.len() ==> (#[trigger] entries[e]).head.key != section {
            lemma_no_entry(entries, section);
        }
        let e = choose|e: int| 0 <= e < entries.len() && (#[trigger] entries[e]).head.key == section;
        lemma_entry_in(entries, e);
        let fields = entries[e].value->Object_1;
        if forall|f: int| 0 <= f < fields.len() ==> (#[trigger] fields[f]).head.key != key {
            lemma_no_field(fields, key);
        }
        let f = choose|f: int| 0 <= f < fields.len() && (#[trigger] fields[f]).head.key == key;
        assert(d.entries[e].value->Object_1[f].head.key == key);
    }
}

/// What a request does not write is left blank in the transaction that is read of it; without
/// a last transaction there is none.
pub proof fn what_is_not_written_is_blank(d: Document)
    requires
        d.wf(),
    ensures
        json_parser::payload(text(d)) is Ok,
        ({
            let tx = json_parser::payload(text(d))->Ok_0;
            &&& !writes(d, "transaction".spec_bytes(), "amount".spec_bytes())
                ==> is_blank_number(tx.amount)
            &&& !writes(d, "transaction".spec_bytes(), "installments".spec_bytes())
                ==> tx.installments == 0
            &&& !writes(d, "transaction".spec_bytes(), "requested_at".spec_bytes())
                ==> tx.requested_at.len() == 0
            &&& !writes(d, "customer".spec_bytes(), "avg_amount".spec_bytes())
                ==> is_blank_number(tx.customer_avg_amount)
            &&& !writes(d, "customer".spec_bytes(), "tx_count_24h".spec_bytes())
                ==> tx.customer_tx_count_24h == 0
            &&& !writes(d, "customer".spec_bytes(), "known_merchants".spec_bytes())
                ==> tx.customer_known_merchants.len() == 0
            &&& !writes(d, "merchant".spec_bytes(), "id".spec_bytes())
                ==> tx.merchant_id.len() == 0
            &&& !writes(d, "merchant".spec_bytes(), "mcc".spec_bytes())
                ==> tx.merchant_mcc == 0
            &&& !writes(d, "merchant".spec_bytes(), "avg_amount".spec_bytes())
                ==> is_blank_number(tx.merchant_avg_amount)
            &&& !writes(d, "terminal".spec_bytes(), "is_online".spec_bytes())
                ==> !tx.is_online
            &&& !writes(d, "terminal".spec_bytes(), "card_present".spec_bytes())
                ==> !tx.card_present
            &&& !writes(d, "terminal".spec_bytes(), "km_from_home".spec_bytes())
                ==> is_blank_number(tx.km_from_home)
            &&& !writes(d, "last_transaction".spec_bytes(), "timestamp".spec_bytes())
                ==> tx.last_tx_timestamp is None
            &&& !writes(d, "last_transaction".spec_bytes(), "km_from_current".spec_bytes())
                ==> tx.last_tx_km is None
        }),
{
    a_request_is_read(d);
    lemma_fields_of(d.object());
    lemma_not_written(d, "transaction".spec_bytes(), "amount".spec_bytes());
    lemma_not_written(d, "transaction".spec_bytes(), "installments".spec_bytes());
    lemma_not_written(d, "transaction".spec_bytes(), "requested_at".spec_bytes());
    lemma_not_written(d, "customer".spec_bytes(), "avg_amount".spec_bytes());
    lemma_not_written(d, "customer".spec_bytes(), "tx_count_24h".spec_bytes());
    lemma_not_written(d, "customer".spec_bytes(), "known_merchants".spec_bytes());
    lemma_not_written(d, "merchant".spec_bytes(), "id".spec_bytes());
    lemma_not_written(d, "merchant".spec_bytes(), "mcc".spec_bytes());
    lemma_not_written(d, "merchant".spec_bytes(), "avg_amount".spec_bytes());
    lemma_not_written(d, "terminal".spec_bytes(), "is_online".spec_bytes());
    lemma_not_written(d, "terminal".spec_bytes(), "card_present".spec_bytes());
    lemma_not_written(d, "terminal".spec_bytes(), "km_from_home".spec_bytes());
    lemma_not_written(d, "last_transaction".spec_bytes(), "timestamp".spec_bytes());
    lemma_not_written(d, "last_transaction".spec_bytes(), "km_from_current".spec_bytes());
}

/// A count that its field cannot hold stops the reading, whatever comes behind it: there is no
/// transaction then.
pub proof fn a_count_that_is_too_large_stops_the_reading(
    before: Seq<u8>,
    section: Head,
    field: Head,
    n: Number,
    rest: Seq<u8>,
)
    requires
        without(before, QUOTE),
        section.wf(),
        field.wf(),
        n.wf(),
        bytes::decimal(n.whole) > 0xffff_ffff,
        (section.key == "transaction".spec_bytes() && field.key == "installments".spec_bytes()) || (
        section.key == "customer".spec_bytes() && field.key == "tx_count_24h".spec_bytes()),
    ensures
        json_parser::payload(
            before + head_text(section) + seq![OPEN_BRACE] + head_text(field) + number_text(n)
                + seq![COMMA] + rest,
        ) == Err::<TransactionView, Stop>(Stop::OutOfRange),
{
    let open = seq![OPEN_BRACE];
    let comma = seq![COMMA];
    let a = before;
    let b = a + head_text(section);
    let c = b + open;
    let d = c + head_text(field);
    let e = d + number_text(n);
    let s = e + comma + rest;
    assert(holds(s, 0, s));
    lemma_split(s, 0, e + comma, rest);
    lemma_split(s, 0, e, comma);
    lemma_split(s, 0, d, number_text(n));
    lemma_split(s, 0, c, head_text(field));
    lemma_split(s, 0, b, open);
    lemma_split(s, 0, a, head_text(section));
    lemma_clear(s, 0, before, QUOTE);
    let i = b.len() as int;
    let j = d.len() as int;
    assert(s[i] == open[0]);
    assert(s[e.len() as int] == comma[0]);
    lemma_number(s, j, n, e.len() as int);
    lemma_head(s, 0, a.len() as int, section);
    lemma_head(s, i + 1, i + 1, field);
    bytes::lemma_scan_is(s, i, bytes::byte(OPEN_BRACE), i);
    lemma_entry_keys();
    lemma_transaction_keys();
    lemma_customer_keys();
}

/// A section that does not open is no section: a request that announces one, and in which no
/// brace opens behind it, describes no transaction.
pub proof fn a_section_that_does_not_open_is_malformed(
    before: Seq<u8>,
    section: Head,
    rest: Seq<u8>,
)
    requires
        without(before, QUOTE),
        section.wf(),
        rest.len() > 0,
        !bytes::is_space(rest[0]),
        without(rest, OPEN_BRACE),
        section.key == "transaction".spec_bytes() || section.key == "customer".spec_bytes()
            || section.key == "merchant".spec_bytes() || section.key == "terminal".spec_bytes(),
    ensures
        json_parser::payload(before + head_text(section) + rest) == Err::<TransactionView, Stop>(
            Stop::Malformed,
        ),
{
    let b = before + head_text(section);
    let s = b + rest;
    assert(holds(s, 0, s));
    lemma_split(s, 0, b, rest);
    lemma_split(s, 0, before, head_text(section));
    lemma_clear(s, 0, before, QUOTE);
    lemma_clear(s, b.len() as int, rest, OPEN_BRACE);
    assert(s[b.len() as int] == rest[0]);
    lemma_head(s, 0, before.len() as int, section);
    bytes::lemma_scan_is(s, b.len() as int, bytes::byte(OPEN_BRACE), s.len() as int);
    lemma_entry_keys();
}

/// Each member of a request has a value of its type that fits its field: counts up to 32 bits,
/// and the kind of merchant up to 16.
pub proof fn what_fits_a_field(v: FieldValue)
    ensures
        v is Number ==> {
            let fits = bytes::decimal(v->Number_0.whole) <= 0xffff_ffff;
            &&& fits_field(Section::Transaction, "amount".spec_bytes(), v)
            &&& fits == fits_field(Section::Transaction, "installments".spec_bytes(), v)
            &&& fits_field(Section::Customer, "avg_amount".spec_bytes(), v)
            &&& fits == fits_field(Section::Customer, "tx_count_24h".spec_bytes(), v)
            &&& fits_field(Section::Merchant, "avg_amount".spec_bytes(), v)
            &&& fits_field(Section::Terminal, "km_from_home".spec_bytes(), v)
            &&& fits_field(Section::LastTransaction, "km_from_current".spec_bytes(), v)
        },
        v is Text ==> {
            &&& fits_field(Section::Transaction, "requested_at".spec_bytes(), v)
            &&& fits_field(Section::Merchant, "id".spec_bytes(), v)
            &&& fits_field(Section::LastTransaction, "timestamp".spec_bytes(), v)
            &&& all_digits(v->Text_0) && bytes::decimal(v->Text_0) <= 65535 ==> fits_field(
                Section::Merchant,
                "mcc".spec_bytes(),
                v,
            )
        },
        v is Truth ==> fits_field(Section::Terminal, "is_online".spec_bytes(), v) && fits_field(
            Section::Terminal,
            "card_present".spec_bytes(),
            v,
        ),
        v is Names ==> fits_field(Section::Customer, "known_merchants".spec_bytes(), v),
{
    lemma_transaction_keys();
    lemma_customer_keys();
    lemma_merchant_keys();
    lemma_terminal_keys();
    lemma_last_keys();
    if v is Text && all_digits(v->Text_0) {
        lemma_only_digits(v->Text_0);
    }
}

} // verus!
