//! The features of a transaction, and its vector.
//!
//! A transaction is compared with others by the features that are derived here. They are
//! whole numbers and written decimals. In the vector each of them has its place, as the bit
//! pattern of a real number; how a feature is scaled to a real number is given by the caller.
use vstd::prelude::*;
use crate::bytes;
use crate::json_lexer::{Decimal, DecimalView};
use crate::json_parser::{ParsedTransaction, TransactionView, MAX_KNOWN_MERCHANTS};
use crate::lookups::MCC_CODES;
use crate::timestamp;

verus! {

/// What a transaction is compared by.
#[derive(Clone, Copy)]
pub struct Features<'a> {
    pub amount: Decimal<'a>,
    pub installments: u8,
    pub customer_avg_amount: Decimal<'a>,
    /// The hour of the request.
    pub hour: u8,
    /// The day of the week of the request, Monday being zero.
    pub weekday: u8,
    /// The minutes since the transaction before, and the kilometres from it.
    pub since_last: Option<(u64, Decimal<'a>)>,
    pub km_from_home: Decimal<'a>,
    pub tx_count_24h: u32,
    /// One if online, plus two if the card was present, plus four if the merchant is unknown.
    pub flags: u8,
    pub mcc: u16,
    pub merchant_avg_amount: Decimal<'a>,
}

/// What `Features` stand for.
pub struct FeaturesView {
    pub amount: DecimalView,
    pub installments: u8,
    pub customer_avg_amount: DecimalView,
    pub hour: u8,
    pub weekday: u8,
    pub since_last: Option<(u64, DecimalView)>,
    pub km_from_home: DecimalView,
    pub tx_count_24h: u32,
    pub flags: u8,
    pub mcc: u16,
    pub merchant_avg_amount: DecimalView,
}

impl<'a> View for Features<'a> {
    type V = FeaturesView;

    open spec fn view(&self) -> FeaturesView {
        FeaturesView {
            amount: self.amount@,
            installments: self.installments,
            customer_avg_amount: self.customer_avg_amount@,
            hour: self.hour,
            weekday: self.weekday,
            since_last: match self.since_last {
                Some((minutes, km)) => Some((minutes, km@)),
                None => None,
            },
            km_from_home: self.km_from_home@,
            tx_count_24h: self.tx_count_24h,
            flags: self.flags,
            mcc: self.mcc,
            merchant_avg_amount: self.merchant_avg_amount@,
        }
    }
}

/// Why a transaction has no features.
#[derive(Clone, Copy, PartialEq, Eq, Structural, Debug)]
pub enum Unfit {
    /// A timestamp holds what does not count for a number, or a number out of its range.
    OutOfRange,
    /// A timestamp is too short, or the month of the request is none.
    NoTime,
}

/// The three flags as one number.
pub open spec fn flags_of(is_online: bool, card_present: bool, known: bool) -> u8 {
    ((if is_online {
        1int
    } else {
        0
    }) + (if card_present {
        2int
    } else {
        0
    }) + (if known {
        0int
    } else {
        4
    })) as u8
}

/// Whether the request has an hour and a weekday.
pub open spec fn has_time(ts: Seq<u8>) -> bool {
    ts.len() >= 13 && 1 <= timestamp::month_of(ts) <= 12
}

/// The features of a transaction.
pub open spec fn features(tx: TransactionView) -> Result<FeaturesView, Unfit> {
    let at = tx.requested_at;
    if !timestamp::hour_in_range(at) {
        Err(Unfit::OutOfRange)
    } else if !has_time(at) {
        Err(Unfit::NoTime)
    } else {
        let rest = FeaturesView {
            amount: tx.amount,
            installments: tx.installments,
            customer_avg_amount: tx.customer_avg_amount,
            hour: timestamp::hour_of(at) as u8,
            weekday: timestamp::weekday(
                timestamp::year_of(at),
                timestamp::month_of(at),
                timestamp::day_of(at),
            ),
            since_last: None,
            km_from_home: tx.km_from_home,
            tx_count_24h: tx.customer_tx_count_24h,
            flags: flags_of(
                tx.is_online,
                tx.card_present,
                tx.customer_known_merchants.contains(tx.merchant_id),
            ),
            mcc: tx.merchant_mcc,
            merchant_avg_amount: tx.merchant_avg_amount,
        };
        match (tx.last_tx_timestamp, tx.last_tx_km) {
            (Some(last), Some(km)) => if !timestamp::minutes_in_range(at) {
                Err(Unfit::OutOfRange)
            } else if at.len() < 16 {
                Err(Unfit::NoTime)
            } else if !timestamp::minutes_in_range(last) {
                Err(Unfit::OutOfRange)
            } else if last.len() < 16 {
                Err(Unfit::NoTime)
            } else {
                let minutes = timestamp::distance(
                    timestamp::minutes_of(at),
                    timestamp::minutes_of(last),
                );
                Ok(FeaturesView { since_last: Some((minutes as u64, km)), ..rest })
            },
            _ => Ok(rest),
        }
    }
}

/// Whether what is looked at in the timestamps of a transaction counts for numbers in range.
pub open spec fn in_range(tx: TransactionView) -> bool {
    features(tx) != Err::<FeaturesView, Unfit>(Unfit::OutOfRange)
}

/// The three flags as one number.
pub fn pack_flags(is_online: bool, card_present: bool, known: bool) -> (r: u8)
    ensures
        r == flags_of(is_online, card_present, known),
        r < 8,
{
    let mut flags: u8 = 0;
    if is_online {
        flags += 1;
    }
    if card_present {
        flags += 2;
    }
    if !known {
        flags += 4;
    }
    flags
}

/// Whether the merchant of a transaction is one that the customer knows.
pub fn is_known_merchant(tx: &ParsedTransaction<'_>) -> (r: bool)
    requires
        tx.customer_known_merchants_len <= MAX_KNOWN_MERCHANTS,
    ensures
        r == tx@.customer_known_merchants.contains(tx@.merchant_id),
{
    let mut k: usize = 0;
    while k < tx.customer_known_merchants_len
        invariant
            k <= tx.customer_known_merchants_len <= MAX_KNOWN_MERCHANTS,
            forall|j: int| 0 <= j < k ==> tx@.customer_known_merchants[j] != tx@.merchant_id,
        decreases tx.customer_known_merchants_len - k,
    {
        assert(tx@.customer_known_merchants[k as int]
            == tx.customer_known_merchants@[k as int]@);
        if bytes::bytes_equal(tx.customer_known_merchants[k], tx.merchant_id) {
            return true;
        }
        k += 1;
    }
    false
}

/// Derives the features of a transaction, whatever its timestamps hold.
pub fn read_features<'a>(tx: &ParsedTransaction<'a>) -> (r: Result<Features<'a>, Unfit>)
    requires
        tx.customer_known_merchants_len <= MAX_KNOWN_MERCHANTS,
    ensures
        match features(tx@) {
            Ok(f) => r is Ok && r->Ok_0@ == f,
            Err(unfit) => r is Err && r->Err_0 == unfit,
        },
{
    if !timestamp::is_hour_in_range(tx.requested_at) {
        return Err(Unfit::OutOfRange);
    }
    let (hour, weekday) = match timestamp::parse_timestamp(tx.requested_at) {
        Some(p) => p,
        None => {
            return Err(Unfit::NoTime);
        },
    };
    let mut since_last: Option<(u64, Decimal<'a>)> = None;
    if let Some(last) = tx.last_tx_timestamp {
        if let Some(km) = tx.last_tx_km {
            if !timestamp::is_minutes_in_range(tx.requested_at) {
                return Err(Unfit::OutOfRange);
            }
            if tx.requested_at.len() >= 16 && !timestamp::is_minutes_in_range(last) {
                return Err(Unfit::OutOfRange);
            }
            match timestamp::parse_minutes_diff(tx.requested_at, last) {
                Some(minutes) => {
                    since_last = Some((minutes, km));
                },
                None => {
                    return Err(Unfit::NoTime);
                },
            }
        }
    }
    Ok(
        Features {
            amount: tx.amount,
            installments: tx.installments,
            customer_avg_amount: tx.customer_avg_amount,
            hour,
            weekday,
            since_last,
            km_from_home: tx.km_from_home,
            tx_count_24h: tx.customer_tx_count_24h,
            flags: pack_flags(tx.is_online, tx.card_present, is_known_merchant(tx)),
            mcc: tx.merchant_mcc,
            merchant_avg_amount: tx.merchant_avg_amount,
        },
    )
}

/// A feature that is scaled.
#[derive(Clone, Copy)]
pub enum Feature<'a> {
    Amount(Decimal<'a>),
    Installments(u8),
    /// The amount, and what the customer spends on average.
    AmountRatio(Decimal<'a>, Decimal<'a>),
    HourSine(u8),
    HourCosine(u8),
    DaySine(u8),
    DayCosine(u8),
    MinutesSinceLast(u64),
    KmFromLast(Decimal<'a>),
    KmFromHome(Decimal<'a>),
    TxCount(u32),
    Flags(u8),
    MerchantAvgAmount(Decimal<'a>),
}

/// What a `Feature` stands for.
pub enum FeatureView {
    Amount(DecimalView),
    Installments(u8),
    AmountRatio(DecimalView, DecimalView),
    HourSine(u8),
    HourCosine(u8),
    DaySine(u8),
    DayCosine(u8),
    MinutesSinceLast(u64),
    KmFromLast(DecimalView),
    KmFromHome(DecimalView),
    TxCount(u32),
    Flags(u8),
    MerchantAvgAmount(DecimalView),
}

impl<'a> View for Feature<'a> {
    type V = FeatureView;

    open spec fn view(&self) -> FeatureView {
        match *self {
            Feature::Amount(d) => FeatureView::Amount(d@),
            Feature::Installments(n) => FeatureView::Installments(n),
            Feature::AmountRatio(d, e) => FeatureView::AmountRatio(d@, e@),
            Feature::HourSine(n) => FeatureView::HourSine(n),
            Feature::HourCosine(n) => FeatureView::HourCosine(n),
            Feature::DaySine(n) => FeatureView::DaySine(n),
            Feature::DayCosine(n) => FeatureView::DayCosine(n),
            Feature::MinutesSinceLast(n) => FeatureView::MinutesSinceLast(n),
            Feature::KmFromLast(d) => FeatureView::KmFromLast(d@),
            Feature::KmFromHome(d) => FeatureView::KmFromHome(d@),
            Feature::TxCount(n) => FeatureView::TxCount(n),
            Feature::Flags(n) => FeatureView::Flags(n),
            Feature::MerchantAvgAmount(d) => FeatureView::MerchantAvgAmount(d@),
        }
    }
}

/// What stands at a place that has nothing to hold (-1.0).
pub const ABSENT: u32 = 0xbf80_0000;

/// What stands at a place of a vector.
pub enum Place {
    /// A feature, scaled.
    Scaled(FeatureView),
    /// The risk of a kind of merchant.
    Risk(u16),
    /// Always the same bits.
    Bits(u32),
}

/// What stands at place `k` of the vector of a transaction.
pub open spec fn place(f: FeaturesView, k: int) -> Place {
    if k == 0 {
        Place::Scaled(FeatureView::Amount(f.amount))
    } else if k == 1 {
        Place::Scaled(FeatureView::Installments(f.installments))
    } else if k == 2 {
        Place::Scaled(FeatureView::AmountRatio(f.amount, f.customer_avg_amount))
    } else if k == 3 {
        Place::Scaled(FeatureView::HourSine(f.hour))
    } else if k == 4 {
        Place::Scaled(FeatureView::HourCosine(f.hour))
    } else if k == 5 {
        Place::Scaled(FeatureView::DaySine(f.weekday))
    } else if k == 6 {
        Place::Scaled(FeatureView::DayCosine(f.weekday))
    } else if k == 7 {
        match f.since_last {
            Some((minutes, _)) => Place::Scaled(FeatureView::MinutesSinceLast(minutes)),
            None => Place::Bits(ABSENT),
        }
    } else if k == 8 {
        match f.since_last {
            Some((_, km)) => Place::Scaled(FeatureView::KmFromLast(km)),
            None => Place::Bits(ABSENT),
        }
    } else if k == 9 {
        Place::Scaled(FeatureView::KmFromHome(f.km_from_home))
    } else if k == 10 {
        Place::Scaled(FeatureView::TxCount(f.tx_count_24h))
    } else if k == 11 {
        Place::Scaled(FeatureView::Flags(f.flags))
    } else if k == 12 {
        Place::Risk(f.mcc)
    } else if k == 13 {
        Place::Scaled(FeatureView::MerchantAvgAmount(f.merchant_avg_amount))
    } else {
        Place::Bits(0)
    }
}

/// Whether every feature can be scaled.
pub open spec fn is_scale<E: for <'b>Fn(Feature<'b>) -> u32>(scale: E) -> bool {
    forall|f: Feature<'_>| #[trigger] call_requires(scale, (f,))
}

/// Whether a feature may be scaled so.
pub open spec fn may_scale<E: for <'b>Fn(Feature<'b>) -> u32>(
    scale: E,
    feature: FeatureView,
    bits: u32,
) -> bool {
    exists|f: Feature<'_>| f@ == feature && #[trigger] call_ensures(scale, (f,), bits)
}

/// Whether the bits may stand at a place.
pub open spec fn may_hold<E: for <'b>Fn(Feature<'b>) -> u32>(
    scale: E,
    risks: Seq<u32>,
    place: Place,
    bits: u32,
) -> bool {
    match place {
        Place::Scaled(feature) => may_scale(scale, feature, bits),
        Place::Risk(mcc) => bits == risks[mcc as int],
        Place::Bits(always) => bits == always,
    }
}

/// Whether a transaction with these features may have this vector.
pub open spec fn is_vector<E: for <'b>Fn(Feature<'b>) -> u32>(
    scale: E,
    risks: Seq<u32>,
    f: FeaturesView,
    v: Seq<u32>,
) -> bool {
    forall|k: int| 0 <= k < 16 ==> may_hold(scale, risks, place(f, k), #[trigger] v[k])
}

/// Scales a feature.
fn scaled<'a, E: for <'b>Fn(Feature<'b>) -> u32>(scale: &E, feature: Feature<'a>) -> (r: u32)
    requires
        is_scale(*scale),
    ensures
        may_scale(*scale, feature@, r),
{
    let bits = scale(feature);
    assert(call_ensures(*scale, (feature,), bits));
    bits
}

/// The vector of a transaction with the given features.
pub fn to_vector<'a, E: for <'b>Fn(Feature<'b>) -> u32>(
    f: &Features<'a>,
    risks: &Vec<u32>,
    scale: &E,
) -> (r: [u32; 16])
    requires
        risks@.len() == MCC_CODES,
        is_scale(*scale),
    ensures
        is_vector(*scale, risks@, f@, r@),
{
    let mut v: [u32; 16] = [0u32; 16];
    v[0] = scaled(scale, Feature::Amount(f.amount));
    v[1] = scaled(scale, Feature::Installments(f.installments));
    v[2] = scaled(scale, Feature::AmountRatio(f.amount, f.customer_avg_amount));
    v[3] = scaled(scale, Feature::HourSine(f.hour));
    v[4] = scaled(scale, Feature::HourCosine(f.hour));
    v[5] = scaled(scale, Feature::DaySine(f.weekday));
    v[6] = scaled(scale, Feature::DayCosine(f.weekday));
    match f.since_last {
        Some((minutes, km)) => {
            v[7] = scaled(scale, Feature::MinutesSinceLast(minutes));
            v[8] = scaled(scale, Feature::KmFromLast(km));
        },
        None => {
            v[7] = ABSENT;
            v[8] = ABSENT;
        },
    }
    v[9] = scaled(scale, Feature::KmFromHome(f.km_from_home));
    v[10] = scaled(scale, Feature::TxCount(f.tx_count_24h));
    v[11] = scaled(scale, Feature::Flags(f.flags));
    v[12] = risks[f.mcc as usize];
    v[13] = scaled(scale, Feature::MerchantAvgAmount(f.merchant_avg_amount));
    v
}

/// The vector of a transaction whose timestamps are in range. There is none exactly if a
/// timestamp that is needed is too short, or the month of the request is none.
pub fn vectorize<'a, E: for <'b>Fn(Feature<'b>) -> u32>(
    tx: &ParsedTransaction<'a>,
    risks: &Vec<u32>,
    scale: &E,
) -> (r: Option<[u32; 16]>)
    requires
        tx.customer_known_merchants_len <= MAX_KNOWN_MERCHANTS,
        in_range(tx@),
        risks@.len() == MCC_CODES,
        is_scale(*scale),
    ensures
        match features(tx@) {
            Ok(f) => r is Some && is_vector(*scale, risks@, f, r->0@),
            Err(_) => r is None,
        },
{
    match read_features(tx) {
        Ok(f) => Some(to_vector(&f, risks, scale)),
        Err(_) => None,
    }
}

/// The flags can be told apart in their number.
pub proof fn flags_are_told_apart(
    online: bool,
    present: bool,
    known: bool,
    online2: bool,
    present2: bool,
    known2: bool,
)
    requires
        flags_of(online, present, known) == flags_of(online2, present2, known2),
    ensures
        online == online2,
        present == present2,
        known == known2,
{
}

/// What the features of a transaction are: each is that of the payload, or what is derived from
/// it. Those of the last transaction are there exactly if the payload has both its timestamp and
/// its distance, and then they are the minutes between the two timestamps, whichever comes
/// first and however far they are apart, and that distance.
pub proof fn features_are_those_of_the_payload(tx: TransactionView)
    requires
        features(tx) is Ok,
    ensures
        ({
            let f = features(tx)->Ok_0;
            let at = tx.requested_at;
            &&& f.amount == tx.amount
            &&& f.installments == tx.installments
            &&& f.customer_avg_amount == tx.customer_avg_amount
            &&& f.km_from_home == tx.km_from_home
            &&& f.tx_count_24h == tx.customer_tx_count_24h
            &&& f.mcc == tx.merchant_mcc
            &&& f.merchant_avg_amount == tx.merchant_avg_amount
            &&& f.hour == timestamp::hour_of(at)
            &&& f.weekday == timestamp::weekday(
                timestamp::year_of(at),
                timestamp::month_of(at),
                timestamp::day_of(at),
            )
            &&& f.since_last is Some <==> tx.last_tx_timestamp is Some && tx.last_tx_km is Some
            &&& f.since_last matches Some((minutes, km)) ==> tx.last_tx_km == Some(km) && {
                let now = timestamp::minutes_of(at);
                let last = timestamp::minutes_of(tx.last_tx_timestamp->0);
                (now >= last ==> minutes == (now - last) as u64) && (now <= last ==> minutes == (
                last - now) as u64)
            }
            &&& f.flags < 8
            &&& f.flags % 2 == 1 <==> tx.is_online
            &&& f.flags / 2 % 2 == 1 <==> tx.card_present
            &&& f.flags / 4 == 1 <==> !(exists|k: int|
                0 <= k < tx.customer_known_merchants.len()
                    && #[trigger] tx.customer_known_merchants[k] == tx.merchant_id)
        }),
{
    let names = tx.customer_known_merchants;
    assert(names.contains(tx.merchant_id) <==> exists|k: int|
        0 <= k < names.len() && #[trigger] names[k] == tx.merchant_id);
}

/// A transaction whose timestamps are written as they should be has features; and one whose
/// timestamp is too short, or has no month of the year, has none, whatever else it holds.
pub proof fn a_transaction_with_times_has_features(tx: TransactionView)
    ensures
        timestamp::is_written(tx.requested_at) && 1 <= timestamp::month_of(tx.requested_at) <= 12
            && (tx.last_tx_timestamp matches Some(last) ==> timestamp::is_written(last) && 1
            <= timestamp::month_of(last) <= 12) ==> features(tx) is Ok,
        tx.requested_at.len() < 13 ==> features(tx) == Err::<FeaturesView, Unfit>(Unfit::NoTime),
        timestamp::is_written(tx.requested_at) && !(1 <= timestamp::month_of(tx.requested_at)
            <= 12) ==> features(tx) == Err::<FeaturesView, Unfit>(Unfit::NoTime),
        timestamp::is_written(tx.requested_at) && 1 <= timestamp::month_of(tx.requested_at) <= 12
            && tx.last_tx_km is Some && (tx.last_tx_timestamp matches Some(last) && last.len() < 16)
            ==> features(tx) == Err::<FeaturesView, Unfit>(Unfit::NoTime),
{
    if timestamp::is_written(tx.requested_at) {
        timestamp::a_written_timestamp_is_read(tx.requested_at);
    }
    if let Some(last) = tx.last_tx_timestamp {
        if timestamp::is_written(last) {
            timestamp::a_written_timestamp_is_read(last);
        }
    }
}

/// What stands where in a vector: the amount, the installments, the ratio of the amount to the
/// average, sine and cosine of the hour and of the day of the week, the minutes since the last
/// transaction and the kilometres from it, or minus one for both, the kilometres from home, the
/// number of transactions, the flags, the risk of the kind of merchant, the average amount of
/// the merchant, and twice nothing.
pub proof fn each_feature_has_its_place<E: for <'b>Fn(Feature<'b>) -> u32>(
    scale: E,
    risks: Seq<u32>,
    f: FeaturesView,
    v: Seq<u32>,
)
    requires
        is_vector(scale, risks, f, v),
    ensures
        may_scale(scale, FeatureView::Amount(f.amount), v[0]),
        may_scale(scale, FeatureView::Installments(f.installments), v[1]),
        may_scale(scale, FeatureView::AmountRatio(f.amount, f.customer_avg_amount), v[2]),
        may_scale(scale, FeatureView::HourSine(f.hour), v[3]),
        may_scale(scale, FeatureView::HourCosine(f.hour), v[4]),
        may_scale(scale, FeatureView::DaySine(f.weekday), v[5]),
        may_scale(scale, FeatureView::DayCosine(f.weekday), v[6]),
        f.since_last matches Some((minutes, km)) ==> may_scale(
            scale,
            FeatureView::MinutesSinceLast(minutes),
            v[7],
        ) && may_scale(scale, FeatureView::KmFromLast(km), v[8]),
        f.since_last is None ==> v[7] == 0xbf80_0000 && v[8] == 0xbf80_0000,
        may_scale(scale, FeatureView::KmFromHome(f.km_from_home), v[9]),
        may_scale(scale, FeatureView::TxCount(f.tx_count_24h), v[10]),
        may_scale(scale, FeatureView::Flags(f.flags), v[11]),
        v[12] == risks[f.mcc as int],
        may_scale(scale, FeatureView::MerchantAvgAmount(f.merchant_avg_amount), v[13]),
        v[14] == 0,
        v[15] == 0,
{
    assert(may_hold(scale, risks, place(f, 0), v[0]));
    assert(may_hold(scale, risks, place(f, 1), v[1]));
    assert(may_hold(scale, risks, place(f, 2), v[2]));
    assert(may_hold(scale, risks, place(f, 3), v[3]));
    assert(may_hold(scale, risks, place(f, 4), v[4]));
    assert(may_hold(scale, risks, place(f, 5), v[5]));
    assert(may_hold(scale, risks, place(f, 6), v[6]));
    assert(may_hold(scale, risks, place(f, 7), v[7]));
    assert(may_hold(scale, risks, place(f, 8), v[8]));
    assert(may_hold(scale, risks, place(f, 9), v[9]));
    assert(may_hold(scale, risks, place(f, 10), v[10]));
    assert(may_hold(scale, risks, place(f, 11), v[11]));
    assert(may_hold(scale, risks, place(f, 12), v[12]));
    assert(may_hold(scale, risks, place(f, 13), v[13]));
    assert(may_hold(scale, risks, place(f, 14), v[14]));
    assert(may_hold(scale, risks, place(f, 15), v[15]));
}

/// A transaction has a vector exactly if it has features, and it is a vector of these.
pub proof fn a_transaction_has_the_vector_of_its_features<E: for <'b>Fn(Feature<'b>) -> u32>(
    tx: &ParsedTransaction<'_>,
    risks: &Vec<u32>,
    scale: &E,
    r: Option<[u32; 16]>,
    read: Result<Features<'_>, Unfit>,
)
    requires
        tx.customer_known_merchants_len <= MAX_KNOWN_MERCHANTS,
        in_range(tx@),
        call_ensures(vectorize, (tx, risks, scale), r),
        call_ensures(read_features, (tx,), read),
    ensures
        r is Some <==> features(tx@) is Ok,
        read is Ok <==> features(tx@) is Ok,
        r is Some ==> read->Ok_0@ == features(tx@)->Ok_0 && is_vector(
            *scale,
            risks@,
            read->Ok_0@,
            r->0@,
        ),
        read is Err ==> features(tx@) == Err::<FeaturesView, Unfit>(read->Err_0),
{
}

/// Where a byte that should be a digit of the year, the month, the day or the hour comes before
/// the digits, the timestamp is out of range; so is one whose minute has such a byte, where the
/// minutes are needed.
pub proof fn what_counts_for_no_number_is_out_of_range(tx: TransactionView, k: int)
    requires
        k == 0 || k == 1 || k == 2 || k == 3 || k == 5 || k == 6 || k == 8 || k == 9 || k == 11
            || k == 12 || k == 14 || k == 15,
    ensures
        tx.requested_at.len() >= 13 && k < 13 && tx.requested_at[k] < 0x30 ==> features(tx) == Err::<
            FeaturesView,
            Unfit,
        >(Unfit::OutOfRange),
        timestamp::is_written(tx.requested_at) && 1 <= timestamp::month_of(tx.requested_at) <= 12
            && tx.last_tx_km is Some && tx.last_tx_timestamp is Some
            && tx.last_tx_timestamp->0.len() >= 16 && tx.last_tx_timestamp->0[k] < 0x30
            ==> features(tx) == Err::<FeaturesView, Unfit>(Unfit::OutOfRange),
        tx.requested_at.len() >= 16 && tx.requested_at[k] < 0x30 && tx.last_tx_km is Some
            && tx.last_tx_timestamp is Some ==> features(tx) is Err,
{
    if timestamp::is_written(tx.requested_at) {
        timestamp::a_written_timestamp_is_read(tx.requested_at);
    }
}

/// A merchant is known exactly if it is one of those that the customer knows.
pub proof fn a_merchant_is_known_by_its_name(tx: &ParsedTransaction<'_>, r: bool)
    requires
        tx.customer_known_merchants_len <= MAX_KNOWN_MERCHANTS,
        call_ensures(is_known_merchant, (tx,), r),
    ensures
        r <==> exists|k: int|
            0 <= k < tx.customer_known_merchants_len
                && #[trigger] tx.customer_known_merchants@[k]@ == tx.merchant_id@,
{
    let names = tx@.customer_known_merchants;
    if exists|k: int|
        0 <= k < tx.customer_known_merchants_len && #[trigger] tx.customer_known_merchants@[k]@
            == tx.merchant_id@ {
        let k = choose|k: int|
            0 <= k < tx.customer_known_merchants_len
                && #[trigger] tx.customer_known_merchants@[k]@ == tx.merchant_id@;
        assert(names[k] == tx.merchant_id@);
    }
    if names.contains(tx@.merchant_id) {
        let k = choose|k: int| 0 <= k < names.len() && names[k] == tx@.merchant_id;
        assert(tx.customer_known_merchants@[k]@ == tx.merchant_id@);
    }
}

/// A feature is scaled to what the given function gives for it, and to nothing else.
pub proof fn features_are_scaled_as_given<E: for <'b>Fn(Feature<'b>) -> u32>(
    scale: E,
    feature: FeatureView,
    bits: u32,
    given: u32,
)
    requires
        may_scale(scale, feature, bits),
        forall|f: Feature<'_>, b: u32|
            f@ == feature && #[trigger] call_ensures(scale, (f,), b) ==> b == given,
    ensures
        bits == given,
{
}

} // verus!
