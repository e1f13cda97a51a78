//! How a complete request is answered.
use vstd::prelude::*;
use vstd::string::*;
use crate::bytes;
use crate::http_parser::{HttpRoute, RouteView};
use crate::json_parser;
use crate::json_parser::{read_payload, Stop, TransactionView};
use crate::kmeans;
use crate::knn;
use crate::knn::{IvfIndex, Probing, Query, Weighing};
use crate::lookups::MCC_CODES;
use crate::records::Dataset;
use crate::response;
use crate::response::{plain_response, scored_response};
use crate::vectorizer;
use crate::vectorizer::{read_features, to_vector, Feature, Features, FeaturesView, Unfit};

verus! {

/// What is loaded before transactions can be scored, with the arithmetic of scoring: `scale`
/// scales a feature to a real number, `distance` is the distance of two vectors, `kernel`
/// weighs neighbours, and `tenths` gives a score in tenths.
pub struct AppState<'a, E, D, S, N> {
    /// The risks of the kinds of merchants.
    pub risks: Vec<u32>,
    pub dataset: Dataset<'a>,
    pub index: IvfIndex<'a>,
    pub probing: Probing,
    pub scale: E,
    pub distance: D,
    pub kernel: S,
    pub tenths: N,
}

impl<
    'a,
    E: for <'b>Fn(Feature<'b>) -> u32,
    D: Fn([u32; 16], [u32; 16]) -> u32,
    S: Fn(Weighing) -> u32,
    N: Fn(u32) -> u32,
> AppState<'a, E, D, S, N> {
    /// The table is complete, the widths fit, and all arithmetic can be done.
    pub open spec fn wf(&self) -> bool {
        &&& self.probing.wf()
        &&& self.risks@.len() == MCC_CODES
        &&& vectorizer::is_scale(self.scale)
        &&& kmeans::is_distance(self.distance)
        &&& knn::is_kernel(self.kernel)
        &&& forall|score: u32| #[trigger] call_requires(self.tenths, (score,))
    }

    /// Whether a transaction with these features may have this vector.
    pub open spec fn may_embed(&self, features: FeaturesView, vector: [u32; 16]) -> bool {
        vectorizer::is_vector(self.scale, self.risks@, features, vector@)
    }

    /// Whether a transaction with these features may be scored so: by the records that are
    /// found. There is no score if the index does not fit the records where they are searched.
    pub open spec fn may_score(&self, features: FeaturesView, r: Option<(bool, u32)>) -> bool {
        exists|vector: [u32; 16]| #[trigger]
            self.may_embed(features, vector) && knn::may_come_out(
                self.index.data,
                self.dataset@,
                (Query { vector, distance: &self.distance }),
                self.kernel,
                self.probing,
                r,
            )
    }

    /// Whether the transaction in a body may be answered so. There is no answer if a number in
    /// it is out of range, or there is no score.
    pub open spec fn may_answer(&self, body: Seq<u8>, answer: Option<(u16, Seq<u8>)>) -> bool {
        if body.len() == 0 {
            answer == Some((400u16, response::plain(400)))
        } else {
            match json_parser::payload(body) {
                Err(Stop::OutOfRange) => answer is None,
                Err(Stop::Malformed) => answer == Some((400u16, response::plain(400))),
                Ok(tx) => match vectorizer::features(tx) {
                    Err(Unfit::OutOfRange) => answer is None,
                    Err(Unfit::NoTime) => answer == Some((422u16, response::plain(422))),
                    Ok(features) => exists|r: Option<(bool, u32)>| #[trigger]
                        self.may_score(features, r) && match r {
                            None => answer is None,
                            Some((approved, score)) => exists|t: u32| #[trigger]
                                call_ensures(self.tenths, (score,), t) && answer == Some(
                                    (200u16, response::scored(approved, t as int)),
                                ),
                        },
                },
            }
        }
    }

    /// Scores a transaction.
    fn score<'b>(&self, features: Features<'b>) -> (r: Option<(bool, u32)>)
        requires
            self.wf(),
        ensures
            self.may_score(features@, r),
    {
        let vector = to_vector(&features, &self.risks, &self.scale);
        assert(self.may_embed(features@, vector));
        let query = Query { vector, distance: &self.distance };
        self.index.try_search(&query, &self.dataset, self.probing, &self.kernel)
    }

    /// Answers the transaction in a body.
    fn answer(&self, body: &[u8]) -> (r: Option<(u16, Vec<u8>)>)
        requires
            self.wf(),
        ensures
            self.may_answer(body@, answer_view(r)),
            r matches Some((_, response)) ==> response@.len() <= 256,
    {
        if body.len() == 0 {
            return Some((400, plain_response(400)));
        }
        let tx = match read_payload(body) {
            Ok(tx) => tx,
            Err(Stop::Malformed) => {
                return Some((400, plain_response(400)));
            },
            Err(Stop::OutOfRange) => {
                return None;
            },
        };
        let features = match read_features(&tx) {
            Ok(features) => features,
            Err(Unfit::NoTime) => {
                return Some((422, plain_response(422)));
            },
            Err(Unfit::OutOfRange) => {
                return None;
            },
        };
        let ghost view = features@;
        let r = self.score(features);
        assert(self.may_score(view, r));
        match r {
            None => None,
            Some((approved, score)) => {
                let tenths = &self.tenths;
                let t = tenths(score);
                assert(call_ensures(self.tenths, (score,), t));
                Some((200, scored_response(approved, t)))
            },
        }
    }
}

/// Whether a request may be answered so, before anything is loaded or after.
pub open spec fn may_answer<
    'a,
    E: for <'b>Fn(Feature<'b>) -> u32,
    D: Fn([u32; 16], [u32; 16]) -> u32,
    S: Fn(Weighing) -> u32,
    N: Fn(u32) -> u32,
>(
    state: Option<AppState<'a, E, D, S, N>>,
    route: RouteView,
    answer: Option<(u16, Seq<u8>)>,
) -> bool {
    match route {
        RouteView::Ready => answer == if state is Some {
            Some((200u16, response::plain(200)))
        } else {
            Some((503u16, response::plain(503)))
        },
        RouteView::FraudScore(body) => match state {
            Some(loaded) => loaded.may_answer(body, answer),
            None => answer == Some((503u16, response::plain(503))),
        },
        RouteView::NotFound => answer == Some((404u16, response::plain(404))),
        RouteView::Incomplete => answer is None,
    }
}

/// What an answer stands for.
pub open spec fn answer_view(answer: Option<(u16, Vec<u8>)>) -> Option<(u16, Seq<u8>)> {
    match answer {
        Some((status, response)) => Some((status, response@)),
        None => None,
    }
}

/// Answers a complete request.
pub fn answer_request<
    'a,
    E: for <'b>Fn(Feature<'b>) -> u32,
    D: Fn([u32; 16], [u32; 16]) -> u32,
    S: Fn(Weighing) -> u32,
    N: Fn(u32) -> u32,
>(state: &Option<AppState<'a, E, D, S, N>>, route: &HttpRoute<'_>) -> (r: Option<(u16, Vec<u8>)>)
    requires
        *state matches Some(loaded) ==> loaded.wf(),
    ensures
        may_answer(*state, route@, answer_view(r)),
        r matches Some((_, response)) ==> response@.len() <= 256,
{
    match route {
        HttpRoute::Ready => {
            let status: u16 = match state {
                Some(_) => 200,
                None => 503,
            };
            Some((status, plain_response(status)))
        },
        HttpRoute::FraudScore(body) => match state {
            Some(loaded) => loaded.answer(*body),
            None => Some((503, plain_response(503))),
        },
        HttpRoute::NotFound => Some((404, plain_response(404))),
        HttpRoute::Incomplete => None,
    }
}

/// The server says that it is ready exactly if everything is loaded.
pub proof fn ready_exactly_when_loaded<
    'a,
    E: for <'b>Fn(Feature<'b>) -> u32,
    D: Fn([u32; 16], [u32; 16]) -> u32,
    S: Fn(Weighing) -> u32,
    N: Fn(u32) -> u32,
>(state: Option<AppState<'a, E, D, S, N>>, answer: Option<(u16, Seq<u8>)>)
    requires
        may_answer(state, RouteView::Ready, answer),
    ensures
        answer is Some,
        answer matches Some((status, _)) ==> (status == 200 <==> state is Some) && (status == 503
            <==> state is None),
{
}

/// Whether a body describes no transaction.
pub open spec fn is_malformed(body: Seq<u8>) -> bool {
    json_parser::payload(body) == Err::<TransactionView, Stop>(Stop::Malformed)
}

/// Whether a body describes a transaction without a time.
pub open spec fn has_no_time(body: Seq<u8>) -> bool {
    json_parser::payload(body) matches Ok(tx) && vectorizer::features(tx) == Err::<
        FeaturesView,
        Unfit,
    >(Unfit::NoTime)
}

/// Whether a body describes a transaction that has features.
pub open spec fn has_features(body: Seq<u8>) -> bool {
    json_parser::payload(body) matches Ok(tx) && vectorizer::features(tx) is Ok
}

/// Each status of a scoring request has one cause: 503 that nothing is loaded yet, 400 that
/// the body is empty or malformed, 422 that the transaction has no time, and 200 that it was
/// scored.
pub proof fn each_status_has_its_cause<
    'a,
    E: for <'b>Fn(Feature<'b>) -> u32,
    D: Fn([u32; 16], [u32; 16]) -> u32,
    S: Fn(Weighing) -> u32,
    N: Fn(u32) -> u32,
>(state: Option<AppState<'a, E, D, S, N>>, body: Seq<u8>, status: u16, response: Seq<u8>)
    requires
        may_answer(state, RouteView::FraudScore(body), Some((status, response))),
    ensures
        status == 503 <==> state is None,
        status == 400 <==> state is Some && (body.len() == 0 || is_malformed(body)),
        status == 422 <==> state is Some && body.len() > 0 && has_no_time(body),
        status == 200 <==> state is Some && body.len() > 0 && has_features(body),
{
}

/// Where the index fits the records, every request is answered whose numbers are in range.
pub proof fn every_request_is_answered<
    'a,
    E: for <'b>Fn(Feature<'b>) -> u32,
    D: Fn([u32; 16], [u32; 16]) -> u32,
    S: Fn(Weighing) -> u32,
    N: Fn(u32) -> u32,
>(state: Option<AppState<'a, E, D, S, N>>, body: Seq<u8>, answer: Option<(u16, Seq<u8>)>)
    requires
        may_answer(state, RouteView::FraudScore(body), answer),
        state matches Some(loaded) ==> loaded.wf() && knn::fits(
            loaded.index.data,
            loaded.dataset@,
        ),
        json_parser::in_range(body),
        json_parser::payload(body) matches Ok(tx) ==> vectorizer::in_range(tx),
    ensures
        answer is Some,
{
    if let Some(loaded) = state {
        if body.len() > 0 {
            if let Ok(tx) = json_parser::payload(body) {
                if let Ok(features) = vectorizer::features(tx) {
                    let r = choose|r: Option<(bool, u32)>| #[trigger]
                        loaded.may_score(features, r) && match r {
                            None => answer is None,
                            Some((approved, score)) => exists|t: u32| #[trigger]
                                call_ensures(loaded.tenths, (score,), t) && answer == Some(
                                    (200u16, response::scored(approved, t as int)),
                                ),
                        };
                    lemma_scored_if_fitting(loaded, features, r);
                }
            }
        }
    }
}

proof fn lemma_scored_if_fitting<
    'a,
    E: for <'b>Fn(Feature<'b>) -> u32,
    D: Fn([u32; 16], [u32; 16]) -> u32,
    S: Fn(Weighing) -> u32,
    N: Fn(u32) -> u32,
>(state: AppState<'a, E, D, S, N>, features: FeaturesView, r: Option<(bool, u32)>)
    requires
        state.may_score(features, r),
        state.probing.wf(),
        knn::fits(state.index.data, state.dataset@),
    ensures
        r is Some,
{
    let vector = choose|vector: [u32; 16]| #[trigger]
        state.may_embed(features, vector) && knn::may_come_out(
            state.index.data,
            state.dataset@,
            (Query { vector, distance: &state.distance }),
            state.kernel,
            state.probing,
            r,
        );
    knn::a_fitting_index_answers(
        state.index.data,
        state.dataset@,
        Query { vector, distance: &state.distance },
        state.kernel,
        state.probing,
        r,
    );
}

/// No response is empty.
pub proof fn responses_are_not_empty<
    'a,
    E: for <'b>Fn(Feature<'b>) -> u32,
    D: Fn([u32; 16], [u32; 16]) -> u32,
    S: Fn(Weighing) -> u32,
    N: Fn(u32) -> u32,
>(
    state: Option<AppState<'a, E, D, S, N>>,
    route: RouteView,
    status: u16,
    response: Seq<u8>,
)
    requires
        may_answer(state, route, Some((status, response))),
    ensures
        response.len() > 0,
{
    reveal_strlit("Content-Length: ");
    assert(is_ascii("Content-Length: "));
    reveal_strlit("}");
    assert(is_ascii("}"));
}

/// A transaction that is answered with status 200 has times to make a vector of; that vector is
/// searched for in what is loaded, with the arithmetic that is loaded; and the response tells
/// what the search decided, and its score in tenths.
pub proof fn a_scored_transaction_is_told_its_score<
    'a,
    E: for <'b>Fn(Feature<'b>) -> u32,
    D: Fn([u32; 16], [u32; 16]) -> u32,
    S: Fn(Weighing) -> u32,
    N: Fn(u32) -> u32,
>(state: AppState<'a, E, D, S, N>, body: Seq<u8>, response: Seq<u8>)
    requires
        may_answer(Some(state), RouteView::FraudScore(body), Some((200u16, response))),
    ensures
        json_parser::payload(body) is Ok,
        vectorizer::features(json_parser::payload(body)->Ok_0) is Ok,
        ({
            let features = vectorizer::features(json_parser::payload(body)->Ok_0)->Ok_0;
            exists|vector: [u32; 16], approved: bool, score: u32, t: u32|
                {
                    &&& #[trigger] vectorizer::is_vector(
                        state.scale,
                        state.risks@,
                        features,
                        vector@,
                    )
                    &&& #[trigger] call_ensures(state.tenths, (score,), t)
                    &&& knn::may_come_out(
                        state.index.data,
                        state.dataset@,
                        (Query { vector, distance: &state.distance }),
                        state.kernel,
                        state.probing,
                        Some((approved, score)),
                    )
                    &&& response == #[trigger] response::scored(approved, t as int)
                }
        }),
{
    let tx = json_parser::payload(body)->Ok_0;
    let features = vectorizer::features(tx)->Ok_0;
    let answer = Some((200u16, response));
    let r = choose|r: Option<(bool, u32)>| #[trigger]
        state.may_score(features, r) && match r {
            None => answer is None,
            Some((approved, score)) => exists|t: u32| #[trigger]
                call_ensures(state.tenths, (score,), t) && answer == Some(
                    (200u16, response::scored(approved, t as int)),
                ),
        };
    let (approved, score) = r->0;
    let t = choose|t: u32| #[trigger]
        call_ensures(state.tenths, (score,), t) && answer == Some(
            (200u16, response::scored(approved, t as int)),
        );
    let vector = choose|vector: [u32; 16]| #[trigger]
        state.may_embed(features, vector) && knn::may_come_out(
            state.index.data,
            state.dataset@,
            (Query { vector, distance: &state.distance }),
            state.kernel,
            state.probing,
            r,
        );
    assert(vectorizer::is_vector(state.scale, state.risks@, features, vector@));
}

/// Every answer but that of a scored transaction is the plain response that names its status. A
/// path that is not known is answered with 404, and a request that is not complete is not
/// answered.
pub proof fn every_other_answer_is_plain<
    'a,
    E: for <'b>Fn(Feature<'b>) -> u32,
    D: Fn([u32; 16], [u32; 16]) -> u32,
    S: Fn(Weighing) -> u32,
    N: Fn(u32) -> u32,
>(
    state: Option<AppState<'a, E, D, S, N>>,
    route: RouteView,
    answer: Option<(u16, Seq<u8>)>,
)
    requires
        may_answer(state, route, answer),
    ensures
        route is NotFound ==> answer is Some,
        route is Incomplete ==> answer is None,
        answer matches Some((status, response)) ==> (route is NotFound <==> status == 404) && (
        route is FraudScore && status == 200 || {
            &&& response.len() > 12
            &&& response.take(9) == "HTTP/1.1 ".spec_bytes()
            &&& bytes::decimal(response.subrange(9, 12)) == status
            &&& response == response::plain(status)
        }),
{
    response::a_response_names_its_status(200, true, 0);
    response::a_response_names_its_status(400, true, 0);
    response::a_response_names_its_status(404, true, 0);
    response::a_response_names_its_status(422, true, 0);
    response::a_response_names_its_status(503, true, 0);
}

/// A transaction is not answered where a number in it is out of range: nothing is made up for
/// it.
pub proof fn what_is_out_of_range_is_not_answered<
    'a,
    E: for <'b>Fn(Feature<'b>) -> u32,
    D: Fn([u32; 16], [u32; 16]) -> u32,
    S: Fn(Weighing) -> u32,
    N: Fn(u32) -> u32,
>(state: AppState<'a, E, D, S, N>, body: Seq<u8>, answer: Option<(u16, Seq<u8>)>)
    requires
        may_answer(Some(state), RouteView::FraudScore(body), answer),
        body.len() > 0,
        json_parser::payload(body) == Err::<TransactionView, Stop>(Stop::OutOfRange) || (
        json_parser::payload(body) is Ok && vectorizer::features(json_parser::payload(body)->Ok_0)
            == Err::<FeaturesView, Unfit>(Unfit::OutOfRange)),
    ensures
        answer is None,
{
}

/// Every request is answered as it may be.
pub proof fn a_request_is_answered_as_it_may_be<
    'a,
    E: for <'b>Fn(Feature<'b>) -> u32,
    D: Fn([u32; 16], [u32; 16]) -> u32,
    S: Fn(Weighing) -> u32,
    N: Fn(u32) -> u32,
>(
    state: Option<AppState<'a, E, D, S, N>>,
    route: &HttpRoute<'_>,
    r: Option<(u16, Vec<u8>)>,
)
    requires
        call_ensures(answer_request::<E, D, S, N>, (&state, route), r),
    ensures
        r is None ==> may_answer(state, route@, None),
        r matches Some((status, response)) ==> may_answer(
            state,
            route@,
            Some((status, response@)),
        ) && response@.len() <= 256,
{
}

} // verus!
