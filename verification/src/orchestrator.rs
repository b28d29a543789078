//! The request orchestrator: every mutating operation runs the same four
//! linear stages against the store's contents — load, hydrate with the
//! optional new order, match, persist — and any load or hydrate failure
//! aborts the request before anything would be persisted.
//!
//! The surrounding program serializes whole requests: it holds one
//! exclusive lock around a full cycle, reads the backing resource before
//! calling in, and writes the returned contents back only on success.

use vstd::prelude::*;

use vstd::string::StringExecFns;

use crate::book::{BookV, LiveOrderBook, OB, spec_from_snapshot, spec_insert, spec_to_snapshot,
    wf_book};
use crate::doc::spec_doc_text;
use crate::engine::{FillRecord, run_match};
use crate::errors::RequestError;
use crate::order::RestingOrder;
use crate::store::{load_or_create, persist_order_book, spec_load};
use crate::strategy::Strategy;

verus! {

/// An order the snapshot document can carry: no document delimiter in its
/// symbol or client order id, and no key separator in its symbol.
pub open spec fn spec_acceptable(o: crate::order::OrderV) -> bool {
    &&& crate::bytes::text_free(o.symbol)
    &&& forall|j: int| 0 <= j < o.symbol.len() ==> o.symbol[j] != crate::bytes::SEP
    &&& crate::bytes::text_free(o.cl_ord_id)
}

/// Checks that an inbound order can be carried through the cycle.
pub fn acceptable_order(o: &RestingOrder) -> (r: bool)
    ensures
        r == spec_acceptable(o@),
{
    crate::engine::check_text_free(&o.symbol) && crate::engine::check_sep_free(&o.symbol)
        && crate::engine::check_text_free(&o.cl_ord_id)
}

/// What a completed request hands back: the matched book for display, the
/// fills the matcher produced, the exact contents to persist, and, as a
/// ghost, the hydrated pre-match book.
pub struct RequestOutcome {
    pub book: LiveOrderBook,
    pub fills: Vec<FillRecord>,
    pub content: Vec<u8>,
    pub pre_match: Ghost<BookV>,
}

/// The book the request works on before matching: the loaded snapshot
/// hydrated, with the inbound order, if any, appended to its level.
pub open spec fn spec_hydrated(s: crate::book::SnapV, order: Option<RestingOrder>) -> Option<
    BookV,
> {
    match spec_from_snapshot(s) {
        Some(b) => Some(
            match order {
                Some(o) => spec_insert(b, o@),
                None => b,
            },
        ),
        None => None,
    }
}

/// Loads the book from the backing resource's contents and, if an order
/// arrives, appends it to its price level. Errors are exact: corrupt state
/// exactly when a nonempty resource does not parse, a malformed key
/// exactly when some stored key does not decode; no partial book either
/// way, and nothing to persist.
pub fn get_order_book_from_file(content: Option<&Vec<u8>>, order: Option<RestingOrder>) -> (r:
    Result<LiveOrderBook, RequestError>)
    ensures
        ({
            let cv = match content {
                Some(c) => Some(c@),
                None => None::<Seq<u8>>,
            };
            match spec_load(cv) {
                Ok(s) => match r {
                    Ok(book) => spec_hydrated(s, order) == Some(book@),
                    Err(e) => e == RequestError::MalformedKey && spec_hydrated(s, order) is None,
                },
                Err(e) => r == Err::<LiveOrderBook, RequestError>(e),
            }
        }),
{
    let ob = match load_or_create(content) {
        Ok(ob) => ob,
        Err(e) => {
            return Err(e);
        },
    };
    let mut book = match OB::to(&ob) {
        Ok(b) => b,
        Err(e) => {
            return Err(e);
        },
    };
    match order {
        Some(o) => {
            book.add_order_to_order_book(o);
        },
        None => {},
    }
    Ok(book)
}

/// One full request cycle: load, hydrate with the optional inbound order,
/// run the selected matcher, and render the post-match snapshot as the new
/// resource contents. A request carrying no order still runs the whole
/// cycle and still yields contents to persist.
pub fn process_request(
    content: Option<&Vec<u8>>,
    order: Option<RestingOrder>,
    strategy: Strategy,
) -> (r: Result<RequestOutcome, RequestError>)
    ensures
        ({
            let cv = match content {
                Some(c) => Some(c@),
                None => None::<Seq<u8>>,
            };
            let bad = match order {
                Some(o) => !spec_acceptable(o@),
                None => false,
            };
            let fed = crate::engine::eng_seq(
                crate::engine::spec_flatten(spec_hydrated(spec_load(cv).unwrap(), order).unwrap()),
            );
            match r {
                Ok(out) => {
                    &&& !bad
                    &&& spec_load(cv) is Ok
                    &&& spec_hydrated(spec_load(cv).unwrap(), order) == Some(out.pre_match@)
                    &&& crate::engine::strategy_safe(fed, strategy is Prorata)
                    &&& wf_book(out.book@)
                    &&& out.content@ == spec_doc_text(spec_to_snapshot(out.book@))
                },
                Err(e) => {
                    ||| (e == RequestError::UnsupportedText && bad)
                    ||| (!bad && e == RequestError::CorruptState && spec_load(cv) == Err::<
                        crate::book::SnapV,
                        RequestError,
                    >(RequestError::CorruptState))
                    ||| (!bad && e == RequestError::MalformedKey && spec_load(cv) is Ok
                        && spec_hydrated(spec_load(cv).unwrap(), order) is None)
                    ||| (!bad && e == RequestError::EngineUnsafe && spec_load(cv) is Ok
                        && spec_hydrated(spec_load(cv).unwrap(), order) is Some
                        && !crate::engine::strategy_safe(fed, strategy is Prorata))
                    ||| (!bad && e == RequestError::MatcherState && spec_load(cv) is Ok
                        && spec_hydrated(spec_load(cv).unwrap(), order) is Some
                        && crate::engine::strategy_safe(fed, strategy is Prorata))
                },
            }
        }),
{
    match &order {
        Some(o) => {
            if !acceptable_order(o) {
                return Err(RequestError::UnsupportedText);
            }
        },
        None => {},
    }
    let book = match get_order_book_from_file(content, order) {
        Ok(b) => b,
        Err(e) => {
            return Err(e);
        },
    };
    let ghost pre = book@;
    let (matched, fills) = match run_match(&book, strategy) {
        Ok(p) => p,
        Err(e) => {
            return Err(e);
        },
    };
    let snap = OB::from(&matched);
    let bytes = persist_order_book(&snap);
    Ok(RequestOutcome { book: matched, fills, content: bytes, pre_match: Ghost(pre) })
}

/// The backing resource after a request under the store's protocol: a
/// successful outcome replaces the contents wholesale, a failed one leaves
/// them untouched — the outcome type itself carries contents only on
/// success, and the surrounding program writes only then.
pub open spec fn spec_resource_after(
    state: Option<Seq<u8>>,
    r: Result<RequestOutcome, RequestError>,
) -> Option<Seq<u8>> {
    match r {
        Ok(out) => Some(out.content@),
        Err(_) => state,
    }
}

/// A failed request persists nothing: whatever made the cycle abort — a
/// corrupt resource, a malformed stored key, unsupported text, or the
/// matching boundary — the backing resource's contents are unchanged by
/// the failed attempt.
pub proof fn lemma_failed_request_persists_nothing(
    state: Option<Seq<u8>>,
    r: Result<RequestOutcome, RequestError>,
)
    requires
        r is Err,
    ensures
        spec_resource_after(state, r) == state,
{
}

/// The greeting of the form page.
pub fn index() -> (r: &'static str)
    ensures
        r@ == "Please fill the form"@,
{
    "Please fill the form"
}

/// The message for a path that is not served.
pub fn not_found(path: &str) -> (r: String)
    ensures
        r@ == "The requested path "@ + path@ + " , is not available "@,
{
    let mut s = String::from_str("The requested path ");
    s.append(path);
    s.append(" , is not available ");
    s
}

/// The message for a submission that could not be processed.
pub fn malformed(detail: &str) -> (r: String)
    ensures
        r@ == "the submitted data could not be processed! '"@ + detail@ + "'"@,
{
    let mut s = String::from_str("the submitted data could not be processed! '");
    s.append(detail);
    s.append("'");
    s
}

} // verus!
