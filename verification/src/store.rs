//! The persistence store, modelled over the contents of its one backing
//! resource: loading is lenient about an absent or empty resource and fatal
//! about a corrupt one, persisting renders the whole snapshot, and reset
//! always succeeds and leaves the resource absent.
//!
//! The surrounding program owns the actual file reads and writes; every
//! function here is a pure step of the store's behaviour on the resource's
//! contents.

use vstd::prelude::*;

use crate::book::{OB, SnapV};
use crate::doc::{doc_bytes, parse_doc, spec_doc_text, spec_parse_doc, wf_snap,
    lemma_doc_round_trip};
use crate::errors::RequestError;

verus! {

pub open spec fn empty_snap() -> SnapV {
    SnapV { buys: Seq::empty(), sells: Seq::empty() }
}

/// What loading yields from the backing resource's contents: an absent or
/// empty resource is an empty snapshot, an unparsable one is corrupt state.
pub open spec fn spec_load(content: Option<Seq<u8>>) -> Result<SnapV, RequestError> {
    match content {
        None => Ok(empty_snap()),
        Some(c) => if c.len() == 0 {
            Ok(empty_snap())
        } else {
            match spec_parse_doc(c) {
                Some(s) => Ok(s),
                None => Err(RequestError::CorruptState),
            }
        },
    }
}

/// Loads the snapshot from the resource's contents, or creates an empty
/// one where the resource is absent or empty; a present but unparsable
/// resource is a fatal corrupt-state error, never a fabricated empty book.
pub fn load_or_create(content: Option<&Vec<u8>>) -> (r: Result<OB, RequestError>)
    ensures
        ({
            let cv = match content {
                Some(c) => Some(c@),
                None => None::<Seq<u8>>,
            };
            match r {
                Ok(ob) => spec_load(cv) == Ok::<SnapV, RequestError>(ob@),
                Err(e) => spec_load(cv) == Err::<SnapV, RequestError>(e),
            }
        }),
{
    match content {
        None => Ok(OB::empty()),
        Some(c) => {
            if c.len() == 0 {
                Ok(OB::empty())
            } else {
                match parse_doc(c) {
                    Some(ob) => Ok(ob),
                    None => Err(RequestError::CorruptState),
                }
            }
        },
    }
}

/// Renders the snapshot as the full new contents of the backing resource:
/// every persist replaces the prior contents wholesale.
pub fn persist_order_book(ob: &OB) -> (content: Vec<u8>)
    ensures
        content@ == spec_doc_text(ob@),
{
    doc_bytes(ob)
}

/// The backing resource after a reset: absent, whatever it held before.
pub open spec fn spec_reset_resource(state: Option<Seq<u8>>) -> Option<Seq<u8>> {
    None
}

/// Resets the store. `present` says whether the caller found the backing
/// resource; an already absent resource is reported as success too, with
/// its own descriptive message.
pub fn reset(present: bool) -> (r: Result<String, RequestError>)
    ensures
        match r {
            Ok(m) => m@ == if present {
                "Order book deleted successfully"@
            } else {
                "Order book was already absent"@
            },
            Err(_) => false,
        },
{
    if present {
        Ok(String::from_str("Order book deleted successfully"))
    } else {
        Ok(String::from_str("Order book was already absent"))
    }
}

/// Reset is idempotent: after one reset the resource is absent, and a
/// second reset leaves it just as absent; each call reports success.
pub proof fn lemma_reset_idempotent(state: Option<Seq<u8>>)
    ensures
        spec_reset_resource(state) is None,
        spec_reset_resource(spec_reset_resource(state)) == spec_reset_resource(state),
{
}

/// Persist-then-load identity: the rendering of a well-formed snapshot
/// loads back observationally equal.
pub proof fn lemma_persist_then_load(s: SnapV)
    requires
        wf_snap(s),
    ensures
        spec_load(Some(spec_doc_text(s))) == Ok::<SnapV, RequestError>(s),
{
    if spec_doc_text(s).len() == 0 {
        assert(s.buys.len() == 0) by {
            if s.buys.len() > 0 {
                assert(crate::doc::spec_side_lines(crate::doc::BUY_MARK, s.buys).len() > 0);
            }
        }
        assert(s.sells.len() == 0) by {
            if s.sells.len() > 0 {
                assert(crate::doc::spec_side_lines(crate::doc::SELL_MARK, s.sells).len() > 0);
            }
        }
        assert(s =~= empty_snap());
    } else {
        lemma_doc_round_trip(s);
    }
}

/// The cycle's persisted state survives: rendering the snapshot of any
/// well-formed live book — as every completed request does — and loading
/// that rendering yields the very same snapshot.
pub proof fn lemma_book_persist_round_trip(b: crate::book::BookV)
    requires
        crate::book::wf_book(b),
    ensures
        spec_load(Some(spec_doc_text(crate::book::spec_to_snapshot(b)))) == Ok::<
            SnapV,
            RequestError,
        >(crate::book::spec_to_snapshot(b)),
{
    crate::doc::lemma_wf_snap_of_book(b);
    lemma_persist_then_load(crate::book::spec_to_snapshot(b));
}

} // verus!
