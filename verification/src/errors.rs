//! The error taxonomy of the request cycle.

use vstd::prelude::*;

verus! {

/// Why a request, a key decode, or a snapshot load failed.
#[derive(Clone, Copy, PartialEq, Eq, Structural, Debug)]
pub enum RequestError {
    /// An encoded key cannot be decoded back to a (symbol, price) identity.
    MalformedKey,
    /// The persisted resource exists but is not a parsable snapshot document.
    CorruptState,
    /// An inbound order carries text the snapshot document cannot hold: a
    /// comma, bar or newline in the symbol or client order id, or the key
    /// separator in the symbol, which order entry must keep out of symbols.
    UnsupportedText,
    /// The book cannot be handed to the engine's matchers without failure:
    /// a client order id repeated within one price level, a quantity or a
    /// price beyond what their arithmetic carries, text beyond the
    /// seven-bit range their string conversion keeps distinct, or, for
    /// pro-rata, a sell side outweighing the buys it is rationed against.
    EngineUnsafe,
    /// The matched book came back outside the representable model (a price
    /// with more than cent precision, for instance).
    MatcherState,
}

} // verus!
