//! A canonical binary codec for ledger action payloads.
//!
//! An [`action::Action`] is one state-transition request of a closed set
//! of ten variants. The crate encodes an action to a byte-exact,
//! deterministic wire form (a length-prefixed list-of-items encoding),
//! decodes bytes back strictly — accepting exactly the canonical
//! encodings and rejecting everything else with a typed error — and
//! derives a 32-byte content hash over the canonical bytes.
//!
//! The wire format itself is modelled in [`rlp_spec`]; every encoder in
//! [`rlp_enc`] and every parser in [`rlp_dec`] is proved against that
//! model, so the round trip, the injectivity of the encoding and the
//! exact error classification are theorems, not conventions.
pub mod rlp_spec;
pub mod rlp_enc;
pub mod rlp_dec;
pub mod ext;
pub mod action;
