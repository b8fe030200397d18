//! Data model and canonical binary codec for Monero-style RingCT signature
//! bundles across the seven historical protocol eras, together with the
//! verified decision core of decoy-ring selection.
//!
//! The elliptic-curve algebra is out of scope: curve points travel through the
//! codec as opaque 32-byte compressed encodings, and the internal layout of
//! the range-proof and ring-signature payloads is carried as opaque bytes with
//! only their placement, count and sizing enforced.

pub mod decoys;
pub mod errors;
pub mod rct_type;
pub mod selection;
pub mod signatures;
pub mod prunable;
pub mod ringct;
pub mod chunks;
pub mod wire;
