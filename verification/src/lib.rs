//! Container for STARK proofs, its binary wire format, and estimators of the
//! soundness (in bits) that a proof configuration achieves.

pub mod arith;
pub mod codec;
pub mod commitments;
pub mod container;
pub mod context;
pub mod fri;
pub mod ood_frame;
pub mod options;
pub mod queries;
pub mod security;
pub mod trace;

pub use codec::{DeserializationError, InvalidValue, SliceReader};
pub use commitments::Commitments;
pub use container::StarkProof;
pub use context::Context;
pub use fri::{FriProof, FriProofLayer};
pub use ood_frame::OodFrame;
pub use options::{FieldExtension, ProofOptions};
pub use queries::Queries;
pub use security::{
    compute_upper_m, get_conjectured_security, get_proven_security,
    proven_security_protocol_for_m, ErrorBits, SecurityError,
};
pub use trace::{TraceInfo, TraceLayout};
