//! Codecs for two binary container formats of a game-asset pipeline: the PBO
//! archive (named byte blobs, string metadata, a trailing SHA-1 digest) and
//! the MLOD model (a sequence of detail-level meshes).
//!
//! Every codec works on byte slices held in memory. Each decoder is specified
//! by a `parse_*` spec function on the bytes that are left to read, and each
//! encoder by a spec function that gives the bytes it emits.

pub mod error;
pub mod wire;
pub mod p3d;
pub mod assoc;
pub mod pbo;
pub mod order;
pub mod text;
pub mod digest;
pub mod directory;
pub mod archive_laws;
pub mod model_laws;
pub mod directory_laws;
