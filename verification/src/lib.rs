//! Binary delta encoding: compute a compact patch that turns one byte buffer
//! into another, and replay such a patch against the original buffer to
//! reconstruct the other.
//!
//! The central guarantee is the round trip: `make_patch` ensures that the
//! patch model applies its result to the base buffer and yields exactly the
//! new buffer, and `apply_patch` ensures that it returns exactly what the
//! model says — the reconstructed buffer on success, and on failure the
//! error the model assigns and no output at all. Corruption detection is
//! proved on top of the model: a wrong magic tag and any truncation of a
//! valid patch are rejected, never silently misapplied.

pub mod apply;
pub mod encode;
pub mod format;
pub mod laws;
pub mod model;
pub mod rle;
pub mod search;
pub mod suffix;

pub use apply::apply_patch;
pub use encode::make_patch;
pub use model::Ctrl;
pub use model::PatchError;
