//! Indirect-object renumbering for a byte-serialized document format.
//!
//! Objects are stored back to back in a byte buffer as
//! `<id> <gen> obj ... endobj`, and may point at one another through inline
//! `<id> <gen> R` reference tokens. Renumbering rewrites every object id
//! (never its generation) through a caller-supplied mapping, patching every
//! valid reference in every object body, while copying all other bytes
//! through unchanged — including reference-shaped text inside comments,
//! string literals, and opaque stream payloads.

pub mod chunk;
pub mod geom;
pub mod mapping;
pub mod patch;
pub mod scanner;
pub mod vtf;

pub use chunk::renumber;
pub use chunk::Chunk;
pub use geom::ApproxEqUlps;
pub use geom::ApproxZeroUlps;
pub use geom::IsValidLength;
pub use scanner::is_whitespace;
