//! Interactive path finder core: enumerate filesystem entries under a root,
//! score them against a typed query, and keep the best K in ranked order.

pub mod rank;
pub mod score;
pub mod session;
pub mod walk;

pub use rank::fuzzy;
pub use rank::select_top_k;
pub use score::score;
pub use walk::walk_dir;
