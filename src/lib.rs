//! A retained-mode scene core: an arena of visual elements arranged as a tree,
//! per-shape instance batches that mirror GPU instance buffers, a draw-order
//! compactor, and reactive values that request element updates.

pub mod record;
pub mod batch;
pub mod pulse;
pub mod arena;
pub mod scene;
pub mod compact;
pub mod tree;
pub mod render_state;
