//! Selection vectors for columnar query evaluation.
//!
//! A [`SelectionVector`](selection::SelectionVector) records which rows of a
//! columnar batch are still active while predicates are applied. It keeps one
//! of two interchangeable representations — a dense bitmap or a sparse,
//! strictly increasing index list — together with cached totals, and offers
//! iteration and set algebra (intersection and union) over them.

pub mod bits;
pub mod model;
pub mod selection;

pub use selection::SelectionError;
pub use selection::SelectionVector;
