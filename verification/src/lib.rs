//! Lazy enumeration of the candidate fillings of a single picross line.
//!
//! The engine is built from small pull-driven generators: a bounded counter
//! ([`Counter`]), a generator of all-positive compositions of a fixed sum and
//! length ([`Hfill`]), a generator of compositions whose first and last entry
//! may be zero ([`Xfill`]), an alternating merge of two sequences ([`Blend`]),
//! and the puzzle-facing assembly of gap/run layouts ([`FillCombine`]).
//!
//! Every generator carries a mathematical view: the sequence of values it has
//! yet to produce. Constructors pin that view down as a function of their
//! arguments, and each pull removes exactly the first element of the view.

pub mod blend;
pub mod compose;
pub mod count;
pub mod counter;
pub mod line;
pub mod relax;
pub mod sums;

pub use blend::{blend, blend_seq, Blend};
pub use compose::{hfill, hfill_seq, Hfill};
pub use counter::{counting, Counter};
pub use line::{fill_combine, line_fills_seq, FillCombine};
pub use relax::{xfill, xfill_seq, FillError, Xfill};
pub use sums::seq_sum;
