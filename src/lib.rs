//! A Mastermind codebreaker: a packed encoding of peg combinations, the
//! black/white scoring rule, and a minimax guess picker.

pub mod picker;
pub mod pins;
pub mod score;
pub mod secret;

pub use picker::{MinMaxPicker, Picker};
pub use pins::{Pins, COLORS, PINS, TOTAL_CONFIGS};
pub use score::{compute_score, is_score, Score};
