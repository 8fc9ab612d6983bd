//! Reading and writing Scala scale files (`.scl`): a description, a count and
//! one pitch per line, each pitch a cents value or a frequency ratio.
//!
//! [`Scale::from_str`] reads a file and [`Scale::to_string`] writes one;
//! [`Note::from_str`] and [`Note::to_string`] do the same for a single pitch.
//! What each of them returns is stated over the text as a sequence of
//! characters: see `scale_of_text` and `text_of_scale` in [`scale`], and
//! `note_of_token` and `token_of_note` in [`note`]. The module [`laws`] proves
//! what holds of them together: that what was written is read back, that
//! comments change nothing, and that a file holds as many notes as it says.
//!
//! A cents value is held as the decimal literal that denotes it, a ratio as
//! two numbers of 32 bits in lowest terms.

pub mod cents;
pub mod decimal;
pub mod laws;
pub mod note;
pub mod ratio;
pub mod scale;
pub mod text;

pub use note::{Note, NoteError};
pub use scale::{Scale, ScaleError};
