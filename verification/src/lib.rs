//! Terminal highlighting for unified diffs.
//!
//! The crate re-renders a diff stream with terminal color and style escapes,
//! highlighting the word-level differences inside each changed old/new line
//! pair.  It is organised as:
//!
//! * [`constants`]: the exact escape sequences emitted;
//! * [`text`]: character classification and small string helpers;
//! * [`tokenizer`]: splitting text into the smallest stylable units;
//! * [`script`]: token-level edit scripts between the two sides;
//! * [`token_collector`]: styled tokens and the renderer that turns a token
//!   stream into escaped output text;
//! * [`refiner`]: word-level diffing of one old/new text pair;
//! * [`line_collector`]: the line classifier and block accumulator driving
//!   everything above, and the ordered resolution of its work items.

pub mod constants;
pub mod line_collector;
pub mod refiner;
pub mod script;
pub mod text;
pub mod token_collector;
pub mod tokenizer;
