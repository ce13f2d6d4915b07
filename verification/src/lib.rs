//! Recognition of ANSI/VT terminal escape sequences in text: where each
//! sequence starts and ends, and the text with the sequences replaced.

pub mod grammar;
pub mod laws;
pub mod pattern;
pub mod scanner;
pub mod shapes;
pub mod text;

pub use crate::grammar::Category;
pub use crate::pattern::pattern;
pub use crate::pattern::ANSI_REGEX_PATTERN;
pub use crate::scanner::find_all;
pub use crate::scanner::find_first;
pub use crate::scanner::matched_text;
pub use crate::scanner::replace_all;
pub use crate::scanner::Match;
