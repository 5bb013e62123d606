//! Green/red syntax trees and list-of-successes parser combinators.

pub mod green;
pub mod kinds;

pub use kinds::SyntaxKind;
pub mod red;
pub mod parser;
pub mod combinators;
pub mod repetition;
pub mod types;
