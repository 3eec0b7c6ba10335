pub mod error;
mod number;
pub mod roman;
pub mod system;
mod table;
mod text;

pub use error::ConversionError;
pub use roman::{RomanNumber, RomanNumeral};
pub use system::{NumericSystem, Rate};
