//! Parsers for the kernel's mount and swap tables, with octal escapes in
//! path fields decoded byte for byte.
pub mod error;
pub mod escape;
pub mod mounts;
pub mod number;
pub mod swaps;
pub mod table;
pub mod text;

pub use error::{EscapeError, Field, NumberError, ParseError};
pub use escape::decode_value;
pub use mounts::{MountInfo, MountList};
pub use swaps::{SwapInfo, SwapList};
