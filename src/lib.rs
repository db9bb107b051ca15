//! Human-readable, type-tagged identifiers of the form `<prefix>_<body>`.
pub mod cb32u128;
pub mod text;
pub mod cuid2;
pub mod prefix;
pub mod prefixed;

pub use cb32u128::{Cb32u128, Cb32u128ParseError};
pub use cuid2::{Cuid2, Cuid2ParseError};
pub use prefix::{encode_bytes, Prefix, ShortPrefix};
pub use prefixed::{IdBody, PrefixedId, PrefixedIdParseError};
