//! Conversion between XML text and JSON-like structured values.
//!
//! `JsonBuilder` decodes XML into a [`JsonValue`]; `XmlBuilder` encodes a
//! [`JsonValue`] back into XML text. Both are driven by immutable
//! configuration bundles built with `JsonConfig` and `XmlConfig`.

pub mod error;
pub mod json;
pub mod jsonparse;
pub mod jsontext;
pub mod xml;
pub mod text;
pub mod utils;
pub mod value;

pub use error::Error as X2JError;
pub use error::{Error, ErrorKind};
pub use json::{JsonBuilder, JsonConfig};
pub use value::JsonValue;
pub use xml::{Declaration, Encoding, Indentation, Version, XmlBuilder, XmlConfig};
