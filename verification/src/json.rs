//! The JSON value model, its parser and its serializer.

pub mod ascii;
pub mod cursor;
pub mod error;
pub mod grammar;
pub mod laws;
pub mod model;
pub mod number;
pub mod parse;
pub mod round_trip;
pub mod scan;
pub mod serialize;
pub mod text;
pub mod value;

pub use cursor::Cursor;
pub use error::Error;
pub use model::Json;
pub use parse::{parse_false, parse_json, parse_null, parse_str, parse_true};
pub use serialize::{serialize_json, serialize_str};
pub use value::{Object, Value};
