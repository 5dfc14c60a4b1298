//! Single-object binary encoding: a two-byte marker and an eight-byte schema
//! fingerprint in front of a binary datum, with decoding under the writer's
//! schema alone or resolved into the shape of a reader's schema.

pub mod canonical;
pub mod conformance;
pub mod error;
pub mod fingerprint;
pub mod frame;
pub mod laws;
pub mod object;
pub mod outcome;
pub mod promote;
pub mod reader;
pub mod resolve;
pub mod roundtrip;
pub mod schema;
pub mod source;
pub mod steady;
pub mod value;
pub mod varint;
pub mod writer;

pub use error::{Error, ErrorKind};
pub use fingerprint::{fingerprint, Fingerprint};
pub use object::{read_local, resolve, write_single_object};
pub use schema::{Field, Schema};
pub use source::{Lookup, PendingRead};
pub use value::Value;
