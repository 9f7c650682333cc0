//! A verified JSON codec for a host-term value model.
//!
//! [`value::Value`] models the JSON-representable structured values of a
//! managed host runtime: the absent marker, booleans, 64-bit signed
//! integers, text, ordered sequences, and mappings whose key order is
//! preserved as inserted. [`encode::encode_compact`] and
//! [`encode::encode_pretty`] serialize a value to minimal or indented
//! JSON text, byte for byte as the specification functions state;
//! [`decode::decode`] parses JSON text back, validating string contents
//! as UTF-8, with every error case and failure position pinned by a
//! ghost parser. The laws in [`laws`] prove
//! that decoding inverts both encoders for every well-formed value, that
//! re-encoding is idempotent, and that whitespace around a document is
//! insignificant.

pub mod value;
pub mod encode;
pub mod decode;
pub mod laws;
