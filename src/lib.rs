//! Codecs for the structured-data channels of text-game connections.
//!
//! MSDP carries tables of variables between a game server and its clients
//! as bytes framed by six sentinel bytes. `to_vec` encodes a `Value`;
//! `from_slice` decodes bytes as the `Shape` a caller expects, or
//! self-describingly with `Shape::Any`. Both are proved against the wire
//! grammar (`enc`, `parse`, `decode`), and the laws module states what holds
//! across them: values round-trip with their keys in lower case, a table cut
//! short misses its end, and a byte too many is trailing.
//!
//! Floating-point numbers are not part of the value model: a caller that
//! has one sends its decimal text as a string, and decoding never yields one.
//!
//! `gmcp` holds the envelope of the JSON-based sibling channel.
mod wire;
mod value;
mod error;
mod buf;
mod scan;
mod ser;
mod de;
pub mod gmcp;
mod laws;
mod keys;

pub use wire::{VAR, VAL, TABLE_START, TABLE_END, ARRAY_START, ARRAY_END};
pub use value::{Value, Val, Shape, Width, canon};
pub use error::{Error, Expected, Nom, ScanKind};
pub use ser::{Serializer, to_vec, enc};
pub use de::{Deserializer, from_slice, decode, parse};
pub use laws::{
    wf_val, conforms, stops, lemma_round_trip, lemma_trailing_byte, lemma_truncated_table,
    lemma_key_case, lemma_canon_idempotent, lemma_empty_encodings, lemma_decoded_canonical,
    lemma_key_case_ignored,
};
pub use keys::{in_key, lower_keys, lemma_key_case_decode};
