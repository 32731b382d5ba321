//! Schema-driven binary codec for a compact, protobuf-style wire format, as
//! a memory-constrained device uses it to talk to its host.
//!
//! The crate holds the read-only descriptor tables that describe message
//! shapes (`descriptor`), the wire primitives (`wire`, `envelope`), a decoder
//! that turns untrusted bytes into name-indexed records (`decode`), and a
//! two-phase encoder whose length pass exactly predicts the bytes the write
//! pass emits (`encode`). `laws` states and proves the codec's global
//! guarantees: encodings decode back to the record they came from, unknown
//! fields are skipped without a trace, and packed and unpacked repeated
//! fields decode alike. `ui` models the device's widget state logic around
//! the codec, kept apart from any rendering backend.

pub mod decode;
pub mod descriptor;
pub mod encode;
pub mod envelope;
pub mod err;
pub mod laws;
pub mod ui;
pub mod value;
pub mod wire;
