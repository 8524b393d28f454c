//! A verified core for the ISO 8583 financial message family: the 192-bit
//! presence bitmap, field codecs (fixed, variable-length, composite bitmap),
//! message length indicator (MLI) framing, the per-connection framing state
//! machine, and an ISO 9564 format-0 PIN block generator.

pub mod bitmap;
pub mod conn;
pub mod encoding;
pub mod errors;
pub mod field;
pub mod fieldmap;
pub mod iso_spec;
pub mod mli;
pub mod pin;
pub mod radix;
pub mod roundtrip;
pub mod wire;

pub use bitmap::Bitmap;
pub use conn::{ConnState, ConnStep};
pub use encoding::Encoding;
pub use errors::{ParseError, IsoError, IsoServerError};
pub use field::{ChildField, FixedField, VarField};
pub use fieldmap::FieldMap;
pub use iso_spec::{BmpField, Field, FieldRef, IsoMsg, Spec, named_spec};
pub use mli::{MLIType, MLI, MLI2E, MLI2I, MLI4E, MLI4I};
pub use pin::{PinFormat, PinError, generate_pin_block};
