//! QR code generation: segment planning, encoding, Reed-Solomon error
//! correction, matrix placement, masking and format information.
use vstd::prelude::*;

pub mod bitstream;
pub mod ecc;
pub mod encoder;
pub mod generator;
pub mod options;
pub mod qr;
pub mod scanner;
pub mod tables;

verus! {

/// Error-correction level of a symbol; about 7%, 15%, 25% or 30% of the
/// codewords can be restored.
#[derive(Debug, Clone, Copy, PartialEq, Eq, Structural)]
pub enum ECCLevel {
    Low,
    Medium,
    Quartile,
    High,
}

/// Errors surfaced by the encoding pipeline.
#[derive(Debug, Clone, Copy, PartialEq, Eq, Structural)]
pub enum QrError {
    /// The input holds no characters.
    EmptyInput,
    /// No symbol version up to 40 can hold the input at the chosen level.
    InputTooLarge,
    /// The requested minimum version lies outside 1..=40.
    InvalidMinVersion,
    /// A kanji segment holds a character without a two-byte Shift-JIS form.
    EncodingFailure,
}

} // verus!
