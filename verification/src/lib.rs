//! Minimal lossless compression and decompression library for embedded use,
//! built around fixed caller-owned buffers: no allocation happens inside a
//! call, and encoder and decoder agree on the wire format through a shared
//! [`Config`] value exchanged out of band.
//!
//! The stream is a flat sequence of tokens packed most-significant-bit-first:
//! a literal token is a `1` tag bit followed by the raw byte in 8 bits, and a
//! backreference token is a `0` tag bit followed by `distance - 1` in `w` bits
//! and `length - 1` in `l` bits, where `2^w` bounds the backreference distance
//! and `2^l` bounds its run length.

use vstd::prelude::*;

mod bits;
mod decoder;
mod encoder;
mod laws;

pub use decoder::{decode, DecodeError, DecoderState, HeatshrinkDecoder};
pub use encoder::{encode, lemma_encode_output_bound, EncodeError, HeatshrinkEncoder};
pub use laws::{lemma_backref_exactness, lemma_round_trip};

verus! {

/// Configuration parameters shared by `encode` and `decode`.
///
/// Both sides of a stream must use bit-identical values, or the decoder
/// produces garbage; the format carries no copy of the configuration.
#[derive(Debug, Copy, Clone)]
pub struct Config {
    pub(crate) window_sz2: u8,
    pub(crate) lookahead_sz2: u8,
}

impl Config {
    /// The window exponent `w`: backreference distances are bounded by `2^w`.
    pub closed spec fn window(self) -> u8 {
        self.window_sz2
    }

    /// The lookahead exponent `l`: backreference run lengths are bounded by `2^l`.
    pub closed spec fn lookahead(self) -> u8 {
        self.lookahead_sz2
    }

    /// Both exponents lie in `[1, 16]`: the range every constructed
    /// configuration satisfies.
    pub open spec fn wf(self) -> bool {
        &&& 1 <= self.window() <= 16
        &&& 1 <= self.lookahead() <= 16
    }

    /// Creates a configuration with the given window and lookahead exponents,
    /// failing when either lies outside `[1, 16]`.
    pub fn new(window_sz2: u8, lookahead_sz2: u8) -> (r: Result<Self, &'static str>)
        ensures
            r is Ok <==> (1 <= window_sz2 <= 16 && 1 <= lookahead_sz2 <= 16),
            r matches Ok(c) ==> c.window() == window_sz2 && c.lookahead() == lookahead_sz2
                && c.wf(),
    {
        match Config::default().with_window(window_sz2) {
            Ok(c) => c.with_lookahead(lookahead_sz2),
            Err(e) => Err(e),
        }
    }

    /// Returns a copy with the window exponent replaced, after the same
    /// range validation as [`Config::new`].
    pub fn with_window(self, window_sz2: u8) -> (r: Result<Self, &'static str>)
        ensures
            r is Ok <==> 1 <= window_sz2 <= 16,
            r matches Ok(c) ==> c.window() == window_sz2
                && c.lookahead() == self.lookahead(),
    {
        if window_sz2 > 16 {
            Err("Window is too large")
        } else if window_sz2 == 0 {
            Err("Window is too small")
        } else {
            Ok(Config { window_sz2, lookahead_sz2: self.lookahead_sz2 })
        }
    }

    /// Returns a copy with the lookahead exponent replaced, after the same
    /// range validation as [`Config::new`].
    pub fn with_lookahead(self, lookahead_sz2: u8) -> (r: Result<Self, &'static str>)
        ensures
            r is Ok <==> 1 <= lookahead_sz2 <= 16,
            r matches Ok(c) ==> c.lookahead() == lookahead_sz2
                && c.window() == self.window(),
    {
        if lookahead_sz2 > 16 {
            Err("Window is too large")
        } else if lookahead_sz2 == 0 {
            Err("Window is too small")
        } else {
            Ok(Config { window_sz2: self.window_sz2, lookahead_sz2 })
        }
    }
}

impl Default for Config {
    /// The default configuration: window exponent 11, lookahead exponent 4.
    fn default() -> (r: Self)
        ensures
            r.window() == 11,
            r.lookahead() == 4,
            r.wf(),
    {
        Config { window_sz2: 11, lookahead_sz2: 4 }
    }
}

} // verus!
