//! The choices that a front end offers: what to do, and what a token is.
use vstd::prelude::*;

verus! {

/// Whether to compress or to decompress.
#[derive(Clone, Copy, Debug, PartialEq, Eq)]
pub enum Mode {
    Compress,
    Decompress,
}

/// Whether a token is one character or one word with the space that ends it.
#[derive(Clone, Copy, Debug, PartialEq, Eq)]
pub enum TokenType {
    Chars,
    Words,
}

/// The settings of one run: mode, token type, and where to read and write
/// (standard input and output where no path is given).
#[derive(Debug)]
pub struct Args {
    pub mode: Mode,
    pub token_type: TokenType,
    pub in_file: Option<String>,
    pub out_file: Option<String>,
}

} // verus!
