//! The packed representation of a text, and the errors of reading one back.
use vstd::prelude::*;

verus! {

/// The container version that this library writes.
pub const VERSION: u64 = 3;

/// Why a buffer could not be read back.
#[derive(Debug, Clone, Copy, PartialEq, Eq, Structural)]
pub enum SmolError {
    /// The input ends before a field or a symbol that it announces.
    TruncatedInput,
    /// The input does not start with the `smol` tag.
    BadMagic,
    /// A variable-length integer runs past the end of the input or past 64 bits.
    MalformedVarint,
    /// A symbol that the mode machine cannot take where it stands.
    InvalidSymbol,
    /// The bytes of a raw literal are not UTF-8.
    InvalidUtf8,
}

/// What a blob holds, as plain values.
pub struct BlobView {
    pub version: u64,
    pub symbol_count: u64,
    pub payload: Seq<u8>,
}

/// A chunk of smol data: the packed buffer, how many symbols it holds, and the
/// container version that describes it. Built by encoding or by unwrapping a frame.
pub struct SmolBlob {
    version: u64,
    buffer: Vec<u8>,
    size: u64,
}

impl View for SmolBlob {
    type V = BlobView;

    closed spec fn view(&self) -> BlobView {
        BlobView { version: self.version, symbol_count: self.size, payload: self.buffer@ }
    }
}

/// The number of whole symbols that fit in `n` bytes.
pub open spec fn symbols_in(n: nat) -> nat {
    8 * n / 5
}

impl BlobView {
    /// A version-1 blob carries no symbol count: its count is whatever fits in its payload.
    pub open spec fn wf(self) -> bool {
        self.version == 1 ==> self.symbol_count == symbols_in(self.payload.len()) as u64
    }
}

impl Default for SmolBlob {
    /// An empty blob of the current version.
    fn default() -> (r: SmolBlob)
        ensures
            r@ == (BlobView { version: VERSION, symbol_count: 0, payload: Seq::empty() }),
    {
        SmolBlob { version: VERSION, buffer: Vec::new(), size: 0 }
    }
}

impl SmolBlob {
    /// A blob of the given parts.
    pub(crate) fn from_parts(version: u64, buffer: Vec<u8>, size: u64) -> (r: SmolBlob)
        ensures
            r@ == (BlobView { version, symbol_count: size, payload: buffer@ }),
    {
        SmolBlob { version, buffer, size }
    }

    /// The container version.
    pub fn version(&self) -> (r: u64)
        ensures
            r == self@.version,
    {
        self.version
    }

    /// The number of symbols packed in the payload, control symbols included.
    pub fn symbol_count(&self) -> (r: u64)
        ensures
            r == self@.symbol_count,
    {
        self.size
    }

    /// The packed bytes.
    pub fn payload(&self) -> (r: &Vec<u8>)
        ensures
            r@ == self@.payload,
    {
        &self.buffer
    }
}

} // verus!
