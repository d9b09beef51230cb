use vstd::prelude::*;
use crate::value::BStreamingError;

verus! {

/// The kinds of value that a typed extraction can ask for.
#[derive(Clone, Copy, Debug, PartialEq, Eq, Structural)]
pub enum Kind {
    Integer,
    ByteString,
    List,
    Dictionary,
}

/// Why a decoded value could not be read as the structure asked for.
#[derive(Debug)]
pub enum BencodeDecodableError {
    /// A required key is absent; holds the key.
    KeyNotFound(String),
    /// A value is present with another shape; holds the kind expected.
    WrongType(Kind),
    /// A value has the right type but breaks an invariant; holds the key
    /// and the offending number (a length, or a value).
    StructuralValidation(String, u64),
}

/// The model of a decoding error.
pub enum DecodeFailure {
    KeyNotFound(Seq<char>),
    WrongType(Kind),
    StructuralValidation(Seq<char>, int),
}

impl View for BencodeDecodableError {
    type V = DecodeFailure;

    open spec fn view(&self) -> DecodeFailure {
        match self {
            BencodeDecodableError::KeyNotFound(k) => DecodeFailure::KeyNotFound(k@),
            BencodeDecodableError::WrongType(t) => DecodeFailure::WrongType(*t),
            BencodeDecodableError::StructuralValidation(k, n) => DecodeFailure::StructuralValidation(
                k@,
                *n as int,
            ),
        }
    }
}

/// Why a torrent buffer could not be read.
#[derive(Debug)]
pub enum ReadTorrentError {
    /// The buffer is not one well-formed encoded value.
    StreamingError(BStreamingError),
    /// The value does not have the shape of a torrent.
    BencodeDecodableError(BencodeDecodableError),
}


/// The model of a torrent reading error.
pub enum ReadFailure {
    Syntax,
    Decode(DecodeFailure),
}

impl View for ReadTorrentError {
    type V = ReadFailure;

    open spec fn view(&self) -> ReadFailure {
        match self {
            ReadTorrentError::StreamingError(_) => ReadFailure::Syntax,
            ReadTorrentError::BencodeDecodableError(e) => ReadFailure::Decode(e@),
        }
    }
}

} // verus!
