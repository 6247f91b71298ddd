//! Core types shared by the BitTorrent modules.
use vstd::prelude::*;
use crate::bittorrent::text::{concat, push_char};

pub mod bencode;
pub mod bencoder;
pub mod bedecoder;
pub mod roundtrip;

pub mod text;
pub mod utils;
pub mod hash;
pub mod bencodable;
pub mod wire;
pub mod bitfield;
pub mod peer;
pub mod peer_laws;
pub mod markers;
pub mod metainfo;
pub mod torrent;
pub mod manager;
pub mod torrent_runtime;
pub mod tracker;
pub mod timers;
pub mod status_order;
pub mod metainfo_laws;

verus! {

/// An error met while reading bencoded data, a torrent file or a peer message.
///
/// The `IO`, `Hyper` and `Uri` variants carry a description and the text of
/// the underlying error.
#[derive(Debug)]
pub enum ParseError {
    Parse(String),
    IO(String, String),
    Hyper(String, String),
    Uri(String, String),
}

impl ParseError {
    /// The description the error carries.
    pub open spec fn message(&self) -> Seq<char> {
        match self {
            ParseError::Parse(s) => s@,
            ParseError::IO(s, _) => s@,
            ParseError::Hyper(s, _) => s@,
            ParseError::Uri(s, _) => s@,
        }
    }

    /// The full text of the error: the description, and for a wrapped
    /// error `; Cause: ` and the text of the cause.
    pub open spec fn display_text(&self) -> Seq<char> {
        match self {
            ParseError::Parse(s) => s@,
            ParseError::IO(s, c) => s@ + "; Cause: "@ + c@,
            ParseError::Hyper(s, c) => s@ + "; Cause: "@ + c@,
            ParseError::Uri(s, c) => s@ + "; Cause: "@ + c@,
        }
    }

    /// The full text of the error (see `display_text`).
    pub fn to_text(&self) -> (r: String)
        ensures
            r@ == self.display_text(),
    {
        match self {
            ParseError::Parse(s) => s.clone(),
            ParseError::IO(s, c) => concat(concat(s.clone(), "; Cause: "), c.as_str()),
            ParseError::Hyper(s, c) => concat(concat(s.clone(), "; Cause: "), c.as_str()),
            ParseError::Uri(s, c) => concat(concat(s.clone(), "; Cause: "), c.as_str()),
        }
    }

    pub fn new(string: String) -> (r: ParseError)
        ensures
            r == ParseError::Parse(string),
    {
        ParseError::Parse(string)
    }

    pub fn new_str(string: &str) -> (r: ParseError)
        ensures
            r is Parse,
            r.message() == string@,
    {
        ParseError::Parse(string.to_string())
    }

    /// An error that wraps a failed input or output operation.
    pub fn new_cause(string: &str, cause: String) -> (r: ParseError)
        ensures
            r is IO,
            r.message() == string@,
            r->IO_1 == cause,
    {
        ParseError::IO(string.to_string(), cause)
    }

    /// The description the error carries.
    pub fn description(&self) -> (r: &str)
        ensures
            r@ == self.message(),
    {
        match self {
            ParseError::Parse(s) => s.as_str(),
            ParseError::IO(s, _) => s.as_str(),
            ParseError::Hyper(s, _) => s.as_str(),
            ParseError::Uri(s, _) => s.as_str(),
        }
    }

    /// An error whose description is `string`, ` : ` and the description of `cause`.
    pub fn from_parse(string: &str, cause: ParseError) -> (r: ParseError)
        ensures
            r is Parse,
            r.message() == string@ + " : "@ + cause.message(),
    {
        let s = concat(string.to_string(), " : ");
        ParseError::Parse(concat(s, cause.description()))
    }

    /// An error whose description is `string`, ` : ` and the description of `cause`.
    pub fn from_parse_string(string: String, cause: ParseError) -> (r: ParseError)
        ensures
            r is Parse,
            r.message() == string@ + " : "@ + cause.message(),
    {
        let s = concat(string, " : ");
        ParseError::Parse(concat(s, cause.description()))
    }
}

/// A block of a piece: `length` bytes at offset `begin` of piece `index`.
#[derive(PartialEq, Eq, Structural, Debug, Clone, Copy, Hash)]
pub struct Piece {
    pub index: u32,
    pub begin: u32,
    pub length: u32,
}

impl Piece {
    pub fn new(index: u32, begin: u32, length: u32) -> (r: Piece)
        ensures
            r == (Piece { index, begin, length }),
    {
        Piece { index: index, begin: begin, length: length }
    }

    /// The offset of the block's first byte in the torrent's data.
    pub fn file_index(&self, piece_length: i64) -> (r: i64)
        requires
            i64::MIN <= self.index * piece_length <= i64::MAX,
            i64::MIN <= self.begin + self.index * piece_length <= i64::MAX,
        ensures
            r == self.begin + self.index * piece_length,
    {
        self.begin as i64 + (self.index as i64 * piece_length)
    }
}

/// A block of a piece together with its bytes.
#[derive(PartialEq, Debug, Clone)]
pub struct PieceData {
    pub piece: Piece,
    pub data: Vec<u8>,
}

} // verus!
