//! The price-tracker's message format: nine-byte frames, one letter and two
//! big-endian 32-bit signed integers.
//!
//! `I` inserts a price at a timestamp; `Q` asks for the mean over a time
//! range.  A frame with any other first byte, with fewer than nine bytes,
//! or with anything after the ninth byte is rejected.

use vstd::prelude::*;
use crate::wire::read_be32;
use crate::wire::spec_u32_of;

verus! {

/// The tag byte of an insert message: the letter I.
pub const TAG_INSERT: u8 = 73;

/// The tag byte of a query message: the letter Q.
pub const TAG_QUERY: u8 = 81;

/// A parsed price message.
#[derive(Clone, Copy, Debug, PartialEq, Eq, Structural)]
pub enum Message {
    Insert { timestamp: i32, price: i32 },
    Query { mintime: i32, maxtime: i32 },
}

/// Why a frame is no message.
#[derive(Clone, Copy, Debug, PartialEq, Eq, Structural)]
pub enum ParseError {
    /// The first byte is neither I nor Q.
    BadType,
    /// Fewer than nine bytes.
    Truncated,
    /// More than nine bytes.
    TrailingData,
}

/// The `i32` denoted by four big-endian bytes.
pub open spec fn spec_i32_of(b0: u8, b1: u8, b2: u8, b3: u8) -> i32 {
    spec_u32_of(b0, b1, b2, b3) as i32
}

/// What a byte frame parses to.
pub open spec fn spec_parse_message(i: Seq<u8>) -> Result<Message, ParseError> {
    if i.len() < 1 {
        Err(ParseError::Truncated)
    } else if i[0] != TAG_INSERT && i[0] != TAG_QUERY {
        Err(ParseError::BadType)
    } else if i.len() < 9 {
        Err(ParseError::Truncated)
    } else if i.len() > 9 {
        Err(ParseError::TrailingData)
    } else {
        let a = spec_i32_of(i[1], i[2], i[3], i[4]);
        let b = spec_i32_of(i[5], i[6], i[7], i[8]);
        if i[0] == TAG_INSERT {
            Ok(Message::Insert { timestamp: a, price: b })
        } else {
            Ok(Message::Query { mintime: a, maxtime: b })
        }
    }
}

/// Parses one nine-byte frame: the type letter, then two big-endian 32-bit
/// integers, with nothing left over.
pub fn parse_message(i: &[u8]) -> (r: Result<Message, ParseError>)
    ensures
        r == spec_parse_message(i@),
{
    if i.len() < 1 {
        return Err(ParseError::Truncated);
    }
    let tag = i[0];
    if tag != TAG_INSERT && tag != TAG_QUERY {
        return Err(ParseError::BadType);
    }
    if i.len() < 9 {
        return Err(ParseError::Truncated);
    }
    if i.len() > 9 {
        return Err(ParseError::TrailingData);
    }
    let a = read_be32(i, 1) as i32;
    let b = read_be32(i, 5) as i32;
    if tag == TAG_INSERT {
        Ok(Message::Insert { timestamp: a, price: b })
    } else {
        Ok(Message::Query { mintime: a, maxtime: b })
    }
}

impl Message {
    /// Parses a buffered frame into a message.
    pub fn from_bytes(bytes: &[u8]) -> (r: Result<Message, ParseError>)
        ensures
            r == spec_parse_message(bytes@),
    {
        parse_message(bytes)
    }
}

} // verus!
