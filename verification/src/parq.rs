//! Reader for the binary container footer: the trailing magic number,
//! the little-endian footer length before it, and the bounds check
//! that the compact-encoded metadata block lies inside the buffer.
//! The metadata block itself is not decoded here.
use vstd::prelude::*;

use crate::{ParsingError, ParsonResult};

verus! {

/// A 32-bit little-endian read at `pos`.
pub open spec fn spec_le32(b: Seq<u8>, pos: int) -> int {
    b[pos] + b[pos + 1] * 0x100 + b[pos + 2] * 0x1_0000 + b[pos + 3] * 0x100_0000
}

/// The buffer ends with the container's magic number.
pub open spec fn spec_magic_ok(b: Seq<u8>) -> bool {
    &&& b.len() >= 8
    &&& b[b.len() - 4] == 0x50u8
    &&& b[b.len() - 3] == 0x41u8
    &&& b[b.len() - 2] == 0x52u8
    &&& b[b.len() - 1] == 0x31u8
}

/// The footer length: the four bytes before the trailing magic.
pub open spec fn spec_footer_length(b: Seq<u8>) -> int {
    spec_le32(b, b.len() - 8)
}

/// A well-framed container: trailing magic, and a metadata block of
/// the declared length fitting before the eight-byte trailer.
pub open spec fn spec_parq_ok(b: Seq<u8>) -> bool {
    spec_magic_ok(b) && b.len() >= 8 + spec_footer_length(b)
}

#[derive(Debug)]
pub struct ParqParser {
    parsed: (),
}

impl ParqParser {
    /// Validates the container frame of the byte buffer.
    pub fn new(bytes: &[u8]) -> (r: ParsonResult<ParqParser>)
        ensures
            match r {
                Ok(_) => spec_parq_ok(bytes@),
                Err(e) => !spec_parq_ok(bytes@) && e@ == if !spec_magic_ok(bytes@) {
                    "Not a parq file"@
                } else {
                    "failed to read file_metadata bytes"@
                },
            },
    {
        let parsed = Self::parse_parq(bytes)?;
        Ok(ParqParser { parsed })
    }

    /// Checks the trailing magic number.
    pub fn is_parq_file(bytes: &[u8]) -> (r: ParsonResult<()>)
        ensures
            match r {
                Ok(_) => spec_magic_ok(bytes@),
                Err(e) => !spec_magic_ok(bytes@) && e@ == "Not a parq file"@,
            },
    {
        let n = bytes.len();
        if n < 8 {
            return Err(ParsingError::new("Not a parq file"));
        }
        if bytes[n - 4] == 0x50 && bytes[n - 3] == 0x41 && bytes[n - 2] == 0x52 && bytes[n - 1]
            == 0x31 {
            Ok(())
        } else {
            Err(ParsingError::new("Not a parq file"))
        }
    }

    /// Reads the little-endian footer length before the magic.
    pub fn get_footer_length(bytes: &[u8]) -> (r: ParsonResult<u32>)
        ensures
            match r {
                Ok(len) => bytes@.len() >= 8 && len as int == spec_footer_length(bytes@),
                Err(e) => bytes@.len() < 8 && e@ == "Not a parq file"@,
            },
    {
        let n = bytes.len();
        if n < 8 {
            return Err(ParsingError::new("Not a parq file"));
        }
        let b0 = bytes[n - 8] as u32;
        let b1 = bytes[n - 7] as u32;
        let b2 = bytes[n - 6] as u32;
        let b3 = bytes[n - 5] as u32;
        Ok(b0 + b1 * 0x100 + b2 * 0x1_0000 + b3 * 0x100_0000)
    }

    /// Validates the whole frame: magic, footer length, and that the
    /// metadata block fits inside the buffer.
    pub fn parse_parq(bytes: &[u8]) -> (r: ParsonResult<()>)
        ensures
            match r {
                Ok(_) => spec_parq_ok(bytes@),
                Err(e) => !spec_parq_ok(bytes@) && e@ == if !spec_magic_ok(bytes@) {
                    "Not a parq file"@
                } else {
                    "failed to read file_metadata bytes"@
                },
            },
    {
        Self::is_parq_file(bytes)?;
        let footer_length = match Self::get_footer_length(bytes) {
            Ok(len) => len,
            Err(e) => {
                return Err(e);
            },
        };
        let n = bytes.len();
        if n - 8 >= footer_length as usize {
            Ok(())
        } else {
            Err(ParsingError::new("failed to read file_metadata bytes"))
        }
    }
}

} // verus!
