use vstd::prelude::*;

use crate::bytes::{
    spec_trim, spec_parse_field, spec_find, trim_spaces, parse_field, find_byte, copy_range,
};
use crate::error::ArError;

verus! {

/// Does a trimmed name field refer into the long-filename table: it begins
/// with `/` and is neither exactly `/` nor exactly `//`.
pub open spec fn is_table_ref(t: Seq<u8>) -> bool {
    t.len() >= 2 && t[0] == 47u8 && !(t.len() == 2 && t[1] == 47u8)
}

/// What resolving a raw 16-byte name field against the blob yields: a name
/// field that is no table reference resolves to itself, trimmed; a table
/// reference `/<decimal-offset>` resolves to the blob bytes from that
/// offset up to the next newline. A non-numeric reference, an offset out
/// of range, and a missing terminating newline are format errors.
pub open spec fn spec_resolve(blob: Seq<u8>, raw_name: Seq<u8>) -> Result<Seq<u8>, ArError> {
    let t = spec_trim(raw_name);
    if !is_table_ref(t) {
        Ok(t)
    } else {
        match spec_parse_field(t.subrange(1, t.len() as int), 10, u64::MAX as int) {
            Option::None => Err(ArError::Format),
            Option::Some(off) => if off > blob.len() {
                Err(ArError::Format)
            } else {
                match spec_find(blob, off, 10u8) {
                    Option::None => Err(ArError::Format),
                    Option::Some(j) => Ok(blob.subrange(off, j)),
                }
            },
        }
    }
}

/// The retained payload of the special `//` member: an append-only blob of
/// `name + "\n"` records that ordinary headers reference by byte offset.
pub struct NameTable {
    pub blob: Vec<u8>,
}

impl NameTable {
    /// Retain the payload of the `//` member; no parsing happens here.
    pub fn new(blob: Vec<u8>) -> (r: NameTable)
        ensures
            r.blob@ == blob@,
    {
        NameTable { blob }
    }

    /// Resolve a header's raw 16-byte name field, as `spec_resolve` says.
    pub fn resolve(&self, raw_name: &[u8]) -> (r: Result<Vec<u8>, ArError>)
        ensures
            r matches Ok(v) ==> spec_resolve(self.blob@, raw_name@) == Ok::<Seq<u8>, ArError>(v@),
            r matches Err(e) ==> spec_resolve(self.blob@, raw_name@) == Err::<Seq<u8>, ArError>(e),
    {
        let t = trim_spaces(raw_name);
        proof {
            assert(t@.subrange(0, t@.len() as int) =~= t@);
        }
        if !(t.len() >= 2 && t[0] == 47 && !(t.len() == 2 && t[1] == 47)) {
            return Ok(copy_range(t, 0, t.len()));
        }
        let digits = &t[1..t.len()];
        let off = match parse_field(digits, 10, u64::MAX) {
            Some(off) => off,
            None => {
                return Err(ArError::Format);
            },
        };
        if off > self.blob.len() as u64 {
            return Err(ArError::Format);
        }
        let off_us = off as usize;
        match find_byte(self.blob.as_slice(), off_us, 10) {
            Some(j) => Ok(copy_range(self.blob.as_slice(), off_us, j)),
            None => Err(ArError::Format),
        }
    }
}

} // verus!
