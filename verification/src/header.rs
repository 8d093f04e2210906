use vstd::prelude::*;

use crate::bytes::{spec_trim, spec_parse_field, trim_spaces, parse_field, copy_range};

verus! {

/// The literal two-byte marker that ends every valid member header:
/// a backquote followed by a newline.
pub open spec fn fmag_seq() -> Seq<u8> {
    seq![96u8, 10u8]
}

/// The fixed length of a member header block.
pub const HEADER_LEN: usize = 60;

/// One fixed 60-byte member header: seven fixed-width ASCII fields.
/// Numeric fields are written as digits padded on the right with spaces.
pub struct Header {
    /// 16 bytes: member name, space padded, possibly ending in `/`.
    pub name: Vec<u8>,
    /// 12 bytes: decimal seconds since the epoch.
    pub date: Vec<u8>,
    /// 6 bytes: decimal user id.
    pub uid: Vec<u8>,
    /// 6 bytes: decimal group id.
    pub gid: Vec<u8>,
    /// 8 bytes: octal file mode.
    pub mode: Vec<u8>,
    /// 10 bytes: decimal payload length.
    pub size: Vec<u8>,
    /// 2 bytes: the end-of-header marker.
    pub fmag: Vec<u8>,
}

impl Header {
    /// The field widths the format fixes.
    pub open spec fn wf(&self) -> bool {
        &&& self.name@.len() == 16
        &&& self.date@.len() == 12
        &&& self.uid@.len() == 6
        &&& self.gid@.len() == 6
        &&& self.mode@.len() == 8
        &&& self.size@.len() == 10
        &&& self.fmag@.len() == 2
    }

    /// The fields are exactly the seven slices of the 60-byte block `b`.
    pub open spec fn matches_block(&self, b: Seq<u8>) -> bool {
        &&& self.name@ == b.subrange(0, 16)
        &&& self.date@ == b.subrange(16, 28)
        &&& self.uid@ == b.subrange(28, 34)
        &&& self.gid@ == b.subrange(34, 40)
        &&& self.mode@ == b.subrange(40, 48)
        &&& self.size@ == b.subrange(48, 58)
        &&& self.fmag@ == b.subrange(58, 60)
    }

    /// A header whose fields are all zero bytes.
    pub fn zero() -> (r: Header)
        ensures
            r.wf(),
            r.name@ == Seq::new(16, |i: int| 0u8),
            r.date@ == Seq::new(12, |i: int| 0u8),
            r.uid@ == Seq::new(6, |i: int| 0u8),
            r.gid@ == Seq::new(6, |i: int| 0u8),
            r.mode@ == Seq::new(8, |i: int| 0u8),
            r.size@ == Seq::new(10, |i: int| 0u8),
            r.fmag@ == Seq::new(2, |i: int| 0u8),
    {
        Header {
            name: vec![0u8; 16],
            date: vec![0u8; 12],
            uid: vec![0u8; 6],
            gid: vec![0u8; 6],
            mode: vec![0u8; 8],
            size: vec![0u8; 10],
            fmag: vec![0u8; 2],
        }
    }

    /// Cut the seven fields out of one 60-byte header block.
    pub fn from_bytes(b: &[u8]) -> (r: Header)
        requires
            b@.len() == HEADER_LEN,
        ensures
            r.wf(),
            r.matches_block(b@),
    {
        Header {
            name: copy_range(b, 0, 16),
            date: copy_range(b, 16, 28),
            uid: copy_range(b, 28, 34),
            gid: copy_range(b, 34, 40),
            mode: copy_range(b, 40, 48),
            size: copy_range(b, 48, 58),
            fmag: copy_range(b, 58, 60),
        }
    }

    /// The header written back as its 60-byte block.
    pub fn as_bytes(&self) -> (r: Vec<u8>)
        ensures
            r@ == self.name@ + self.date@ + self.uid@ + self.gid@ + self.mode@ + self.size@
                + self.fmag@,
            self.wf() ==> r@.len() == HEADER_LEN && self.matches_block(r@),
    {
        let mut r: Vec<u8> = Vec::new();
        r.extend_from_slice(self.name.as_slice());
        r.extend_from_slice(self.date.as_slice());
        r.extend_from_slice(self.uid.as_slice());
        r.extend_from_slice(self.gid.as_slice());
        r.extend_from_slice(self.mode.as_slice());
        r.extend_from_slice(self.size.as_slice());
        r.extend_from_slice(self.fmag.as_slice());
        proof {
            if self.wf() {
                assert(r@.subrange(0, 16) =~= self.name@);
                assert(r@.subrange(16, 28) =~= self.date@);
                assert(r@.subrange(28, 34) =~= self.uid@);
                assert(r@.subrange(34, 40) =~= self.gid@);
                assert(r@.subrange(40, 48) =~= self.mode@);
                assert(r@.subrange(48, 58) =~= self.size@);
                assert(r@.subrange(58, 60) =~= self.fmag@);
            }
        }
        r
    }

    /// The name field with its trailing space padding stripped; a trailing
    /// `/` terminator is left for the caller to interpret.
    pub fn name(&self) -> (r: &[u8])
        ensures
            r@ == spec_trim(self.name@),
    {
        trim_spaces(self.name.as_slice())
    }

    /// The date field as decimal seconds; absent when it does not parse.
    pub fn date(&self) -> (r: Option<u64>)
        ensures
            r is Some <==> spec_parse_field(self.date@, 10, u64::MAX as int) is Some,
            r is Some ==> Some(r.unwrap() as int) == spec_parse_field(
                self.date@,
                10,
                u64::MAX as int,
            ),
    {
        parse_field(self.date.as_slice(), 10, u64::MAX)
    }

    /// The uid field as a decimal integer; absent when it does not parse.
    pub fn uid(&self) -> (r: Option<u32>)
        ensures
            r is Some <==> spec_parse_field(self.uid@, 10, u32::MAX as int) is Some,
            r is Some ==> Some(r.unwrap() as int) == spec_parse_field(
                self.uid@,
                10,
                u32::MAX as int,
            ),
    {
        match parse_field(self.uid.as_slice(), 10, u32::MAX as u64) {
            Some(n) => Some(n as u32),
            None => None,
        }
    }

    /// The gid field as a decimal integer; absent when it does not parse.
    pub fn gid(&self) -> (r: Option<u32>)
        ensures
            r is Some <==> spec_parse_field(self.gid@, 10, u32::MAX as int) is Some,
            r is Some ==> Some(r.unwrap() as int) == spec_parse_field(
                self.gid@,
                10,
                u32::MAX as int,
            ),
    {
        match parse_field(self.gid.as_slice(), 10, u32::MAX as u64) {
            Some(n) => Some(n as u32),
            None => None,
        }
    }

    /// The mode field as an octal integer; absent when it does not parse.
    pub fn mode(&self) -> (r: Option<u32>)
        ensures
            r is Some <==> spec_parse_field(self.mode@, 8, u32::MAX as int) is Some,
            r is Some ==> Some(r.unwrap() as int) == spec_parse_field(
                self.mode@,
                8,
                u32::MAX as int,
            ),
    {
        match parse_field(self.mode.as_slice(), 8, u32::MAX as u64) {
            Some(n) => Some(n as u32),
            None => None,
        }
    }

    /// The size field as a decimal payload length. This is the one numeric
    /// field whose failure is structural: without it the payload cannot be
    /// delimited.
    pub fn size(&self) -> (r: Option<u64>)
        ensures
            r is Some <==> spec_parse_field(self.size@, 10, u64::MAX as int) is Some,
            r is Some ==> Some(r.unwrap() as int) == spec_parse_field(
                self.size@,
                10,
                u64::MAX as int,
            ),
    {
        parse_field(self.size.as_slice(), 10, u64::MAX)
    }

    /// True exactly when the trailing marker field holds the literal
    /// end-of-header marker.
    pub fn valid(&self) -> (r: bool)
        ensures
            r == (self.fmag@ == fmag_seq()),
    {
        if self.fmag.len() != 2 {
            proof {
                assert(self.fmag@ != fmag_seq());
            }
            false
        } else {
            let r = self.fmag[0] == 96 && self.fmag[1] == 10;
            proof {
                if r {
                    assert(self.fmag@ =~= fmag_seq());
                }
            }
            r
        }
    }
}

/// Law: a header cut from a 60-byte block is valid exactly when the last
/// two bytes of the block equal the end-of-header marker.
pub proof fn lemma_valid_iff_marker(h: Header, b: Seq<u8>)
    requires
        b.len() == HEADER_LEN,
        h.matches_block(b),
    ensures
        (h.fmag@ == fmag_seq()) <==> (b.subrange(58, 60) == fmag_seq()),
{
}

} // verus!
