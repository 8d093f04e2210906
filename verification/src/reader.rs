use vstd::prelude::*;

use crate::bytes::{spec_parse_field, copy_range};
use crate::error::ArError;
use crate::header::{Header, HEADER_LEN, fmag_seq};

verus! {

/// The 8-byte global magic that opens every archive: `!<arch>\n`.
pub open spec fn magic_seq() -> Seq<u8> {
    seq![33u8, 60u8, 97u8, 114u8, 99u8, 104u8, 62u8, 10u8]
}

/// One archive entry as the stream yields it: the position of its header's
/// first byte, the decoded header, and exactly `size` payload bytes (the
/// alignment pad byte is consumed but never part of the payload).
pub struct Member {
    pub offset: usize,
    pub header: Header,
    pub payload: Vec<u8>,
}

/// What the size field of the 60-byte header block `hb` denotes.
pub open spec fn spec_size_of(hb: Seq<u8>) -> Option<int> {
    spec_parse_field(hb.subrange(48, 58), 10, u64::MAX as int)
}

/// What one step of the member sequence yields, as a function of the
/// stream bytes and the position of the next unread byte.
pub ghost enum Step {
    /// The position is exactly the end of the stream: the archive ends
    /// cleanly here.
    End,
    /// Fewer bytes remain than one header takes: a truncated header.
    ShortHeader,
    /// A full header block whose trailing marker is wrong.
    BadMarker,
    /// A full header block whose size field does not parse.
    BadSize,
    /// The declared payload length exceeds the bytes that remain.
    ShortPayload,
    /// A member: its header block, its payload, and the stream position
    /// after the payload and the pad byte (consumed only when the payload
    /// length is odd and the stream has not ended).
    Item { hdr: Seq<u8>, payload: Seq<u8>, next: int },
}

/// The outcome of reading one member at `pos`.
pub open spec fn spec_next(data: Seq<u8>, pos: int) -> Step {
    if pos == data.len() {
        Step::End
    } else if data.len() - pos < HEADER_LEN {
        Step::ShortHeader
    } else {
        let hb = data.subrange(pos, pos + HEADER_LEN);
        if hb.subrange(58, 60) != fmag_seq() {
            Step::BadMarker
        } else {
            match spec_size_of(hb) {
                Option::None => Step::BadSize,
                Option::Some(n) => if n > data.len() - pos - HEADER_LEN {
                    Step::ShortPayload
                } else {
                    let end = pos + HEADER_LEN + n;
                    Step::Item {
                        hdr: hb,
                        payload: data.subrange(pos + HEADER_LEN, end),
                        next: if n % 2 == 1 && end < data.len() {
                            end + 1
                        } else {
                            end
                        },
                    }
                },
            }
        }
    }
}

/// A single forward pass over an in-memory archive stream, yielding one
/// member per call of `next`.
pub struct MemberReader {
    data: Vec<u8>,
    pos: usize,
}

impl MemberReader {
    /// The whole stream the reader walks.
    pub closed spec fn stream(&self) -> Seq<u8> {
        self.data@
    }

    /// The position of the next unread byte.
    pub closed spec fn position(&self) -> int {
        self.pos as int
    }

    pub open spec fn wf(&self) -> bool {
        0 <= self.position() <= self.stream().len()
    }

    /// Open an archive stream: the first 8 bytes must equal the global
    /// magic; a shorter stream or any mismatch is a format error.
    pub fn new(data: Vec<u8>) -> (r: Result<MemberReader, ArError>)
        ensures
            r is Ok <==> data@.len() >= 8 && data@.subrange(0, 8) == magic_seq(),
            r matches Ok(m) ==> m.stream() == data@ && m.position() == 8 && m.wf(),
            r is Err ==> r == Err::<MemberReader, ArError>(ArError::Format),
    {
        if data.len() < 8 {
            return Err(ArError::Format);
        }
        let ok = data[0] == 33 && data[1] == 60 && data[2] == 97 && data[3] == 114 && data[4]
            == 99 && data[5] == 104 && data[6] == 62 && data[7] == 10;
        proof {
            let s = data@.subrange(0, 8);
            assert(s.len() == 8);
            assert(forall|i: int| 0 <= i < 8 ==> s[i] == data@[i]);
            if ok {
                assert(s =~= magic_seq());
            } else {
                assert(s != magic_seq());
            }
        }
        if !ok {
            return Err(ArError::Format);
        }
        Ok(MemberReader { data, pos: 8 })
    }

    /// Read one member. A clean end of stream yields `Ok(None)`; a header
    /// or payload cut short yields a truncation error; a bad header marker
    /// or unparseable size field yields a format error. On any error the
    /// position is left where the failing member began.
    pub fn next(&mut self) -> (r: Result<Option<Member>, ArError>)
        requires
            old(self).wf(),
        ensures
            final(self).stream() == old(self).stream(),
            final(self).wf(),
            ({
                let step = spec_next(old(self).stream(), old(self).position());
                match step {
                    Step::End => r matches Ok(x) && x is None && final(self).position() == old(self).position(),
                    Step::ShortHeader => r == Err::<Option<Member>, ArError>(ArError::Truncation)
                        && final(self).position() == old(self).position(),
                    Step::BadMarker => r == Err::<Option<Member>, ArError>(ArError::Format)
                        && final(self).position() == old(self).position(),
                    Step::BadSize => r == Err::<Option<Member>, ArError>(ArError::Format)
                        && final(self).position() == old(self).position(),
                    Step::ShortPayload => r == Err::<Option<Member>, ArError>(ArError::Truncation)
                        && final(self).position() == old(self).position(),
                    Step::Item { hdr, payload, next } => r matches Ok(x) && x matches Some(m)
                        && m.offset == old(self).position() && m.header.wf()
                        && m.header.matches_block(hdr) && m.payload@ == payload && final(self).position()
                        == next,
                }
            }),
    {
        let len = self.data.len();
        if self.pos == len {
            return Ok(None);
        }
        if len - self.pos < HEADER_LEN {
            return Err(ArError::Truncation);
        }
        let hstart = self.pos;
        let hend = hstart + HEADER_LEN;
        let ghost hb = self.data@.subrange(hstart as int, hend as int);
        let header = Header::from_bytes(&self.data.as_slice()[hstart..hend]);
        if !header.valid() {
            return Err(ArError::Format);
        }
        let n = match header.size() {
            Some(n) => n,
            None => {
                proof {
                    assert(header.size@ == hb.subrange(48, 58));
                }
                return Err(ArError::Format);
            },
        };
        proof {
            assert(header.size@ == hb.subrange(48, 58));
        }
        let rem = (len - hend) as u64;
        if n > rem {
            return Err(ArError::Truncation);
        }
        let n_us = n as usize;
        let pend = hend + n_us;
        let payload = copy_range(self.data.as_slice(), hend, pend);
        let mut newpos = pend;
        if n_us % 2 == 1 && newpos < len {
            newpos = newpos + 1;
        }
        self.pos = newpos;
        Ok(Some(Member { offset: hstart, header, payload }))
    }
}

} // verus!
