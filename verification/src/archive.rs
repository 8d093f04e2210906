use vstd::prelude::*;

use crate::bytes::{spec_trim, trim_spaces, copy_range};
use crate::error::ArError;
use crate::header::Header;
use crate::nametab::{NameTable, spec_resolve};
use crate::reader::{MemberReader, Member, Step, spec_next, magic_seq};
use crate::symtab::{SymbolTable, spec_symtab, entry_views};

verus! {

/// One member as the stream grammar yields it: header-block bytes and
/// payload bytes at a stream offset.
pub ghost struct SpecMember {
    pub off: int,
    pub hdr: Seq<u8>,
    pub payload: Seq<u8>,
}

/// One member after name resolution.
pub ghost struct SpecResolved {
    pub off: int,
    pub hdr: Seq<u8>,
    pub name: Seq<u8>,
    pub payload: Seq<u8>,
}

/// A whole decoded archive: the ordinary members with resolved names, and
/// the symbol table when one was present and decoded.
pub ghost struct SpecArchive {
    pub members: Seq<SpecResolved>,
    pub symbols: Option<Seq<(Seq<u8>, Seq<u32>)>>,
}

/// The raw 16-byte name field of a header block.
pub open spec fn name_field(hdr: Seq<u8>) -> Seq<u8> {
    hdr.subrange(0, 16)
}

/// The member sequence the stream holds from `pos` on: one member per
/// step, ending cleanly at end of stream, or the error of the first step
/// that fails.
pub open spec fn spec_members(data: Seq<u8>, pos: int) -> Result<Seq<SpecMember>, ArError>
    decreases data.len() - pos,
    when 0 <= pos <= data.len()
    via spec_members_decreases
{
    match spec_next(data, pos) {
        Step::End => Ok(Seq::empty()),
        Step::ShortHeader => Err(ArError::Truncation),
        Step::BadMarker => Err(ArError::Format),
        Step::BadSize => Err(ArError::Format),
        Step::ShortPayload => Err(ArError::Truncation),
        Step::Item { hdr, payload, next } => match spec_members(data, next) {
            Ok(rest) => Ok(seq![SpecMember { off: pos, hdr, payload }] + rest),
            Err(e) => Err(e),
        },
    }
}

#[via_fn]
proof fn spec_members_decreases(data: Seq<u8>, pos: int) {
    match spec_next(data, pos) {
        Step::Item { hdr, payload, next } => {
            assert(pos + 60 <= next <= data.len());
        },
        _ => {},
    }
}

/// A member resolved without a long-filename table: the trimmed name
/// field stands as the name.
pub open spec fn trim_resolved(m: SpecMember) -> SpecResolved {
    SpecResolved { off: m.off, hdr: m.hdr, name: spec_trim(name_field(m.hdr)), payload: m.payload }
}

/// Resolve one member's name: against the blob when a name table was
/// retained, else the trimmed name field as-is.
pub open spec fn resolve_one(blob: Option<Seq<u8>>, m: SpecMember) -> Result<
    SpecResolved,
    ArError,
> {
    match blob {
        Option::None => Ok(trim_resolved(m)),
        Option::Some(b) => match spec_resolve(b, name_field(m.hdr)) {
            Ok(nm) => Ok(SpecResolved { off: m.off, hdr: m.hdr, name: nm, payload: m.payload }),
            Err(e) => Err(e),
        },
    }
}

/// Resolve every member in order; the first failing resolution aborts.
pub open spec fn spec_resolve_all(ms: Seq<SpecMember>, blob: Option<Seq<u8>>) -> Result<
    Seq<SpecResolved>,
    ArError,
>
    decreases ms.len(),
{
    if ms.len() == 0 {
        Ok(Seq::empty())
    } else {
        match spec_resolve_all(ms.drop_last(), blob) {
            Err(e) => Err(e),
            Ok(pre) => match resolve_one(blob, ms.last()) {
                Err(e) => Err(e),
                Ok(rm) => Ok(pre.push(rm)),
            },
        }
    }
}

proof fn lemma_resolve_all_err(ms: Seq<SpecMember>, blob: Option<Seq<u8>>, k: int)
    requires
        0 <= k <= ms.len(),
        spec_resolve_all(ms.subrange(0, k), blob) is Err,
    ensures
        spec_resolve_all(ms, blob) == spec_resolve_all(ms.subrange(0, k), blob),
    decreases ms.len() - k,
{
    if k == ms.len() {
        assert(ms.subrange(0, k) =~= ms);
    } else {
        assert(ms.subrange(0, k + 1).drop_last() =~= ms.subrange(0, k));
        lemma_resolve_all_err(ms, blob, k + 1);
    }
}

/// The name field of the symbol-table member, trimmed: a single `/`.
pub open spec fn symtab_name() -> Seq<u8> {
    seq![47u8]
}

/// The name field of the long-filename member, trimmed: `//`.
pub open spec fn nametab_name() -> Seq<u8> {
    seq![47u8, 47u8]
}

/// What decoding a whole archive stream yields. The first member, when
/// named `/`, is the symbol table (a table that fails to decode counts as
/// absent, not as an error); the second member, when named `//`, is the
/// long-filename table. Members read before the name table is known
/// resolve to their trimmed name field; later members resolve against the
/// table.
pub open spec fn spec_archive(data: Seq<u8>) -> Result<SpecArchive, ArError> {
    if !(data.len() >= 8 && data.subrange(0, 8) == magic_seq()) {
        Err(ArError::Format)
    } else {
        match spec_members(data, 8) {
            Err(e) => Err(e),
            Ok(ms) => {
                let has_sym = ms.len() >= 1 && spec_trim(name_field(ms[0].hdr)) == symtab_name();
                let symbols = if has_sym {
                    spec_symtab(ms[0].payload)
                } else {
                    Option::<Seq<(Seq<u8>, Seq<u32>)>>::None
                };
                let has_nam = ms.len() >= 2 && spec_trim(name_field(ms[1].hdr)) == nametab_name();
                let blob = if has_nam {
                    Some(ms[1].payload)
                } else {
                    Option::<Seq<u8>>::None
                };
                let pre = (if !has_sym && ms.len() >= 1 {
                    seq![ms[0]]
                } else {
                    Seq::<SpecMember>::empty()
                }) + (if !has_nam && ms.len() >= 2 {
                    seq![ms[1]]
                } else {
                    Seq::<SpecMember>::empty()
                });
                let i2 = if ms.len() >= 2 {
                    2int
                } else {
                    ms.len() as int
                };
                let rest = ms.subrange(i2, ms.len() as int);
                match spec_resolve_all(rest, blob) {
                    Err(e) => Err(e),
                    Ok(rs) => Ok(
                        SpecArchive {
                            members: pre.map_values(|m: SpecMember| trim_resolved(m)) + rs,
                            symbols,
                        },
                    ),
                }
            },
        }
    }
}

/// One ordinary member of a decoded archive: its stream offset, header,
/// resolved name, and payload.
pub struct ArchiveMember {
    pub offset: usize,
    pub header: Header,
    pub name: Vec<u8>,
    pub payload: Vec<u8>,
}

/// A decoded archive: the ordinary members in stream order, and the
/// symbol table when the archive carried one that decoded.
pub struct Archive {
    pub members: Vec<ArchiveMember>,
    pub symbols: Option<SymbolTable>,
}

/// Does the executable member match the resolved member the spec names?
pub open spec fn am_matches(a: ArchiveMember, s: SpecResolved) -> bool {
    &&& a.offset as int == s.off
    &&& a.header.wf()
    &&& a.header.matches_block(s.hdr)
    &&& a.name@ == s.name
    &&& a.payload@ == s.payload
}

/// Does the executable archive match the spec-level one?
pub open spec fn archive_matches(a: Archive, sa: SpecArchive) -> bool {
    &&& a.members@.len() == sa.members.len()
    &&& forall|i: int| 0 <= i < sa.members.len() ==> am_matches(#[trigger] a.members@[i], sa.members[i])
    &&& (a.symbols is Some <==> sa.symbols is Some)
    &&& (a.symbols matches Some(t) ==> sa.symbols == Some(entry_views(t.entries@)))
}

/// Does the executable member match the raw member the spec names?
pub open spec fn m_matches(m: Member, s: SpecMember) -> bool {
    &&& m.offset as int == s.off
    &&& m.header.wf()
    &&& m.header.matches_block(s.hdr)
    &&& m.payload@ == s.payload
}

fn trimmed_name(h: &Header) -> (r: Vec<u8>)
    ensures
        r@ == spec_trim(h.name@),
{
    let t = trim_spaces(h.name.as_slice());
    proof {
        assert(t@.subrange(0, t@.len() as int) =~= t@);
    }
    copy_range(t, 0, t.len())
}

/// Decode a whole in-memory archive stream, as `spec_archive` says: check
/// the global magic, walk the members, take a leading `/` member as the
/// symbol table and a second `//` member as the long-filename table, and
/// resolve every ordinary member's name.
#[verifier::loop_isolation(false)]
pub fn read_archive(data: Vec<u8>) -> (r: Result<Archive, ArError>)
    ensures
        r matches Err(e) ==> spec_archive(data@) == Err::<SpecArchive, ArError>(e),
        r matches Ok(a) ==> spec_archive(data@) matches Ok(sa) && archive_matches(a, sa),
{
    let ghost d = data@;
    let mut reader = match MemberReader::new(data) {
        Ok(rd) => rd,
        Err(e) => {
            return Err(e);
        },
    };
    let mut members: Vec<Member> = Vec::new();
    let ghost mut gms: Seq<SpecMember> = Seq::empty();
    let mut finished = false;
    while !finished
        invariant
            reader.wf(),
            reader.stream() == d,
            gms.len() == members@.len(),
            forall|i: int| 0 <= i < gms.len() ==> m_matches(#[trigger] members@[i], gms[i]),
            !finished ==> (match spec_members(d, reader.position()) {
                Ok(rest) => spec_members(d, 8) == Ok::<Seq<SpecMember>, ArError>(gms + rest),
                Err(e) => spec_members(d, 8) == Err::<Seq<SpecMember>, ArError>(e),
            }),
            finished ==> spec_members(d, 8) == Ok::<Seq<SpecMember>, ArError>(gms),
        decreases d.len() - reader.position() + (if finished {
            0int
        } else {
            1int
        }),
    {
        let ghost oldpos = reader.position();
        match reader.next() {
            Err(e) => {
                proof {
                    assert(spec_members(d, oldpos) == Err::<Seq<SpecMember>, ArError>(e));
                }
                return Err(e);
            },
            Ok(None) => {
                proof {
                    assert(gms + Seq::<SpecMember>::empty() =~= gms);
                }
                finished = true;
            },
            Ok(Some(m)) => {
                proof {
                    match spec_next(d, oldpos) {
                        Step::Item { hdr, payload, next } => {
                            let sm = SpecMember { off: oldpos, hdr, payload };
                            match spec_members(d, next) {
                                Ok(rest2) => {
                                    assert(spec_members(d, oldpos) == Ok::<
                                        Seq<SpecMember>,
                                        ArError,
                                    >(seq![sm] + rest2));
                                    assert(gms + (seq![sm] + rest2) =~= gms.push(sm) + rest2);
                                },
                                Err(e2) => {
                                    assert(spec_members(d, oldpos) == Err::<
                                        Seq<SpecMember>,
                                        ArError,
                                    >(e2));
                                },
                            }
                            gms = gms.push(sm);
                        },
                        _ => {
                            assert(false);
                        },
                    }
                }
                members.push(m);
            },
        }
    }
    let ghost ms = gms;
    let ghost has_sym = ms.len() >= 1 && spec_trim(name_field(ms[0].hdr)) == symtab_name();
    let ghost has_nam = ms.len() >= 2 && spec_trim(name_field(ms[1].hdr)) == nametab_name();
    let ghost symbols_spec: Option<Seq<(Seq<u8>, Seq<u32>)>> = if has_sym {
        spec_symtab(ms[0].payload)
    } else {
        None
    };
    let ghost blob_spec: Option<Seq<u8>> = if has_nam {
        Some(ms[1].payload)
    } else {
        None
    };
    let ghost pre = (if !has_sym && ms.len() >= 1 {
        seq![ms[0]]
    } else {
        Seq::<SpecMember>::empty()
    }) + (if !has_nam && ms.len() >= 2 {
        seq![ms[1]]
    } else {
        Seq::<SpecMember>::empty()
    });
    let ghost rest = ms.subrange(
        if ms.len() >= 2 {
            2int
        } else {
            ms.len() as int
        },
        ms.len() as int,
    );
    let mut symbols: Option<SymbolTable> = None;
    let mut names: Option<NameTable> = None;
    let mut out: Vec<ArchiveMember> = Vec::new();
    if members.len() >= 1 {
        let is_sym = {
            let t = trim_spaces(members[0].header.name.as_slice());
            t.len() == 1 && t[0] == 47
        };
        proof {
            assert(members@[0].header.name@ == name_field(ms[0].hdr));
            if is_sym {
                assert(spec_trim(name_field(ms[0].hdr)) =~= symtab_name());
            }
            assert(is_sym == has_sym);
        }
        let m0 = members.remove(0);
        if is_sym {
            match SymbolTable::build(m0.payload.as_slice()) {
                Ok(t) => {
                    symbols = Some(t);
                },
                Err(_) => {
                    symbols = None;
                },
            }
        } else {
            let nm = trimmed_name(&m0.header);
            out.push(
                ArchiveMember {
                    offset: m0.offset,
                    header: m0.header,
                    name: nm,
                    payload: m0.payload,
                },
            );
        }
    }
    if members.len() >= 1 {
        proof {
            assert(m_matches(members@[0], ms[1]));
        }
        let is_nam = {
            let t = trim_spaces(members[0].header.name.as_slice());
            t.len() == 2 && t[0] == 47 && t[1] == 47
        };
        proof {
            assert(members@[0].header.name@ == name_field(ms[1].hdr));
            if is_nam {
                assert(spec_trim(name_field(ms[1].hdr)) =~= nametab_name());
            }
            assert(is_nam == has_nam);
        }
        let m1 = members.remove(0);
        if is_nam {
            names = Some(NameTable::new(m1.payload));
        } else {
            let nm = trimmed_name(&m1.header);
            out.push(
                ArchiveMember {
                    offset: m1.offset,
                    header: m1.header,
                    name: nm,
                    payload: m1.payload,
                },
            );
        }
    }
    let ghost base = out@.len();
    let ghost out0 = out@;
    proof {
        assert(out0.len() == pre.len());
        assert(forall|t: int| 0 <= t < pre.len() ==> am_matches(
            #[trigger] out0[t],
            trim_resolved(pre[t]),
        ));
        assert(members@.len() == rest.len());
        assert(forall|i: int| 0 <= i < rest.len() ==> m_matches(#[trigger] members@[i], rest[i]));
    }
    while members.len() > 0
        invariant
            members@.len() <= rest.len(),
            forall|i: int| 0 <= i < members@.len() ==> m_matches(
                #[trigger] members@[i],
                rest[rest.len() - members@.len() + i],
            ),
            out@.len() >= base,
            out@.subrange(0, base as int) == out0,
            ({
                let processed = rest.len() - members@.len();
                match spec_resolve_all(rest.subrange(0, processed as int), blob_spec) {
                    Ok(pr) => out@.len() == base + pr.len() && forall|t: int|
                        0 <= t < pr.len() ==> am_matches(#[trigger] out@[base + t], pr[t]),
                    Err(e) => false,
                }
            }),
        decreases members@.len(),
    {
        let ghost processed = rest.len() - members@.len();
        let ghost sm = rest[processed as int];
        let m = members.remove(0);
        proof {
            assert(m_matches(m, sm));
            assert(rest.subrange(0, processed + 1).drop_last() =~= rest.subrange(
                0,
                processed as int,
            ));
            assert(rest.subrange(0, processed + 1).last() == sm);
        }
        let nm = match &names {
            Some(nt) => match nt.resolve(m.header.name.as_slice()) {
                Ok(v) => v,
                Err(e) => {
                    proof {
                        assert(resolve_one(blob_spec, sm) == Err::<SpecResolved, ArError>(e));
                        assert(spec_resolve_all(rest.subrange(0, processed + 1), blob_spec)
                            == Err::<Seq<SpecResolved>, ArError>(e));
                        lemma_resolve_all_err(rest, blob_spec, processed + 1);
                        assert(spec_archive(d) == Err::<SpecArchive, ArError>(e));
                    }
                    return Err(e);
                },
            },
            None => trimmed_name(&m.header),
        };
        proof {
            assert(resolve_one(blob_spec, sm) matches Ok(rm) && rm.name == nm@ && rm.off == sm.off
                && rm.hdr == sm.hdr && rm.payload == sm.payload);
        }
        out.push(ArchiveMember { offset: m.offset, header: m.header, name: nm, payload: m.payload });
        proof {
            let pr_old = spec_resolve_all(rest.subrange(0, processed as int), blob_spec).unwrap();
            let rm = resolve_one(blob_spec, sm).unwrap();
            assert(spec_resolve_all(rest.subrange(0, processed + 1), blob_spec) == Ok::<
                Seq<SpecResolved>,
                ArError,
            >(pr_old.push(rm)));
            assert(out@.subrange(0, base as int) =~= out0);
        }
    }
    proof {
        assert(rest.subrange(0, rest.len() as int) =~= rest);
        let pr = spec_resolve_all(rest, blob_spec).unwrap();
        let sa = SpecArchive {
            members: pre.map_values(|mm: SpecMember| trim_resolved(mm)) + pr,
            symbols: symbols_spec,
        };
        assert(spec_archive(d) == Ok::<SpecArchive, ArError>(sa));
        assert(out@.len() == sa.members.len());
        assert forall|i: int| 0 <= i < sa.members.len() implies am_matches(
            out@[i],
            sa.members[i],
        ) by {
            if i < base {
                assert(out@.subrange(0, base as int)[i] == out@[i]);
                assert(out@[i] == out0[i]);
                assert(am_matches(out0[i], trim_resolved(pre[i])));
                assert(sa.members[i] == pre.map_values(|mm: SpecMember| trim_resolved(mm))[i]);
            } else {
                let t = i - base;
                assert(am_matches(out@[base + t], pr[t]));
                assert(sa.members[i] == pr[t]);
            }
        }
    }
    Ok(Archive { members: out, symbols })
}

} // verus!
