use vstd::prelude::*;

use crate::bytes::{spec_find, be32_at, read_be32, find_byte, copy_range, bytes_eq};
use crate::error::ArError;

verus! {

/// Valid UTF-8, as `core::str::from_utf8` decides it.
pub uninterp spec fn is_utf8(s: Seq<u8>) -> bool;

/// Relies on core::str::from_utf8: it succeeds exactly on the byte strings
/// that are valid UTF-8, and ASCII bytes (all below 128) are valid UTF-8.
#[verifier::external_body]
fn utf8_check(b: &[u8]) -> (r: bool)
    ensures
        r == is_utf8(b@),
        (forall|i: int| 0 <= i < b@.len() ==> b@[i] < 128) ==> r,
{
    core::str::from_utf8(b).is_ok()
}

/// One symbol-table entry: a symbol name and every member offset at which
/// the archive defines it, in payload order.
pub struct SymEntry {
    pub name: Vec<u8>,
    pub offsets: Vec<u32>,
}

/// The entries as pairs of name bytes and offset list.
pub open spec fn entry_views(entries: Seq<SymEntry>) -> Seq<(Seq<u8>, Seq<u32>)> {
    Seq::new(entries.len(), |i: int| (entries[i].name@, entries[i].offsets@))
}

/// The first entry index at or after `from` whose name is `name`.
pub open spec fn spec_find_key(t: Seq<(Seq<u8>, Seq<u32>)>, name: Seq<u8>, from: int) -> Option<
    int,
>
    decreases t.len() - from,
    when 0 <= from <= t.len()
{
    if from >= t.len() {
        None
    } else if t[from].0 == name {
        Some(from)
    } else {
        spec_find_key(t, name, from + 1)
    }
}

proof fn lemma_find_key_props(t: Seq<(Seq<u8>, Seq<u32>)>, name: Seq<u8>, from: int)
    requires
        0 <= from <= t.len(),
    ensures
        match spec_find_key(t, name, from) {
            Option::None => forall|k: int| from <= k < t.len() ==> t[k].0 != name,
            Option::Some(i) => from <= i < t.len() && t[i].0 == name,
        },
    decreases t.len() - from,
{
    if from < t.len() && t[from].0 != name {
        lemma_find_key_props(t, name, from + 1);
    }
}

/// `t` with `off` recorded under `name`: appended to the offsets of the
/// first entry with that name, or as a fresh entry at the end. A repeated
/// name accumulates offsets rather than overwriting.
pub open spec fn add_sym(t: Seq<(Seq<u8>, Seq<u32>)>, name: Seq<u8>, off: u32) -> Seq<
    (Seq<u8>, Seq<u32>),
> {
    match spec_find_key(t, name, 0) {
        Option::Some(i) => t.update(i, (name, t[i].1.push(off))),
        Option::None => t.push((name, seq![off])),
    }
}

/// The table that a sequence of (name, offset) pairs builds up, in order.
pub open spec fn table_of(pairs: Seq<(Seq<u8>, u32)>) -> Seq<(Seq<u8>, Seq<u32>)>
    decreases pairs.len(),
{
    if pairs.len() == 0 {
        Seq::empty()
    } else {
        add_sym(table_of(pairs.drop_last()), pairs.last().0, pairs.last().1)
    }
}

/// The `k` NUL-terminated names starting at `cur`, absent when a
/// terminator is missing before the payload ends.
pub open spec fn spec_names(p: Seq<u8>, cur: int, k: nat) -> Option<Seq<Seq<u8>>>
    decreases k,
{
    if !(0 <= cur <= p.len()) {
        None
    } else if k == 0 {
        Some(Seq::<Seq<u8>>::empty())
    } else {
        match spec_find(p, cur, 0u8) {
            Option::None => None,
            Option::Some(j) => match spec_names(p, j + 1, (k - 1) as nat) {
                Option::None => None,
                Option::Some(rest) => Some(seq![p.subrange(cur, j)] + rest),
            },
        }
    }
}

proof fn lemma_names_len(p: Seq<u8>, cur: int, k: nat)
    ensures
        spec_names(p, cur, k) matches Some(ns) ==> ns.len() == k,
    decreases k,
{
    if 0 <= cur <= p.len() && k > 0 {
        match spec_find(p, cur, 0u8) {
            Option::None => {},
            Option::Some(j) => {
                lemma_names_len(p, j + 1, (k - 1) as nat);
            },
        }
    }
}

/// What the `/` member's payload denotes: a 4-byte big-endian count, that
/// many big-endian member offsets, then that many NUL-terminated UTF-8
/// names; absent on a short payload, a missing terminator, or a name that
/// is not valid UTF-8.
pub open spec fn spec_symtab(p: Seq<u8>) -> Option<Seq<(Seq<u8>, Seq<u32>)>> {
    if p.len() < 4 {
        None
    } else {
        let nsyms = be32_at(p, 0) as int;
        if p.len() < 4 + nsyms * 4 {
            None
        } else {
            match spec_names(p, 4 + nsyms * 4, nsyms as nat) {
                Option::None => None,
                Option::Some(names) => if exists|i: int| 0 <= i < nsyms && !is_utf8(names[i]) {
                    None
                } else {
                    Some(
                        table_of(Seq::new(nsyms as nat, |i: int| (names[i], be32_at(p, 4 + 4 * i)))),
                    )
                },
            }
        }
    }
}

/// The names defined at member offset `off`, in entry order.
pub open spec fn spec_syms_at(t: Seq<(Seq<u8>, Seq<u32>)>, off: int) -> Seq<Seq<u8>>
    decreases t.len(),
{
    if t.len() == 0 {
        Seq::empty()
    } else {
        spec_syms_at(t.drop_last(), off) + (if exists|q: int|
            0 <= q < t.last().1.len() && t.last().1[q] as int == off {
            seq![t.last().0]
        } else {
            Seq::<Seq<u8>>::empty()
        })
    }
}

/// The decoded symbol table of the special `/` member: symbol names, each
/// with the member offsets that define it.
pub struct SymbolTable {
    pub entries: Vec<SymEntry>,
}

fn find_entry(entries: &Vec<SymEntry>, name: &[u8]) -> (r: Option<usize>)
    ensures
        r is Some <==> spec_find_key(entry_views(entries@), name@, 0) is Some,
        r matches Some(i) ==> Some(i as int) == spec_find_key(entry_views(entries@), name@, 0)
            && i < entries@.len(),
{
    let ghost ev = entry_views(entries@);
    let mut i: usize = 0;
    while i < entries.len()
        invariant
            i <= entries@.len(),
            ev == entry_views(entries@),
            spec_find_key(ev, name@, 0) == spec_find_key(ev, name@, i as int),
        decreases entries@.len() - i,
    {
        if bytes_eq(entries[i].name.as_slice(), name) {
            return Some(i);
        }
        i = i + 1;
    }
    None
}

impl SymbolTable {
    /// Decode the payload of the `/` member, as `spec_symtab` says. Any
    /// structural violation aborts the whole build with a format error.
    pub fn build(payload: &[u8]) -> (r: Result<SymbolTable, ArError>)
        ensures
            r is Ok <==> spec_symtab(payload@) is Some,
            r matches Ok(t) ==> Some(entry_views(t.entries@)) == spec_symtab(payload@),
            r matches Err(e) ==> e == ArError::Format,
    {
        let ghost p = payload@;
        if payload.len() < 4 {
            return Err(ArError::Format);
        }
        let nsyms32 = read_be32(payload, 0);
        let nsyms = nsyms32 as usize;
        if 4 + 4 * (nsyms as u64) > payload.len() as u64 {
            return Err(ArError::Format);
        }
        let names_start = 4 + 4 * nsyms;
        let ghost full = spec_names(p, names_start as int, nsyms as nat);
        let mut entries: Vec<SymEntry> = Vec::new();
        let ghost mut done: Seq<Seq<u8>> = Seq::empty();
        let mut cur: usize = names_start;
        let mut i: usize = 0;
        while i < nsyms
            invariant
                i <= nsyms,
                p == payload@,
                p.len() <= usize::MAX,
                4 <= p.len(),
                nsyms as int == be32_at(p, 0) as int,
                p.len() >= 4 + nsyms * 4,
                names_start == 4 + 4 * nsyms,
                names_start <= cur <= p.len(),
                full == spec_names(p, names_start as int, nsyms as nat),
                done.len() == i,
                ({
                    match spec_names(p, cur as int, (nsyms - i) as nat) {
                        Option::None => full is None,
                        Option::Some(rest) => full == Some(done + rest),
                    }
                }),
                forall|j: int| 0 <= j < i ==> is_utf8(done[j]),
                entry_views(entries@) == table_of(
                    Seq::new(i as nat, |t: int| (done[t], be32_at(p, 4 + 4 * t))),
                ),
            decreases nsyms - i,
        {
            let ghost k = (nsyms - i) as nat;
            proof {
                assert(4 + (be32_at(p, 0) as int) * 4 == names_start as int);
                assert((be32_at(p, 0) as int) as nat == nsyms as nat);
            }
            let j = match find_byte(payload, cur, 0) {
                Some(j) => j,
                None => {
                    proof {
                        assert(spec_names(p, cur as int, k) is None);
                        assert(full is None);
                    }
                    return Err(ArError::Format);
                },
            };
            let name = copy_range(payload, cur, j);
            let ghost gname = name@;
            proof {
                assert(gname == p.subrange(cur as int, j as int));
            }
            let name_ok = utf8_check(name.as_slice());
            if !name_ok {
                proof {
                    match spec_names(p, j + 1, (k - 1) as nat) {
                        Option::None => {
                            assert(spec_names(p, cur as int, k) is None);
                            assert(full is None);
                        },
                        Option::Some(rest2) => {
                            let rest = seq![gname] + rest2;
                            assert(spec_names(p, cur as int, k) == Some(rest));
                            let names = (done + rest);
                            assert(full == Some(names));
                            assert(names[i as int] == gname);
                            assert(0 <= i < nsyms && !is_utf8(names[i as int]));
                            assert(exists|t: int|
                                0 <= t < be32_at(p, 0) as int && !is_utf8(names[t]));
                        },
                    }
                    assert(spec_symtab(p) is None);
                }
                return Err(ArError::Format);
            }
            let off = read_be32(payload, 4 + 4 * i);
            let ghost oldv = entry_views(entries@);
            match find_entry(&entries, name.as_slice()) {
                Some(ix) => {
                    proof {
                        lemma_find_key_props(oldv, gname, 0);
                    }
                    let mut e = entries.remove(ix);
                    e.offsets.push(off);
                    entries.insert(ix, e);
                    proof {
                        assert(entry_views(entries@) =~~= add_sym(oldv, gname, off));
                    }
                },
                None => {
                    let mut offs: Vec<u32> = Vec::new();
                    offs.push(off);
                    entries.push(SymEntry { name, offsets: offs });
                    proof {
                        assert(entry_views(entries@) =~~= add_sym(oldv, gname, off));
                    }
                },
            }
            proof {
                let done_old = done;
                done = done.push(gname);
                let pairs_old = Seq::new(i as nat, |t: int| (done_old[t], be32_at(p, 4 + 4 * t)));
                let pairs_new = Seq::new((i + 1) as nat, |t: int| (done[t], be32_at(p, 4 + 4 * t)));
                assert(pairs_new.drop_last() =~~= pairs_old);
                assert(pairs_new.last() == (gname, be32_at(p, 4 + 4 * (i as int))));
                assert(table_of(pairs_new) == add_sym(table_of(pairs_old), gname, off));
                assert(entry_views(entries@) == table_of(pairs_new));
                match spec_names(p, j + 1, (k - 1) as nat) {
                    Option::None => {
                        assert(spec_names(p, cur as int, k) is None);
                        assert(full is None);
                    },
                    Option::Some(rest2) => {
                        let rest = seq![gname] + rest2;
                        assert(spec_names(p, cur as int, k) == Some(rest));
                        assert(done_old + rest =~~= done + rest2);
                        assert(full == Some(done + rest2));
                    },
                }
            }
            cur = j + 1;
            i = i + 1;
        }
        proof {
            assert(spec_names(p, cur as int, 0) == Some(Seq::<Seq<u8>>::empty()));
            assert(done + Seq::<Seq<u8>>::empty() =~= done);
            assert(full == Some(done));
            assert(!(exists|t: int| 0 <= t < nsyms && !is_utf8(done[t])));
            assert(Seq::new(nsyms as nat, |t: int| (done[t], be32_at(p, 4 + 4 * t)))
                =~= Seq::new(i as nat, |t: int| (done[t], be32_at(p, 4 + 4 * t))));
        }
        Ok(SymbolTable { entries })
    }

    /// The symbol names defined at member offset `off`, in table order.
    pub fn symbols_for_offset(&self, off: usize) -> (r: Vec<Vec<u8>>)
        ensures
            ({
                let s = spec_syms_at(entry_views(self.entries@), off as int);
                r@.len() == s.len() && forall|t: int| 0 <= t < s.len() ==> r@[t]@ == s[t]
            }),
    {
        let ghost ev = entry_views(self.entries@);
        let mut r: Vec<Vec<u8>> = Vec::new();
        let mut i: usize = 0;
        while i < self.entries.len()
            invariant
                i <= self.entries@.len(),
                ev == entry_views(self.entries@),
                ({
                    let s = spec_syms_at(ev.subrange(0, i as int), off as int);
                    r@.len() == s.len() && forall|t: int| 0 <= t < s.len() ==> r@[t]@ == s[t]
                }),
            decreases self.entries@.len() - i,
        {
            let e = &self.entries[i];
            let mut hit = false;
            let mut j: usize = 0;
            while j < e.offsets.len()
                invariant
                    j <= e.offsets@.len(),
                    hit == exists|q: int| 0 <= q < j && e.offsets@[q] as int == off as int,
                decreases e.offsets@.len() - j,
            {
                if e.offsets[j] as usize == off {
                    hit = true;
                }
                j = j + 1;
            }
            if hit {
                r.push(copy_range(e.name.as_slice(), 0, e.name.len()));
            }
            proof {
                let pre = ev.subrange(0, i as int);
                let now = ev.subrange(0, i + 1);
                assert(now.drop_last() =~~= pre);
                assert(now.last() == (e.name@, e.offsets@));
                assert(e.name@.subrange(0, e.name@.len() as int) =~= e.name@);
                if hit {
                    let q = choose|q: int|
                        0 <= q < e.offsets@.len() && e.offsets@[q] as int == off as int;
                    assert(0 <= q < now.last().1.len() && now.last().1[q] as int == off as int);
                } else {
                    if exists|q: int|
                        0 <= q < now.last().1.len() && now.last().1[q] as int == off as int {
                        let q = choose|q: int|
                            0 <= q < now.last().1.len() && now.last().1[q] as int == off as int;
                        assert(0 <= q < e.offsets@.len() && e.offsets@[q] as int == off as int);
                        assert(false);
                    }
                }
                assert(spec_syms_at(now, off as int) == spec_syms_at(pre, off as int) + (if hit {
                    seq![e.name@]
                } else {
                    Seq::<Seq<u8>>::empty()
                }));
            }
            i = i + 1;
        }
        proof {
            assert(ev.subrange(0, ev.len() as int) =~= ev);
        }
        r
    }

    /// The offsets recorded for `name`: those of the first entry whose
    /// name matches, or absent when no entry does.
    pub fn lookup(&self, name: &[u8]) -> (r: Option<&Vec<u32>>)
        ensures
            match spec_find_key(entry_views(self.entries@), name@, 0) {
                Option::None => r is None,
                Option::Some(i) => r matches Some(v) && v@ == entry_views(self.entries@)[i].1,
            },
    {
        match find_entry(&self.entries, name) {
            Some(i) => Some(&self.entries[i].offsets),
            None => None,
        }
    }
}

} // verus!
