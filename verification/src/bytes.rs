use vstd::prelude::*;

verus! {

/// `s` with its trailing ASCII spaces removed.
pub open spec fn spec_trim(s: Seq<u8>) -> Seq<u8>
    decreases s.len(),
{
    if s.len() > 0 && s.last() == 32u8 {
        spec_trim(s.drop_last())
    } else {
        s
    }
}

/// Strip the trailing ASCII space padding of a fixed-width field.
pub fn trim_spaces(b: &[u8]) -> (r: &[u8])
    ensures
        r@ == spec_trim(b@),
{
    let mut k: usize = b.len();
    proof {
        assert(b@.subrange(0, k as int) =~= b@);
    }
    while k > 0 && b[k - 1] == 32u8
        invariant
            k <= b@.len(),
            spec_trim(b@) == spec_trim(b@.subrange(0, k as int)),
        decreases k,
    {
        proof {
            assert(b@.subrange(0, k as int).drop_last() =~= b@.subrange(0, k - 1 as int));
        }
        k = k - 1;
    }
    &b[0..k]
}

/// Is `b` an ASCII digit of the given radix (radix at most 10)?
pub open spec fn is_radix_digit(b: u8, radix: int) -> bool {
    48 <= b && b < 48 + radix
}

/// A non-empty run of radix digits.
pub open spec fn is_radix_str(s: Seq<u8>, radix: int) -> bool {
    s.len() > 0 && forall|i: int| 0 <= i < s.len() ==> is_radix_digit(s[i], radix)
}

/// The numeric value of a digit string, most significant digit first.
pub open spec fn radix_value(s: Seq<u8>, radix: int) -> int
    decreases s.len(),
{
    if s.len() == 0 {
        0
    } else {
        radix_value(s.drop_last(), radix) * radix + (if is_radix_digit(s.last(), radix) {
            s.last() - 48
        } else {
            0
        })
    }
}

/// What a fixed-width numeric header field denotes: trim the trailing
/// space padding, then read the digits; absent when the trimmed bytes are
/// not a non-empty digit string or the value exceeds `max`.
pub open spec fn spec_parse_field(raw: Seq<u8>, radix: int, max: int) -> Option<int> {
    let t = spec_trim(raw);
    if is_radix_str(t, radix) && 0 <= radix_value(t, radix) <= max {
        Some(radix_value(t, radix))
    } else {
        None
    }
}

proof fn lemma_radix_value_nonneg(s: Seq<u8>, radix: int)
    requires
        radix >= 1,
    ensures
        radix_value(s, radix) >= 0,
    decreases s.len(),
{
    if s.len() > 0 {
        lemma_radix_value_nonneg(s.drop_last(), radix);
        assert(radix_value(s.drop_last(), radix) * radix >= 0) by (nonlinear_arith)
            requires radix_value(s.drop_last(), radix) >= 0 && radix >= 1;
    }
}

/// A digit string's value is at least the value of any of its prefixes.
proof fn lemma_radix_prefix_le(s: Seq<u8>, radix: int, k: int)
    requires
        2 <= radix,
        0 <= k <= s.len(),
        forall|i: int| 0 <= i < s.len() ==> is_radix_digit(s[i], radix),
    ensures
        radix_value(s.subrange(0, k), radix) <= radix_value(s, radix),
    decreases s.len() - k,
{
    if k == s.len() {
        assert(s.subrange(0, k) =~= s);
    } else {
        lemma_radix_prefix_le(s, radix, k + 1);
        let p = s.subrange(0, k + 1);
        assert(p.drop_last() =~= s.subrange(0, k));
        lemma_radix_value_nonneg(s.subrange(0, k), radix);
        assert(radix_value(s.subrange(0, k), radix) * radix >= radix_value(s.subrange(0, k), radix))
            by (nonlinear_arith)
            requires radix_value(s.subrange(0, k), radix) >= 0 && radix >= 2;
    }
}

proof fn lemma_acc_fits(acc: int, d: int, radix: int, m: int)
    by (nonlinear_arith)
    requires
        radix >= 1,
        0 <= d,
        d <= m,
        0 <= acc,
    ensures
        (acc <= (m - d) / radix) <==> (acc * radix + d <= m),
{
}

/// Parse a trimmed-and-padded numeric field: trailing spaces stripped,
/// the rest read as digits of `radix`, absent on any malformation or when
/// the value exceeds `max`.
pub fn parse_field(raw: &[u8], radix: u8, max: u64) -> (r: Option<u64>)
    requires
        2 <= radix <= 10,
        max >= 10,
    ensures
        r is Some <==> spec_parse_field(raw@, radix as int, max as int) is Some,
        r is Some ==> Some(r.unwrap() as int) == spec_parse_field(raw@, radix as int, max as int),
{
    let t = trim_spaces(raw);
    if t.len() == 0 {
        return None;
    }
    let ghost ts = t@;
    let mut acc: u64 = 0;
    let mut i: usize = 0;
    while i < t.len()
        invariant
            0 <= i <= ts.len(),
            t@ == ts,
            ts == spec_trim(raw@),
            ts.len() > 0,
            2 <= radix <= 10,
            max >= 10,
            forall|j: int| 0 <= j < i ==> is_radix_digit(ts[j], radix as int),
            acc as int == radix_value(ts.subrange(0, i as int), radix as int),
            acc <= max,
        decreases t.len() - i,
    {
        let b = t[i];
        if b < 48 || b >= 48 + radix {
            return None;
        }
        let d = (b - 48) as u64;
        proof {
            assert(ts.subrange(0, i + 1).drop_last() =~= ts.subrange(0, i as int));
            lemma_acc_fits(acc as int, d as int, radix as int, max as int);
        }
        if acc > (max - d) / (radix as u64) {
            proof {
                if is_radix_str(ts, radix as int) {
                    lemma_radix_prefix_le(ts, radix as int, i + 1);
                }
            }
            return None;
        }
        acc = acc * (radix as u64) + d;
        i = i + 1;
    }
    proof {
        assert(ts.subrange(0, i as int) =~= ts);
    }
    Some(acc)
}

/// The big-endian 32-bit value held at `s[i..i+4]`.
pub open spec fn be32_at(s: Seq<u8>, i: int) -> u32 {
    (s[i] * 0x1000000 + s[i + 1] * 0x10000 + s[i + 2] * 0x100 + s[i + 3]) as u32
}

/// Read a big-endian 32-bit integer at offset `i`.
pub fn read_be32(b: &[u8], i: usize) -> (r: u32)
    requires
        i + 4 <= b@.len(),
    ensures
        r == be32_at(b@, i as int),
{
    (b[i] as u32) * 0x1000000 + (b[i + 1] as u32) * 0x10000 + (b[i + 2] as u32) * 0x100 + (b[i
        + 3] as u32)
}

/// Copy `b[start..end]` into an owned vector.
pub fn copy_range(b: &[u8], start: usize, end: usize) -> (r: Vec<u8>)
    requires
        start <= end <= b@.len(),
    ensures
        r@ == b@.subrange(start as int, end as int),
{
    let mut r: Vec<u8> = Vec::new();
    let mut i: usize = start;
    while i < end
        invariant
            start <= i <= end <= b@.len(),
            r@ == b@.subrange(start as int, i as int),
        decreases end - i,
    {
        r.push(b[i]);
        proof {
            assert(b@.subrange(start as int, i + 1) =~= b@.subrange(start as int, i as int).push(
                b@[i as int],
            ));
        }
        i = i + 1;
    }
    r
}

/// Do two byte strings hold the same bytes?
pub fn bytes_eq(a: &[u8], b: &[u8]) -> (r: bool)
    ensures
        r == (a@ == b@),
{
    if a.len() != b.len() {
        proof {
            assert(a@ != b@);
        }
        return false;
    }
    let mut i: usize = 0;
    while i < a.len()
        invariant
            0 <= i <= a@.len(),
            a@.len() == b@.len(),
            forall|j: int| 0 <= j < i ==> a@[j] == b@[j],
        decreases a@.len() - i,
    {
        if a[i] != b[i] {
            return false;
        }
        i = i + 1;
    }
    proof {
        assert(a@ =~= b@);
    }
    true
}

/// The first index at or after `from` where `s` holds `byte`, if any.
pub open spec fn spec_find(s: Seq<u8>, from: int, byte: u8) -> Option<int>
    decreases s.len() - from,
    when 0 <= from <= s.len()
{
    if from >= s.len() {
        None
    } else if s[from] == byte {
        Some(from)
    } else {
        spec_find(s, from + 1, byte)
    }
}

/// Scan forward from `from` for the first occurrence of `byte`.
pub fn find_byte(b: &[u8], from: usize, byte: u8) -> (r: Option<usize>)
    requires
        from <= b@.len(),
    ensures
        r is Some <==> spec_find(b@, from as int, byte) is Some,
        r matches Some(i) ==> Some(i as int) == spec_find(b@, from as int, byte) && from <= i
            < b@.len() && b@[i as int] == byte,
{
    let mut i: usize = from;
    while i < b.len()
        invariant
            from <= i <= b@.len(),
            spec_find(b@, from as int, byte) == spec_find(b@, i as int, byte),
        decreases b@.len() - i,
    {
        if b[i] == byte {
            return Some(i);
        }
        i = i + 1;
    }
    None
}

/// The digits of `n` written in `radix`, most significant first.
pub open spec fn spec_digits(n: nat, radix: nat) -> Seq<u8>
    decreases n,
    when 2 <= radix
    via spec_digits_decreases
{
    if n < radix {
        seq![(48 + n) as u8]
    } else {
        spec_digits(n / radix, radix).push((48 + n % radix) as u8)
    }
}

#[via_fn]
proof fn spec_digits_decreases(n: nat, radix: nat) {
    if n >= radix {
        assert(n / radix < n) by (nonlinear_arith)
            requires n >= radix >= 2;
    }
}

/// A run of `k` ASCII spaces.
pub open spec fn spec_spaces(k: nat) -> Seq<u8> {
    Seq::new(k, |i: int| 32u8)
}

proof fn lemma_digits_value(n: nat, radix: nat)
    requires
        2 <= radix <= 10,
    ensures
        is_radix_str(spec_digits(n, radix), radix as int),
        radix_value(spec_digits(n, radix), radix as int) == n,
        spec_digits(n, radix).last() != 32u8,
    decreases n,
{
    if n < radix {
        let s = spec_digits(n, radix);
        assert(s =~= seq![(48 + n) as u8]);
        assert(s.last() == (48 + n) as u8);
        assert(s.last() == 48 + n);
        assert(is_radix_digit(s.last(), radix as int));
        assert(s.drop_last() =~= Seq::<u8>::empty());
        assert(radix_value(s.drop_last(), radix as int) == 0);
        assert(radix_value(s, radix as int) == 0 * (radix as int) + (s.last() - 48));
    } else {
        assert(n / radix < n) by (nonlinear_arith)
            requires n >= radix >= 2;
        let m = n / radix;
        let d = n % radix;
        lemma_digits_value(m, radix);
        let s = spec_digits(n, radix);
        assert(d < radix && m * radix + d == n) by (nonlinear_arith)
            requires n >= radix >= 2 && m == n / radix && d == n % radix;
        assert(s == spec_digits(m, radix).push((48 + d) as u8));
        assert(s.drop_last() =~= spec_digits(m, radix));
        assert(s.last() == (48 + d) as u8);
        assert(is_radix_digit(s.last(), radix as int));
        assert(radix_value(s, radix as int) == radix_value(s.drop_last(), radix as int) * (
        radix as int) + d);
        assert(forall|i: int| 0 <= i < s.len() ==> is_radix_digit(s[i], radix as int));
    }
}

proof fn lemma_trim_pad(s: Seq<u8>, k: nat)
    requires
        s.len() == 0 || s.last() != 32u8,
    ensures
        spec_trim(s + spec_spaces(k)) == s,
    decreases k,
{
    if k == 0 {
        assert(s + spec_spaces(0) =~= s);
    } else {
        let w = s + spec_spaces(k);
        assert(w.last() == 32u8);
        assert(w.drop_last() =~= s + spec_spaces((k - 1) as nat));
        lemma_trim_pad(s, (k - 1) as nat);
    }
}

/// Law: a numeric header field written as the digits of `n` followed by
/// space padding parses back to exactly `n`; encoding and re-parsing a
/// field value within range is the identity.
pub proof fn lemma_field_round_trip(n: u64, radix: u8, pad: nat, max: u64)
    requires
        2 <= radix <= 10,
        n <= max,
    ensures
        spec_parse_field(
            spec_digits(n as nat, radix as nat) + spec_spaces(pad),
            radix as int,
            max as int,
        ) == Some(n as int),
{
    lemma_digits_value(n as nat, radix as nat);
    lemma_trim_pad(spec_digits(n as nat, radix as nat), pad);
}

} // verus!


