//! Decimal text, byte-level field splitting and the dotted-quad notation of
//! IPv4 addresses.

use vstd::prelude::*;

verus! {

/// The ASCII code of `.`.
pub const DOT: u8 = 46;

/// True when `b` is the ASCII code of a decimal digit.
pub open spec fn is_digit(b: u8) -> bool {
    48 <= b <= 57
}

/// True when every byte of `s` is a decimal digit.
pub open spec fn all_digits(s: Seq<u8>) -> bool {
    forall|i: int| 0 <= i < s.len() ==> is_digit(#[trigger] s[i])
}

/// The number written by a sequence of decimal digits (most significant first).
pub open spec fn digits_value(s: Seq<u8>) -> nat
    decreases s.len(),
{
    if s.len() == 0 {
        0
    } else {
        digits_value(s.drop_last()) * 10 + (s.last() - 48) as nat
    }
}

/// The decimal text of `n`: its digits, most significant first, without
/// leading zeros (`"0"` for zero).
pub open spec fn decimal_text(n: nat) -> Seq<u8>
    decreases n,
{
    if n < 10 {
        seq![(48 + n) as u8]
    } else {
        decimal_text(n / 10).push((48 + n % 10) as u8)
    }
}

/// What the decimal text of a number looks like: nonempty, made of digits,
/// with a leading zero only in `"0"`, and as long as the size of the number
/// asks.
pub proof fn lemma_decimal_text(n: nat)
    ensures
        decimal_text(n).len() >= 1,
        all_digits(decimal_text(n)),
        digits_value(decimal_text(n)) == n,
        decimal_text(n)[0] != 48 || decimal_text(n).len() == 1,
        decimal_text(n).len() == 1 <==> n < 10,
        n < 100 ==> decimal_text(n).len() <= 2,
        n < 1000 ==> decimal_text(n).len() <= 3,
    decreases n,
{
    if n >= 10 {
        lemma_decimal_text(n / 10);
        let t = decimal_text(n / 10);
        assert(decimal_text(n).drop_last() =~= t);
        assert(decimal_text(n)[0] == t[0]);
        assert(n == (n / 10) * 10 + n % 10);
        assert(((48 + n % 10) as u8) == 48 + n % 10);
    } else {
        let c = (48 + n) as u8;
        assert(c == 48 + n);
        assert(digits_value(Seq::<u8>::empty()) == 0);
        assert(seq![c].drop_last() =~= Seq::<u8>::empty());
    }
}

/// A digit string whose first digit is not zero writes a positive number.
pub proof fn lemma_leading_digit_positive(s: Seq<u8>)
    requires
        all_digits(s),
        s.len() >= 1,
        s[0] != 48,
    ensures
        digits_value(s) >= 1,
    decreases s.len(),
{
    if s.len() > 1 {
        let t = s.drop_last();
        assert(t[0] == s[0]);
        assert(is_digit(t[0]));
        assert forall|i: int| 0 <= i < t.len() implies is_digit(#[trigger] t[i]) by {
            assert(t[i] == s[i]);
        }
        lemma_leading_digit_positive(t);
    } else {
        assert(is_digit(s[0]));
    }
}

/// A digit string without a superfluous leading zero is the decimal text of
/// the number it writes.
pub proof fn lemma_canonical_digits(s: Seq<u8>)
    requires
        all_digits(s),
        s.len() >= 1,
        s[0] != 48 || s.len() == 1,
    ensures
        decimal_text(digits_value(s)) == s,
    decreases s.len(),
{
    let d = s.last();
    assert(is_digit(s[s.len() - 1]));
    if s.len() == 1 {
        assert(s.drop_last() =~= Seq::<u8>::empty());
        assert(digits_value(Seq::<u8>::empty()) == 0);
        let c = s[0];
        assert(digits_value(s) == (c - 48) as nat);
        assert(((48 + digits_value(s)) as u8) == c);
        assert(decimal_text(digits_value(s)) =~= s);
    } else {
        let t = s.drop_last();
        assert(t[0] == s[0]);
        assert forall|i: int| 0 <= i < t.len() implies is_digit(#[trigger] t[i]) by {
            assert(t[i] == s[i]);
        }
        lemma_canonical_digits(t);
        lemma_leading_digit_positive(t);
        let v = digits_value(s);
        assert(v == digits_value(t) * 10 + (d - 48) as nat);
        assert(v / 10 == digits_value(t));
        assert(v % 10 == (d - 48) as nat);
        assert(decimal_text(v) =~= s);
    }
}

/// The number written by a prefix of a digit string is at most the number
/// written by the whole string.
pub proof fn lemma_digits_prefix_le(s: Seq<u8>, i: int)
    requires
        all_digits(s),
        0 <= i <= s.len(),
    ensures
        digits_value(s.take(i)) <= digits_value(s),
    decreases s.len(),
{
    if i < s.len() {
        let t = s.drop_last();
        assert forall|j: int| 0 <= j < t.len() implies is_digit(#[trigger] t[j]) by {
            assert(t[j] == s[j]);
        }
        lemma_digits_prefix_le(t, i);
        assert(t.take(i) =~= s.take(i));
    } else {
        assert(s.take(i) =~= s);
    }
}

/// Appends the decimal text of `n` to `out`.
pub fn push_decimal(out: &mut Vec<u8>, n: u128)
    ensures
        final(out)@ == old(out)@ + decimal_text(n as nat),
    decreases n,
{
    if n >= 10 {
        push_decimal(out, n / 10);
    }
    let d: u8 = (n % 10) as u8;
    out.push(48 + d);
    assert(final(out)@ =~= old(out)@ + decimal_text(n as nat));
}


/// The fields of `s` between occurrences of `sep`, in order (what `str::split`
/// gives for a one-byte separator): `n` separators give `n + 1` fields, some of
/// them possibly empty.
pub open spec fn split_on(s: Seq<u8>, sep: u8) -> Seq<Seq<u8>>
    decreases s.len(),
{
    if s.len() == 0 {
        seq![Seq::<u8>::empty()]
    } else {
        let fields = split_on(s.drop_last(), sep);
        if s.last() == sep {
            fields.push(Seq::<u8>::empty())
        } else {
            fields.update(fields.len() - 1, fields.last().push(s.last()))
        }
    }
}

/// The fields `parts` written one after another with `sep` between them.
pub open spec fn join_with(parts: Seq<Seq<u8>>, sep: u8) -> Seq<u8>
    decreases parts.len(),
{
    if parts.len() == 0 {
        Seq::<u8>::empty()
    } else if parts.len() == 1 {
        parts[0]
    } else {
        join_with(parts.drop_last(), sep) + seq![sep] + parts.last()
    }
}

/// True when `sep` does not occur in `s`.
pub open spec fn free_of(s: Seq<u8>, sep: u8) -> bool {
    forall|i: int| 0 <= i < s.len() ==> #[trigger] s[i] != sep
}

/// Splitting always gives at least one field.
pub proof fn lemma_split_nonempty(s: Seq<u8>, sep: u8)
    ensures
        split_on(s, sep).len() >= 1,
    decreases s.len(),
{
    if s.len() > 0 {
        lemma_split_nonempty(s.drop_last(), sep);
    }
}

/// Appending text free of the separator extends the last field.
pub proof fn lemma_split_extend(a: Seq<u8>, b: Seq<u8>, sep: u8)
    requires
        free_of(b, sep),
    ensures
        split_on(a + b, sep) == split_on(a, sep).update(
            split_on(a, sep).len() - 1,
            split_on(a, sep).last() + b,
        ),
    decreases b.len(),
{
    lemma_split_nonempty(a, sep);
    if b.len() == 0 {
        assert(a + b =~= a);
        assert(split_on(a, sep).last() + b =~= split_on(a, sep).last());
        assert(split_on(a, sep).update(split_on(a, sep).len() - 1, split_on(a, sep).last())
            =~= split_on(a, sep));
    } else {
        let b0 = b.drop_last();
        assert(free_of(b0, sep)) by {
            assert forall|i: int| 0 <= i < b0.len() implies #[trigger] b0[i] != sep by {
                assert(b0[i] == b[i]);
            }
        }
        lemma_split_extend(a, b0, sep);
        assert((a + b).drop_last() =~= a + b0);
        assert((a + b).last() == b.last());
        assert(b.last() == b[b.len() - 1]);
        assert((split_on(a, sep).last() + b0).push(b.last()) =~= split_on(a, sep).last() + b);
        assert(split_on(a + b, sep) =~= split_on(a, sep).update(
            split_on(a, sep).len() - 1,
            split_on(a, sep).last() + b,
        ));
    }
}

/// A separator followed by text free of it starts one more field.
pub proof fn lemma_split_field(a: Seq<u8>, b: Seq<u8>, sep: u8)
    requires
        free_of(b, sep),
    ensures
        split_on(a + seq![sep] + b, sep) == split_on(a, sep).push(b),
{
    let a1 = a + seq![sep];
    assert(a1.drop_last() =~= a);
    assert(a1.last() == sep);
    assert(split_on(a1, sep) == split_on(a, sep).push(Seq::<u8>::empty()));
    lemma_split_extend(a1, b, sep);
    assert(Seq::<u8>::empty() + b =~= b);
    assert(split_on(a1 + b, sep) =~= split_on(a, sep).push(b));
}

/// Text free of the separator is a single field.
pub proof fn lemma_split_single(b: Seq<u8>, sep: u8)
    requires
        free_of(b, sep),
    ensures
        split_on(b, sep) == seq![b],
{
    lemma_split_extend(Seq::<u8>::empty(), b, sep);
    assert(Seq::<u8>::empty() + b =~= b);
    assert(split_on(Seq::<u8>::empty(), sep) == seq![Seq::<u8>::empty()]);
    assert(split_on(b, sep) =~= seq![b]);
}

/// No field contains the separator.
pub proof fn lemma_split_fields_free(s: Seq<u8>, sep: u8)
    ensures
        forall|k: int| 0 <= k < split_on(s, sep).len() ==> free_of(#[trigger] split_on(s, sep)[k], sep),
    decreases s.len(),
{
    if s.len() > 0 {
        let t = s.drop_last();
        lemma_split_fields_free(t, sep);
        lemma_split_nonempty(t, sep);
        let p = split_on(t, sep);
        if s.last() != sep {
            let last = p.last().push(s.last());
            assert(free_of(p[p.len() - 1], sep));
            assert(free_of(last, sep)) by {
                assert forall|i: int| 0 <= i < last.len() implies #[trigger] last[i] != sep by {
                    if i < last.len() - 1 {
                        assert(last[i] == p[p.len() - 1][i]);
                    }
                }
            }
        }
    }
}

/// Joining the fields of `s` with the separator gives `s` back.
pub proof fn lemma_join_split(s: Seq<u8>, sep: u8)
    ensures
        join_with(split_on(s, sep), sep) == s,
    decreases s.len(),
{
    if s.len() == 0 {
        assert(join_with(split_on(s, sep), sep) =~= s);
    } else {
        let t = s.drop_last();
        let p = split_on(t, sep);
        lemma_join_split(t, sep);
        lemma_split_nonempty(t, sep);
        if s.last() == sep {
            let q = p.push(Seq::<u8>::empty());
            assert(q.drop_last() =~= p);
            assert(join_with(q, sep) =~= s);
        } else {
            let q = p.update(p.len() - 1, p.last().push(s.last()));
            if p.len() == 1 {
                assert(join_with(q, sep) =~= s);
            } else {
                assert(q.drop_last() =~= p.drop_last());
                assert(join_with(q, sep) =~= join_with(p, sep).push(s.last()));
                assert(join_with(q, sep) =~= s);
            }
        }
    }
}

/// Splits `s` into its fields between occurrences of `sep`.
pub fn split_bytes(s: &[u8], sep: u8) -> (fields: Vec<Vec<u8>>)
    ensures
        fields@.len() == split_on(s@, sep).len(),
        forall|k: int| 0 <= k < fields@.len() ==> #[trigger] fields@[k]@ == split_on(s@, sep)[k],
{
    let mut fields: Vec<Vec<u8>> = Vec::new();
    let mut cur: Vec<u8> = Vec::new();
    let mut i: usize = 0;
    assert(s@.take(0) =~= Seq::<u8>::empty());
    while i < s.len()
        invariant
            i <= s@.len(),
            split_on(s@.take(i as int), sep).len() == fields@.len() + 1,
            forall|k: int| 0 <= k < fields@.len() ==> #[trigger] fields@[k]@ == split_on(s@.take(i as int), sep)[k],
            split_on(s@.take(i as int), sep).last() == cur@,
        decreases s@.len() - i,
    {
        let b = s[i];
        let ghost before = split_on(s@.take(i as int), sep);
        assert(s@.take(i + 1).drop_last() =~= s@.take(i as int));
        assert(s@.take(i + 1).last() == b);
        if b == sep {
            let done = cur;
            fields.push(done);
            cur = Vec::new();
            assert(split_on(s@.take(i + 1), sep) == before.push(Seq::<u8>::empty()));
        } else {
            cur.push(b);
            assert(split_on(s@.take(i + 1), sep) == before.update(before.len() - 1, before.last().push(b)));
        }
        i = i + 1;
    }
    assert(s@.take(i as int) =~= s@);
    fields.push(cur);
    fields
}


/// The four octets of an IPv4 address, most significant first.
pub open spec fn octets(ip: u32) -> Seq<nat> {
    seq![
        (ip as nat) / 16777216,
        ((ip as nat) / 65536) % 256,
        ((ip as nat) / 256) % 256,
        (ip as nat) % 256,
    ]
}

/// The address whose octets are `a`, `b`, `c`, `d`, most significant first.
pub open spec fn quad_value(a: nat, b: nat, c: nat, d: nat) -> nat {
    a * 16777216 + b * 65536 + c * 256 + d
}

/// The decimal texts of the four octets of `ip`.
pub open spec fn ipv4_fields(ip: u32) -> Seq<Seq<u8>> {
    seq![
        decimal_text(octets(ip)[0]),
        decimal_text(octets(ip)[1]),
        decimal_text(octets(ip)[2]),
        decimal_text(octets(ip)[3]),
    ]
}

/// The dotted-quad notation of `ip` (as `Ipv4Addr` displays it): the four
/// octets in decimal, most significant first, separated by dots.
pub open spec fn ipv4_text(ip: u32) -> Seq<u8> {
    decimal_text(octets(ip)[0]) + seq![DOT] + decimal_text(octets(ip)[1]) + seq![DOT]
        + decimal_text(octets(ip)[2]) + seq![DOT] + decimal_text(octets(ip)[3])
}

/// True when `p` is one octet as the dotted-quad notation writes it: one to
/// three digits, no superfluous leading zero, at most 255.
pub open spec fn is_octet_text(p: Seq<u8>) -> bool {
    &&& 1 <= p.len() <= 3
    &&& all_digits(p)
    &&& (p[0] != 48 || p.len() == 1)
    &&& digits_value(p) <= 255
}

/// An address is the combination of its octets, and octets below 256 combine
/// into an address that has them as octets.
pub proof fn lemma_octets(ip: u32)
    ensures
        octets(ip)[0] < 256,
        octets(ip)[1] < 256,
        octets(ip)[2] < 256,
        octets(ip)[3] < 256,
        quad_value(octets(ip)[0], octets(ip)[1], octets(ip)[2], octets(ip)[3]) == ip as nat,
{
    let x = ip as nat;
    assert(x / 16777216 < 256);
    assert(x == (x / 16777216) * 16777216 + ((x / 65536) % 256) * 65536 + ((x / 256) % 256) * 256
        + x % 256) by (nonlinear_arith)
        requires
            x < 0x1_0000_0000,
    {
        assert(x == (x / 256) * 256 + x % 256);
        assert(x / 256 == (x / 65536) * 256 + (x / 256) % 256);
        assert(x / 65536 == (x / 16777216) * 256 + (x / 65536) % 256);
    }
}

/// Octets below 256 combine into an address whose octets they are.
pub proof fn lemma_quad_value(a: nat, b: nat, c: nat, d: nat)
    requires
        a < 256,
        b < 256,
        c < 256,
        d < 256,
    ensures
        quad_value(a, b, c, d) < 0x1_0000_0000,
        octets(quad_value(a, b, c, d) as u32) == seq![a, b, c, d],
{
    let x = quad_value(a, b, c, d);
    assert(x < 0x1_0000_0000) by (nonlinear_arith)
        requires
            a < 256,
            b < 256,
            c < 256,
            d < 256,
            x == a * 16777216 + b * 65536 + c * 256 + d,
    ;
    assert(x / 16777216 == a && (x / 65536) % 256 == b && (x / 256) % 256 == c && x % 256 == d)
        by (nonlinear_arith)
        requires
            a < 256,
            b < 256,
            c < 256,
            d < 256,
            x == a * 16777216 + b * 65536 + c * 256 + d,
    {
        assert(x == (a * 65536 + b * 256 + c) * 256 + d);
        assert(x / 256 == a * 65536 + b * 256 + c);
        assert(x / 256 == (a * 256 + b) * 256 + c);
        assert(x / 65536 == a * 256 + b);
    }
    assert(octets(x as u32) =~= seq![a, b, c, d]);
}

/// The decimal text of a number below 256 is octet text, free of dots.
pub proof fn lemma_octet_text(n: nat)
    requires
        n < 256,
    ensures
        is_octet_text(decimal_text(n)),
        free_of(decimal_text(n), DOT),
        digits_value(decimal_text(n)) == n,
{
    lemma_decimal_text(n);
    let t = decimal_text(n);
    assert forall|i: int| 0 <= i < t.len() implies #[trigger] t[i] != DOT by {
        assert(is_digit(t[i]));
    }
}

/// The fields of the dotted-quad notation of `ip` are the decimal texts of its
/// octets.
pub proof fn lemma_split_ipv4_text(ip: u32)
    ensures
        split_on(ipv4_text(ip), DOT) == ipv4_fields(ip),
{
    lemma_octets(ip);
    let o = octets(ip);
    lemma_octet_text(o[0]);
    lemma_octet_text(o[1]);
    lemma_octet_text(o[2]);
    lemma_octet_text(o[3]);
    let d0 = decimal_text(o[0]);
    let d1 = decimal_text(o[1]);
    let d2 = decimal_text(o[2]);
    let d3 = decimal_text(o[3]);
    lemma_split_single(d0, DOT);
    lemma_split_field(d0, d1, DOT);
    lemma_split_field(d0 + seq![DOT] + d1, d2, DOT);
    lemma_split_field(d0 + seq![DOT] + d1 + seq![DOT] + d2, d3, DOT);
    assert(split_on(ipv4_text(ip), DOT) =~= ipv4_fields(ip));
}

/// Different addresses have different dotted-quad notations.
pub proof fn lemma_ipv4_text_injective(a: u32, b: u32)
    requires
        ipv4_text(a) == ipv4_text(b),
    ensures
        a == b,
{
    lemma_split_ipv4_text(a);
    lemma_split_ipv4_text(b);
    assert(ipv4_fields(a) == ipv4_fields(b));
    lemma_octets(a);
    lemma_octets(b);
    assert forall|k: int| 0 <= k < 4 implies octets(a)[k] == octets(b)[k] by {
        assert(ipv4_fields(a)[k] == ipv4_fields(b)[k]);
        lemma_decimal_text(octets(a)[k]);
        lemma_decimal_text(octets(b)[k]);
    }
}

/// The octet written by `p`, where `p` is octet text.
pub fn parse_octet(p: &[u8]) -> (r: Option<u8>)
    ensures
        r is Some <==> is_octet_text(p@),
        r matches Some(v) ==> v as nat == digits_value(p@),
{
    let n = p.len();
    if n == 0 || n > 3 {
        return None;
    }
    if p[0] == 48 && n > 1 {
        return None;
    }
    let mut v: u32 = 0;
    let mut i: usize = 0;
    assert(p@.take(0) =~= Seq::<u8>::empty());
    while i < n
        invariant
            n == p@.len(),
            1 <= n <= 3,
            i <= n,
            all_digits(p@.take(i as int)),
            v as nat == digits_value(p@.take(i as int)),
            i == 0 ==> v == 0,
            i <= 1 ==> v < 10,
            i <= 2 ==> v < 100,
            v < 1000,
        decreases n - i,
    {
        let b = p[i];
        if b < 48 || b > 57 {
            assert(!all_digits(p@)) by {
                assert(!is_digit(p@[i as int]));
            }
            return None;
        }
        assert(p@.take(i + 1).drop_last() =~= p@.take(i as int));
        assert(p@.take(i + 1).last() == b);
        assert(all_digits(p@.take(i + 1))) by {
            assert forall|j: int| 0 <= j < i + 1 implies is_digit(#[trigger] p@.take(i + 1)[j]) by {
                if j < i {
                    assert(p@.take(i + 1)[j] == p@.take(i as int)[j]);
                }
            }
        }
        proof {
            lemma_digits_prefix_le(p@.take(i + 1), i as int);
        }
        v = v * 10 + (b - 48) as u32;
        i = i + 1;
    }
    assert(p@.take(n as int) =~= p@);
    if v > 255 {
        return None;
    }
    Some(v as u8)
}

/// The address written in dotted-quad notation by `s`, as `Ipv4Addr`'s
/// parser reads it: `Some(ip)` exactly when `s` is the notation of `ip`.
pub fn parse_ipv4(s: &[u8]) -> (r: Option<u32>)
    ensures
        match r {
            Some(ip) => ipv4_text(ip) == s@,
            None => forall|ip: u32| ipv4_text(ip) != s@,
        },
{
    let fields = split_bytes(s, DOT);
    if fields.len() != 4 {
        proof {
            assert forall|ip: u32| ipv4_text(ip) != s@ by {
                lemma_split_ipv4_text(ip);
            }
        }
        return None;
    }
    let o0 = parse_octet(fields[0].as_slice());
    let o1 = parse_octet(fields[1].as_slice());
    let o2 = parse_octet(fields[2].as_slice());
    let o3 = parse_octet(fields[3].as_slice());
    match (o0, o1, o2, o3) {
        (Some(a), Some(b), Some(c), Some(d)) => {
            let ip: u32 = (a as u32) * 16777216 + (b as u32) * 65536 + (c as u32) * 256 + (d as u32);
            proof {
                let f = split_on(s@, DOT);
                lemma_quad_value(a as nat, b as nat, c as nat, d as nat);
                assert(ip as nat == quad_value(a as nat, b as nat, c as nat, d as nat));
                assert(fields@[0]@ == f[0]);
                assert(fields@[1]@ == f[1]);
                assert(fields@[2]@ == f[2]);
                assert(fields@[3]@ == f[3]);
                lemma_canonical_digits(f[0]);
                lemma_canonical_digits(f[1]);
                lemma_canonical_digits(f[2]);
                lemma_canonical_digits(f[3]);
                lemma_join_split(s@, DOT);
                assert(f =~= seq![f[0], f[1], f[2], f[3]]);
                assert(f.drop_last().drop_last().drop_last() =~= seq![f[0]]);
                assert(f.drop_last().drop_last() =~= seq![f[0], f[1]]);
                assert(f.drop_last() =~= seq![f[0], f[1], f[2]]);
                let j1 = join_with(f.drop_last().drop_last().drop_last(), DOT);
                let j2 = join_with(f.drop_last().drop_last(), DOT);
                let j3 = join_with(f.drop_last(), DOT);
                assert(j1 == f[0]);
                assert(j2 == j1 + seq![DOT] + f[1]);
                assert(j3 == j2 + seq![DOT] + f[2]);
                assert(join_with(f, DOT) == j3 + seq![DOT] + f[3]);
                assert(octets(ip as u32) == seq![a as nat, b as nat, c as nat, d as nat]);
                assert(join_with(f, DOT) =~= ipv4_text(ip));
            }
            Some(ip)
        },
        _ => {
            proof {
                assert forall|ip: u32| ipv4_text(ip) != s@ by {
                    if ipv4_text(ip) == s@ {
                        lemma_split_ipv4_text(ip);
                        lemma_octets(ip);
                        lemma_octet_text(octets(ip)[0]);
                        lemma_octet_text(octets(ip)[1]);
                        lemma_octet_text(octets(ip)[2]);
                        lemma_octet_text(octets(ip)[3]);
                        assert(fields@[0]@ == ipv4_fields(ip)[0]);
                        assert(fields@[1]@ == ipv4_fields(ip)[1]);
                        assert(fields@[2]@ == ipv4_fields(ip)[2]);
                        assert(fields@[3]@ == ipv4_fields(ip)[3]);
                    }
                }
            }
            None
        },
    }
}

/// The dotted-quad notation of `ip`, as `Ipv4Addr` displays it.
pub fn format_ipv4(ip: u32) -> (text: Vec<u8>)
    ensures
        text@ == ipv4_text(ip),
{
    let mut out: Vec<u8> = Vec::new();
    push_decimal(&mut out, (ip / 16777216) as u128);
    out.push(DOT);
    push_decimal(&mut out, ((ip / 65536) % 256) as u128);
    out.push(DOT);
    push_decimal(&mut out, ((ip / 256) % 256) as u128);
    out.push(DOT);
    push_decimal(&mut out, (ip % 256) as u128);
    assert(out@ =~= ipv4_text(ip));
    out
}


/// The digits that an unsigned integer text carries: the text without one
/// leading `+`, if it has one.
pub open spec fn unsigned_digits(s: Seq<u8>) -> Seq<u8> {
    if s.len() > 0 && s[0] == 43 {
        s.drop_first()
    } else {
        s
    }
}

/// The value that `from_str` of an unsigned integer type whose largest value
/// is `max` reads from `s`: an optional `+`, then one or more decimal digits
/// writing a number no larger than `max`; `None` for any other text.
pub open spec fn unsigned_value(s: Seq<u8>, max: nat) -> Option<nat> {
    let d = unsigned_digits(s);
    if d.len() > 0 && all_digits(d) && digits_value(d) <= max {
        Some(digits_value(d))
    } else {
        None
    }
}

/// Reads an unsigned integer no larger than `max` from `s`, as `from_str` of
/// an unsigned integer type whose largest value is `max` does.
pub fn parse_unsigned(s: &[u8], max: u32) -> (r: Option<u32>)
    requires
        max <= 65535,
    ensures
        match r {
            Some(v) => unsigned_value(s@, max as nat) == Some(v as nat),
            None => unsigned_value(s@, max as nat) is None,
        },
{
    let n = s.len();
    let start: usize = if n > 0 && s[0] == 43 { 1 } else { 0 };
    let ghost d = unsigned_digits(s@);
    assert(d =~= s@.subrange(start as int, n as int));
    if start == n {
        return None;
    }
    let mut v: u32 = 0;
    let mut j: usize = start;
    assert(d.take(0) =~= Seq::<u8>::empty());
    while j < n
        invariant
            n == s@.len(),
            start <= j <= n,
            start < n,
            max <= 65535,
            d == s@.subrange(start as int, n as int),
            d == unsigned_digits(s@),
            all_digits(d.take(j - start)),
            v as nat == digits_value(d.take(j - start)),
            v <= max,
        decreases n - j,
    {
        let b = s[j];
        let ghost k = j - start;
        assert(d[k] == b);
        if b < 48 || b > 57 {
            assert(!is_digit(d[k]));
            return None;
        }
        assert(d.take(k + 1).drop_last() =~= d.take(k));
        assert(d.take(k + 1).last() == b);
        assert(all_digits(d.take(k + 1))) by {
            assert forall|i: int| 0 <= i < k + 1 implies is_digit(#[trigger] d.take(k + 1)[i]) by {
                if i < k {
                    assert(d.take(k + 1)[i] == d.take(k)[i]);
                }
            }
        }
        let next: u32 = v * 10 + (b - 48) as u32;
        if next > max {
            proof {
                if all_digits(d) {
                    lemma_digits_prefix_le(d, k + 1);
                }
            }
            return None;
        }
        v = next;
        j = j + 1;
    }
    assert(d.take(n - start) =~= d);
    Some(v)
}


/// The dotted-quad notation is made of digits and dots, so it is ASCII.
pub proof fn lemma_ipv4_text_ascii(ip: u32)
    ensures
        forall|i: int| 0 <= i < ipv4_text(ip).len() ==> #[trigger] ipv4_text(ip)[i] < 128,
        forall|i: int|
            0 <= i < ipv4_text(ip).len() ==> is_digit(#[trigger] ipv4_text(ip)[i]) || ipv4_text(ip)[i]
                == DOT,
{
    lemma_octets(ip);
    let o = octets(ip);
    lemma_octet_text(o[0]);
    lemma_octet_text(o[1]);
    lemma_octet_text(o[2]);
    lemma_octet_text(o[3]);
    let t = ipv4_text(ip);
    assert forall|i: int| 0 <= i < t.len() implies is_digit(#[trigger] t[i]) || t[i] == DOT by {
        let d0 = decimal_text(o[0]);
        let d1 = decimal_text(o[1]);
        let d2 = decimal_text(o[2]);
        let d3 = decimal_text(o[3]);
        if i < d0.len() {
            assert(is_digit(d0[i]));
        } else if i == d0.len() {
        } else if i < d0.len() + 1 + d1.len() {
            assert(is_digit(d1[i - d0.len() - 1]));
        } else if i == d0.len() + 1 + d1.len() {
        } else if i < d0.len() + 2 + d1.len() + d2.len() {
            assert(is_digit(d2[i - d0.len() - 2 - d1.len()]));
        } else if i == d0.len() + 2 + d1.len() + d2.len() {
        } else {
            assert(is_digit(d3[i - d0.len() - 3 - d1.len() - d2.len()]));
        }
    }
}

} // verus!
