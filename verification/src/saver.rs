//! The text of the report of reachable addresses: one comma-separated line
//! per probe result.

use vstd::prelude::*;
use vstd::utf8::encode_utf8;
use crate::pings::IpProperties;
use crate::text::{
    all_digits, decimal_text, digits_value, format_ipv4, free_of, ipv4_text, is_digit,
    lemma_decimal_text, lemma_ipv4_text_ascii, lemma_split_field, lemma_split_single,
    push_decimal, split_on,
};

verus! {

/// The ASCII code of `,`.
pub const COMMA: u8 = 44;

/// The ASCII code of the line feed.
pub const NEWLINE: u8 = 10;

/// `true` or `false`, as `bool` displays itself.
pub open spec fn bool_text(b: bool) -> Seq<u8> {
    if b {
        seq![116u8, 114u8, 117u8, 101u8]
    } else {
        seq![102u8, 97u8, 108u8, 115u8, 101u8]
    }
}

/// The report line of one result: address, up flag, round-trip time in
/// milliseconds and host name, separated by commas and ended by a line feed.
pub open spec fn record_line(p: IpProperties) -> Seq<u8> {
    ipv4_text(p.ip) + seq![COMMA] + bool_text(p.up) + seq![COMMA] + decimal_text(
        p.rtt_millis as nat,
    ) + seq![COMMA] + encode_utf8(p.hostname@) + seq![NEWLINE]
}

/// The report lines of the results, in order.
pub open spec fn records_text(s: Seq<IpProperties>) -> Seq<u8>
    decreases s.len(),
{
    if s.len() == 0 {
        Seq::<u8>::empty()
    } else {
        records_text(s.drop_last()) + record_line(s.last())
    }
}

/// Appends the bytes of `bytes` to `out`.
fn push_bytes(out: &mut Vec<u8>, bytes: &[u8])
    ensures
        final(out)@ == old(out)@ + bytes@,
{
    let mut i: usize = 0;
    while i < bytes.len()
        invariant
            i <= bytes@.len(),
            out@ == old(out)@ + bytes@.take(i as int),
        decreases bytes@.len() - i,
    {
        out.push(bytes[i]);
        assert(bytes@.take(i + 1) =~= bytes@.take(i as int).push(bytes@[i as int]));
        i += 1;
    }
    assert(bytes@.take(i as int) =~= bytes@);
}

/// Appends the report line of `prop` to `out`.
fn push_record(out: &mut Vec<u8>, prop: &IpProperties)
    ensures
        final(out)@ == old(out)@ + record_line(*prop),
{
    let ip = format_ipv4(prop.ip);
    push_bytes(out, ip.as_slice());
    out.push(COMMA);
    if prop.up {
        let word: Vec<u8> = vec![116, 114, 117, 101];
        push_bytes(out, word.as_slice());
    } else {
        let word: Vec<u8> = vec![102, 97, 108, 115, 101];
        push_bytes(out, word.as_slice());
    }
    out.push(COMMA);
    push_decimal(out, prop.rtt_millis);
    out.push(COMMA);
    push_bytes(out, prop.hostname.as_str().as_bytes());
    out.push(NEWLINE);
    assert(out@ =~= old(out)@ + record_line(*prop));
}

/// The report text of the results: one line per result, in order.
pub fn format_records(properties: &Vec<IpProperties>) -> (data: Vec<u8>)
    ensures
        data@ == records_text(properties@),
{
    let mut data: Vec<u8> = Vec::new();
    let mut i: usize = 0;
    assert(properties@.take(0) =~= Seq::<IpProperties>::empty());
    while i < properties.len()
        invariant
            i <= properties@.len(),
            data@ == records_text(properties@.take(i as int)),
        decreases properties@.len() - i,
    {
        assert(properties@.take(i + 1).drop_last() =~= properties@.take(i as int));
        push_record(&mut data, &properties[i]);
        i += 1;
    }
    assert(properties@.take(i as int) =~= properties@);
    data
}


/// The report line of one open port of `ip`: the address and the port,
/// separated by a comma and ended by a line feed.
pub open spec fn open_port_line(ip: u32, port: u16) -> Seq<u8> {
    ipv4_text(ip) + seq![COMMA] + decimal_text(port as nat) + seq![NEWLINE]
}

/// The report lines of the open ports of `ip`, in order.
pub open spec fn open_ports_text(ip: u32, ports: Seq<u16>) -> Seq<u8>
    decreases ports.len(),
{
    if ports.len() == 0 {
        Seq::<u8>::empty()
    } else {
        open_ports_text(ip, ports.drop_last()) + open_port_line(ip, ports.last())
    }
}

/// The report text of the open ports found on `ip`: one line per port, in
/// order.
pub fn format_open_ports(ip: u32, ports: &Vec<u16>) -> (data: Vec<u8>)
    ensures
        data@ == open_ports_text(ip, ports@),
{
    let text = format_ipv4(ip);
    let mut data: Vec<u8> = Vec::new();
    let mut i: usize = 0;
    assert(ports@.take(0) =~= Seq::<u16>::empty());
    while i < ports.len()
        invariant
            i <= ports@.len(),
            text@ == ipv4_text(ip),
            data@ == open_ports_text(ip, ports@.take(i as int)),
        decreases ports@.len() - i,
    {
        assert(ports@.take(i + 1).drop_last() =~= ports@.take(i as int));
        let ghost before = data@;
        push_bytes(&mut data, text.as_slice());
        data.push(COMMA);
        push_decimal(&mut data, ports[i] as u128);
        data.push(NEWLINE);
        assert(data@ =~= before + open_port_line(ip, ports@[i as int]));
        i += 1;
    }
    assert(ports@.take(i as int) =~= ports@);
    data
}

/// Appending reports: the report of two runs of results, one after the other,
/// is the report of the first followed by the report of the second.
pub proof fn law_records_text_append(a: Seq<IpProperties>, b: Seq<IpProperties>)
    ensures
        records_text(a + b) == records_text(a) + records_text(b),
    decreases b.len(),
{
    if b.len() == 0 {
        assert(a + b =~= a);
        assert(records_text(a) + records_text(b) =~= records_text(a));
    } else {
        law_records_text_append(a, b.drop_last());
        assert((a + b).drop_last() =~= a + b.drop_last());
        assert((a + b).last() == b.last());
        assert(records_text(a + b) =~= records_text(a) + records_text(b));
    }
}


/// The report of a single result is that result's line.
pub proof fn law_records_text_single(p: IpProperties)
    ensures
        records_text(seq![p]) == record_line(p),
{
    let s = seq![p];
    assert(s.drop_last() =~= Seq::<IpProperties>::empty());
    assert(records_text(s.drop_last()) == Seq::<u8>::empty());
    assert(s.last() == p);
    assert(records_text(s) =~= record_line(p));
}

/// A report line holds the result's fields: it starts with the address in
/// dotted-quad notation and a comma; then come the up flag as `true` or
/// `false` and the round-trip time in decimal digits, separated by a comma;
/// then a comma, the host name's whole UTF-8 text and a line feed.
pub proof fn law_record_line_fields(p: IpProperties)
    ensures
        ({
            let line = record_line(p);
            let t = ipv4_text(p.ip);
            let h = encode_utf8(p.hostname@);
            let mid = line.subrange(t.len() + 1int, line.len() - 2 - h.len());
            &&& line.len() >= t.len() + h.len() + 3
            &&& line.take(t.len() as int) == t
            &&& line[t.len() as int] == COMMA
            &&& line[line.len() - 2 - h.len()] == COMMA
            &&& line.subrange(line.len() - 1 - h.len(), line.len() - 1) == h
            &&& line.last() == NEWLINE
            &&& split_on(mid, COMMA).len() == 2
            &&& split_on(mid, COMMA)[0] == if p.up {
                seq![116u8, 114u8, 117u8, 101u8]
            } else {
                seq![102u8, 97u8, 108u8, 115u8, 101u8]
            }
            &&& all_digits(split_on(mid, COMMA)[1])
            &&& digits_value(split_on(mid, COMMA)[1]) == p.rtt_millis
        }),
{
    let line = record_line(p);
    let t = ipv4_text(p.ip);
    let h = encode_utf8(p.hostname@);
    let b = bool_text(p.up);
    let d = decimal_text(p.rtt_millis as nat);
    lemma_decimal_text(p.rtt_millis as nat);
    assert(line =~= t + seq![COMMA] + b + seq![COMMA] + d + seq![COMMA] + h + seq![NEWLINE]);
    let mid = line.subrange(t.len() + 1int, line.len() - 2 - h.len());
    assert(mid =~= b + seq![COMMA] + d);
    assert(line.take(t.len() as int) =~= t);
    assert(line.subrange(line.len() - 1 - h.len(), line.len() - 1) =~= h);
    assert(free_of(b, COMMA));
    assert(free_of(d, COMMA)) by {
        assert forall|i: int| 0 <= i < d.len() implies #[trigger] d[i] != COMMA by {
            assert(is_digit(d[i]));
        }
    }
    lemma_split_single(b, COMMA);
    lemma_split_field(b, d, COMMA);
}

/// The report of the open ports of one port is that port's line.
pub proof fn law_open_ports_text_single(ip: u32, port: u16)
    ensures
        open_ports_text(ip, seq![port]) == open_port_line(ip, port),
{
    let s = seq![port];
    assert(s.drop_last() =~= Seq::<u16>::empty());
    assert(open_ports_text(ip, s.drop_last()) == Seq::<u8>::empty());
    assert(s.last() == port);
    assert(open_ports_text(ip, s) =~= open_port_line(ip, port));
}

/// The report of two lists of open ports, one after the other, is the report
/// of the first followed by the report of the second.
pub proof fn law_open_ports_text_append(ip: u32, a: Seq<u16>, b: Seq<u16>)
    ensures
        open_ports_text(ip, a + b) == open_ports_text(ip, a) + open_ports_text(ip, b),
    decreases b.len(),
{
    if b.len() == 0 {
        assert(a + b =~= a);
        assert(open_ports_text(ip, a) + open_ports_text(ip, b) =~= open_ports_text(ip, a));
    } else {
        law_open_ports_text_append(ip, a, b.drop_last());
        assert((a + b).drop_last() =~= a + b.drop_last());
        assert((a + b).last() == b.last());
        assert(open_ports_text(ip, a + b) =~= open_ports_text(ip, a) + open_ports_text(ip, b));
    }
}

/// An open-port line holds the address in dotted-quad notation, a comma, the
/// port in decimal digits and a line feed.
pub proof fn law_open_port_line_fields(ip: u32, port: u16)
    ensures
        ({
            let line = open_port_line(ip, port);
            let t = ipv4_text(ip);
            let digits = line.subrange(t.len() + 1int, line.len() - 1);
            &&& line.len() >= t.len() + 3
            &&& line.take(t.len() as int) == t
            &&& line[t.len() as int] == COMMA
            &&& line.last() == NEWLINE
            &&& all_digits(digits)
            &&& digits_value(digits) == port
        }),
{
    let line = open_port_line(ip, port);
    let t = ipv4_text(ip);
    let d = decimal_text(port as nat);
    lemma_decimal_text(port as nat);
    assert(line.take(t.len() as int) =~= t);
    assert(line.subrange(t.len() + 1int, line.len() - 1) =~= d);
}

/// How many times the byte `b` occurs in `s`.
pub open spec fn count_of(s: Seq<u8>, b: u8) -> nat
    decreases s.len(),
{
    if s.len() == 0 {
        0
    } else {
        count_of(s.drop_last(), b) + if s.last() == b {
            1nat
        } else {
            0nat
        }
    }
}

/// Counting in two byte sequences, one after the other, adds the counts.
proof fn lemma_count_of_add(a: Seq<u8>, c: Seq<u8>, b: u8)
    ensures
        count_of(a + c, b) == count_of(a, b) + count_of(c, b),
    decreases c.len(),
{
    if c.len() == 0 {
        assert(a + c =~= a);
    } else {
        lemma_count_of_add(a, c.drop_last(), b);
        assert((a + c).drop_last() =~= a + c.drop_last());
        assert((a + c).last() == c.last());
    }
}

/// A byte sequence in which `b` does not occur counts none of it.
proof fn lemma_count_of_absent(s: Seq<u8>, b: u8)
    requires
        forall|i: int| 0 <= i < s.len() ==> #[trigger] s[i] != b,
    ensures
        count_of(s, b) == 0,
    decreases s.len(),
{
    if s.len() > 0 {
        lemma_count_of_absent(s.drop_last(), b);
        assert(s.last() == s[s.len() - 1]);
    }
}

/// The open-ports report has one line per port: it holds exactly as many
/// line feeds as ports.
pub proof fn law_open_ports_one_line_each(ip: u32, ports: Seq<u16>)
    ensures
        count_of(open_ports_text(ip, ports), NEWLINE) == ports.len(),
    decreases ports.len(),
{
    if ports.len() > 0 {
        let port = ports.last();
        law_open_ports_one_line_each(ip, ports.drop_last());
        let t = ipv4_text(ip);
        let d = decimal_text(port as nat);
        let body = t + seq![COMMA] + d;
        lemma_ipv4_text_ascii(ip);
        lemma_decimal_text(port as nat);
        assert forall|i: int| 0 <= i < body.len() implies #[trigger] body[i] != NEWLINE by {
            if i < t.len() {
                assert(is_digit(t[i]) || t[i] == 46);
            } else if i > t.len() {
                assert(is_digit(d[i - t.len() - 1]));
            }
        }
        lemma_count_of_absent(body, NEWLINE);
        assert(open_port_line(ip, port) =~= body + seq![NEWLINE]);
        let nl = seq![NEWLINE];
        assert(nl.drop_last() =~= Seq::<u8>::empty());
        assert(count_of(nl.drop_last(), NEWLINE) == 0);
        assert(count_of(nl, NEWLINE) == 1);
        lemma_count_of_add(body, seq![NEWLINE], NEWLINE);
        lemma_count_of_add(open_ports_text(ip, ports.drop_last()), open_port_line(ip, port), NEWLINE);
    }
}
} // verus!
