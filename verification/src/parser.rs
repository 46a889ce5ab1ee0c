//! Reading the address-range list and expanding it into addresses.
//!
//! Each line of the range list is `start;end`, with both addresses in
//! dotted-quad notation; further `;`-separated fields (such as an address
//! count) are ignored.

use vstd::prelude::*;
use crate::text::{
    decimal_text, format_ipv4, free_of, ipv4_fields, ipv4_text, lemma_ipv4_text_injective,
    lemma_octet_text, lemma_octets, lemma_split_field, lemma_split_fields_free,
    lemma_split_ipv4_text, lemma_split_nonempty, lemma_split_single, octets, parse_ipv4,
    parse_unsigned, split_bytes, split_on, unsigned_digits, unsigned_value, DOT,
};

verus! {

/// The ASCII code of `;`, the field separator of the range list.
pub const SEMICOLON: u8 = 59;

/// An inclusive range of IPv4 addresses.
#[derive(Clone, Copy, Debug, PartialEq, Eq)]
pub struct IpRange {
    pub start_ip: u32,
    pub end_ip: u32,
}

/// Why a line of the range list could not be read.
#[derive(Clone, Copy, Debug, PartialEq, Eq)]
pub enum LineError {
    /// The first field is not an address in dotted-quad notation.
    InvalidStart,
    /// The line has no second field.
    MissingEnd,
    /// The second field is not an address in dotted-quad notation.
    InvalidEnd,
}

/// A line of the range list that could not be read: its index and the reason.
#[derive(Clone, Copy, Debug, PartialEq, Eq)]
pub struct CsvError {
    pub line: usize,
    pub error: LineError,
}

/// The address whose dotted-quad notation is `s`, if there is one.
pub open spec fn ipv4_of(s: Seq<u8>) -> Option<u32> {
    if exists|ip: u32| ipv4_text(ip) == s {
        Some(choose|ip: u32| ipv4_text(ip) == s)
    } else {
        None
    }
}

/// What a line of the range list reads as.
pub open spec fn range_of_line(line: Seq<u8>) -> Result<IpRange, LineError> {
    let fields = split_on(line, SEMICOLON);
    match ipv4_of(fields[0]) {
        None => Err(LineError::InvalidStart),
        Some(start) => if fields.len() < 2 {
            Err(LineError::MissingEnd)
        } else {
            match ipv4_of(fields[1]) {
                None => Err(LineError::InvalidEnd),
                Some(end) => Ok(IpRange { start_ip: start, end_ip: end }),
            }
        },
    }
}

/// The address `n` places after `ip`, counting past 255.255.255.255 round to
/// 0.0.0.0.
pub open spec fn offset_ip(ip: u32, n: int) -> u32 {
    if ip + n <= u32::MAX {
        (ip + n) as u32
    } else {
        (ip + n - 0x1_0000_0000) as u32
    }
}

/// The addresses of a range in ascending order; none when the start is past
/// the end.
pub open spec fn range_ips(r: IpRange) -> Seq<u32> {
    if r.start_ip > r.end_ip {
        Seq::<u32>::empty()
    } else {
        Seq::new((r.end_ip - r.start_ip + 1) as nat, |k: int| (r.start_ip + k) as u32)
    }
}

/// The addresses of the ranges, range after range.
pub open spec fn ranges_ips(rs: Seq<IpRange>) -> Seq<u32>
    decreases rs.len(),
{
    if rs.len() == 0 {
        Seq::<u32>::empty()
    } else {
        ranges_ips(rs.drop_last()) + range_ips(rs.last())
    }
}

/// When `ip` is the notation of some address, that address is the one
/// `ipv4_of` names.
pub proof fn lemma_ipv4_of(s: Seq<u8>, ip: u32)
    requires
        ipv4_text(ip) == s,
    ensures
        ipv4_of(s) == Some(ip),
{
    let c = choose|x: u32| ipv4_text(x) == s;
    lemma_ipv4_text_injective(c, ip);
}

/// The address `n` places after `ip`, wrapping round after 255.255.255.255.
pub fn add_to_ip(ip: u32, n: u32) -> (r: u32)
    ensures
        r == offset_ip(ip, n as int),
{
    ip.wrapping_add(n)
}

/// The addresses of a range, from its start up to and including its end, in
/// ascending order (the whole range, also when it ends at 255.255.255.255);
/// none when the start is past the end.
pub fn unwrap_ips(record: IpRange) -> (ips: Vec<u32>)
    ensures
        ips@ == range_ips(record),
{
    let mut ips: Vec<u32> = Vec::new();
    if record.start_ip > record.end_ip {
        assert(ips@ =~= range_ips(record));
        return ips;
    }
    let span: u32 = record.end_ip - record.start_ip;
    let mut i: u32 = 0;
    loop
        invariant_except_break
            record.start_ip <= record.end_ip,
            span == record.end_ip - record.start_ip,
            i <= span,
            ips@ =~= Seq::new(i as nat, |k: int| (record.start_ip + k) as u32),
        ensures
            ips@ =~= range_ips(record),
        decreases span - i,
    {
        let ip = add_to_ip(record.start_ip, i);
        ips.push(ip);
        if i == span {
            break;
        }
        i += 1;
    }
    ips
}

/// Whether the dotted-quad notation of `ip` splits at its dots into four
/// fields that each read as a byte. Every address passes.
pub fn is_ip_valid(ip: u32) -> (valid: bool)
    ensures
        valid,
{
    let text = format_ipv4(ip);
    let fields = split_bytes(text.as_slice(), DOT);
    proof {
        lemma_split_ipv4_text(ip);
        lemma_octets(ip);
    }
    if fields.len() != 4 {
        return false;
    }
    let mut k: usize = 0;
    while k < 4
        invariant
            fields@.len() == 4,
            forall|j: int| 0 <= j < 4 ==> #[trigger] fields@[j]@ == ipv4_fields(ip)[j],
            forall|j: int| 0 <= j < 4 ==> #[trigger] octets(ip)[j] < 256,
        decreases 4 - k,
    {
        proof {
            lemma_octet_text(octets(ip)[k as int]);
            assert(fields@[k as int]@ == decimal_text(octets(ip)[k as int]));
            assert(unsigned_digits(fields@[k as int]@) == fields@[k as int]@);
        }
        if parse_unsigned(fields[k].as_slice(), 255).is_none() {
            return false;
        }
        k += 1;
    }
    true
}


/// Reads one line of the range list.
pub fn parse_range_line(line: &[u8]) -> (r: Result<IpRange, LineError>)
    ensures
        r == range_of_line(line@),
{
    let fields = split_bytes(line, SEMICOLON);
    proof {
        lemma_split_nonempty(line@, SEMICOLON);
    }
    let start = parse_ipv4(fields[0].as_slice());
    match start {
        None => Err(LineError::InvalidStart),
        Some(a) => {
            proof {
                lemma_ipv4_of(split_on(line@, SEMICOLON)[0], a);
            }
            if fields.len() < 2 {
                return Err(LineError::MissingEnd);
            }
            match parse_ipv4(fields[1].as_slice()) {
                None => Err(LineError::InvalidEnd),
                Some(b) => {
                    proof {
                        lemma_ipv4_of(split_on(line@, SEMICOLON)[1], b);
                    }
                    Ok(IpRange { start_ip: a, end_ip: b })
                },
            }
        },
    }
}

/// True when every line of the range list reads as a range.
pub open spec fn lines_readable(lines: Seq<Vec<u8>>) -> bool {
    forall|k: int| 0 <= k < lines.len() ==> (#[trigger] range_of_line(lines[k]@)) is Ok
}

/// The first line of the range list that does not read as a range, with the
/// reason, if there is one. (The program stops on such a line.)
pub fn first_bad_line(lines: &Vec<Vec<u8>>) -> (bad: Option<CsvError>)
    ensures
        bad is None <==> lines_readable(lines@),
        bad matches Some(e) ==> {
            &&& e.line < lines@.len()
            &&& range_of_line(lines@[e.line as int]@) == Err::<IpRange, LineError>(e.error)
            &&& forall|k: int| 0 <= k < e.line ==> (#[trigger] range_of_line(lines@[k]@)) is Ok
        },
{
    let mut i: usize = 0;
    while i < lines.len()
        invariant
            i <= lines@.len(),
            forall|k: int| 0 <= k < i ==> (#[trigger] range_of_line(lines@[k]@)) is Ok,
        decreases lines@.len() - i,
    {
        match parse_range_line(lines[i].as_slice()) {
            Ok(_) => {},
            Err(error) => {
                return Some(CsvError { line: i, error });
            },
        }
        i += 1;
    }
    None
}

/// Reads the lines of the range list, all of which read as ranges: every
/// range, in order.
pub fn read_csv(lines: &Vec<Vec<u8>>) -> (ranges: Vec<IpRange>)
    requires
        lines_readable(lines@),
    ensures
        ranges@.len() == lines@.len(),
        forall|k: int|
            0 <= k < lines@.len() ==> range_of_line(#[trigger] lines@[k]@) == Ok::<
                IpRange,
                LineError,
            >(ranges@[k]),
{
    let mut ranges: Vec<IpRange> = Vec::new();
    let mut i: usize = 0;
    while i < lines.len()
        invariant
            i <= lines@.len(),
            lines_readable(lines@),
            ranges@.len() == i,
            forall|k: int|
                0 <= k < i ==> range_of_line(#[trigger] lines@[k]@) == Ok::<IpRange, LineError>(
                    ranges@[k],
                ),
        decreases lines@.len() - i,
    {
        let r = parse_range_line(lines[i].as_slice());
        assert(range_of_line(lines@[i as int]@) is Ok);
        match r {
            Ok(range) => {
                ranges.push(range);
            },
            Err(_) => {},
        }
        i += 1;
    }
    ranges
}

/// The ranges whose two ends both pass `is_ip_valid`, in order.
pub fn valid_records(records: Vec<IpRange>) -> (valid: Vec<IpRange>)
    ensures
        valid@ == records@,
{
    let mut valid: Vec<IpRange> = Vec::new();
    let mut i: usize = 0;
    while i < records.len()
        invariant
            i <= records@.len(),
            valid@ == records@.take(i as int),
        decreases records@.len() - i,
    {
        let record = records[i];
        if is_ip_valid(record.start_ip) && is_ip_valid(record.end_ip) {
            valid.push(record);
        }
        assert(records@.take(i + 1) =~= records@.take(i as int).push(record));
        i += 1;
    }
    assert(records@.take(records@.len() as int) =~= records@);
    valid
}

/// The addresses of all ranges, range after range, each range in ascending
/// order.
pub fn expand_records(records: &Vec<IpRange>) -> (ips: Vec<u32>)
    ensures
        ips@ == ranges_ips(records@),
        ips@ == range_lists(records@).flatten(),
        forall|k: int, ip: u32|
            0 <= k < records@.len() && (#[trigger] records@[k]).start_ip <= ip <= records@[k].end_ip
                ==> #[trigger] ips@.contains(ip),
{
    let mut ips: Vec<u32> = Vec::new();
    let mut i: usize = 0;
    assert(records@.take(0) =~= Seq::<IpRange>::empty());
    while i < records.len()
        invariant
            i <= records@.len(),
            ips@ == ranges_ips(records@.take(i as int)),
        decreases records@.len() - i,
    {
        let mut record_ips = unwrap_ips(records[i]);
        assert(records@.take(i + 1).drop_last() =~= records@.take(i as int));
        ips.append(&mut record_ips);
        i += 1;
    }
    assert(records@.take(records@.len() as int) =~= records@);
    proof {
        law_ranges_ips_concatenate(records@);
        law_ranges_ips_members(records@);
    }
    ips
}

/// The ranges that the lines of the range list read as, line by line (where a
/// line does not read, its entry is meaningless).
pub open spec fn lines_ranges(lines: Seq<Vec<u8>>) -> Seq<IpRange> {
    Seq::new(
        lines.len(),
        |k: int|
            match range_of_line(lines[k]@) {
                Ok(r) => r,
                Err(_) => IpRange { start_ip: 0, end_ip: 0 },
            },
    )
}

/// Reads the range list, all of whose lines read as ranges, and lists its
/// addresses: the number of ranges whose ends are valid addresses and the
/// addresses of those ranges, range after range.
pub fn parse_ips(lines: &Vec<Vec<u8>>) -> (parsed: (usize, Vec<u32>))
    requires
        lines_readable(lines@),
    ensures
        parsed.0 == lines@.len(),
        parsed.1@ == ranges_ips(lines_ranges(lines@)),
        parsed.1@ == range_lists(lines_ranges(lines@)).flatten(),
        forall|k: int, ip: u32|
            0 <= k < lines@.len() && (#[trigger] lines_ranges(lines@)[k]).start_ip <= ip
                <= lines_ranges(lines@)[k].end_ip ==> #[trigger] parsed.1@.contains(ip),
{
    let records = read_csv(lines);
    assert(records@ =~= lines_ranges(lines@)) by {
        assert forall|k: int| 0 <= k < lines@.len() implies records@[k] == #[trigger] lines_ranges(
            lines@,
        )[k] by {
            assert(range_of_line(lines@[k]@) == Ok::<IpRange, LineError>(records@[k]));
        }
    }
    let valid = valid_records(records);
    let count = valid.len();
    let ips = expand_records(&valid);
    proof {
        law_ranges_ips_concatenate(lines_ranges(lines@));
        law_ranges_ips_members(lines_ranges(lines@));
    }
    (count, ips)
}

/// Reads the port list: one port per line, each line as `u16::from_str`
/// reads it; the ports in order, or the index of the first line that is not
/// a port.
pub fn parse_ports(lines: &Vec<Vec<u8>>) -> (r: Result<Vec<u16>, usize>)
    ensures
        match r {
            Ok(ports) => {
                &&& ports@.len() == lines@.len()
                &&& forall|k: int|
                    0 <= k < lines@.len() ==> unsigned_value(#[trigger] lines@[k]@, 65535) == Some(
                        ports@[k] as nat,
                    )
            },
            Err(bad) => {
                &&& bad < lines@.len()
                &&& unsigned_value(lines@[bad as int]@, 65535) is None
                &&& forall|k: int| 0 <= k < bad ==> (#[trigger] unsigned_value(lines@[k]@, 65535)) is Some
            },
        },
{
    let mut ports: Vec<u16> = Vec::new();
    let mut i: usize = 0;
    while i < lines.len()
        invariant
            i <= lines@.len(),
            ports@.len() == i,
            forall|k: int|
                0 <= k < i ==> unsigned_value(#[trigger] lines@[k]@, 65535) == Some(
                    ports@[k] as nat,
                ),
        decreases lines@.len() - i,
    {
        match parse_unsigned(lines[i].as_slice(), 65535) {
            Some(port) => {
                ports.push(port as u16);
            },
            None => {
                return Err(i);
            },
        }
        i += 1;
    }
    Ok(ports)
}


/// Reading the dotted-quad notation of an address gives the address back.
pub proof fn law_ipv4_text_reads_back(ip: u32)
    ensures
        ipv4_of(ipv4_text(ip)) == Some(ip),
{
    lemma_ipv4_of(ipv4_text(ip), ip);
}

/// Only the first two fields of a range line count: a line with more fields
/// (such as the address count some range lists carry) reads as the line made
/// of its first two fields.
pub proof fn law_extra_fields_ignored(line: Seq<u8>)
    requires
        split_on(line, SEMICOLON).len() >= 2,
    ensures
        range_of_line(line) == range_of_line(
            split_on(line, SEMICOLON)[0] + seq![SEMICOLON] + split_on(line, SEMICOLON)[1],
        ),
{
    let f = split_on(line, SEMICOLON);
    lemma_split_fields_free(line, SEMICOLON);
    assert(free_of(f[0], SEMICOLON));
    assert(free_of(f[1], SEMICOLON));
    lemma_split_single(f[0], SEMICOLON);
    lemma_split_field(f[0], f[1], SEMICOLON);
}

/// A range holds every address from its start to its end, once
/// each, in ascending order, and nothing else.
pub proof fn law_range_ips(r: IpRange)
    ensures
        range_ips(r).len() == if r.start_ip <= r.end_ip {
            r.end_ip - r.start_ip + 1
        } else {
            0
        },
        forall|k: int|
            0 <= k < range_ips(r).len() ==> r.start_ip <= #[trigger] range_ips(r)[k] <= r.end_ip,
        forall|k: int, j: int|
            0 <= k < j < range_ips(r).len() ==> #[trigger] range_ips(r)[k] < #[trigger] range_ips(
                r,
            )[j],
        forall|ip: u32| r.start_ip <= ip <= r.end_ip ==> range_ips(r).contains(ip),
{
    assert forall|ip: u32| r.start_ip <= ip <= r.end_ip implies range_ips(r).contains(ip) by {
        assert(range_ips(r)[ip - r.start_ip] == ip);
    }
}


/// The address lists of the ranges, one after another.
pub open spec fn range_lists(rs: Seq<IpRange>) -> Seq<Seq<u32>> {
    rs.map_values(|r: IpRange| range_ips(r))
}

/// Listing several ranges lists each range in full, range after range: the
/// result is the ranges' address lists laid end to end.
pub proof fn law_ranges_ips_concatenate(rs: Seq<IpRange>)
    ensures
        ranges_ips(rs) == range_lists(rs).flatten(),
    decreases rs.len(),
{
    range_lists(rs).lemma_flatten_and_flatten_alt_are_equivalent();
    if rs.len() > 0 {
        law_ranges_ips_concatenate(rs.drop_last());
        range_lists(rs.drop_last()).lemma_flatten_and_flatten_alt_are_equivalent();
        assert(range_lists(rs).drop_last() =~= range_lists(rs.drop_last()));
        assert(range_lists(rs).last() == range_ips(rs.last()));
    } else {
        assert(range_lists(rs) =~= Seq::<Seq<u32>>::empty());
    }
}

/// Every address of every range is listed, and every address listed lies in
/// one of the ranges.
pub proof fn law_ranges_ips_members(rs: Seq<IpRange>)
    ensures
        forall|k: int, ip: u32|
            0 <= k < rs.len() && (#[trigger] rs[k]).start_ip <= ip <= rs[k].end_ip
                ==> #[trigger] ranges_ips(rs).contains(ip),
        forall|i: int|
            0 <= i < ranges_ips(rs).len() ==> exists|k: int|
                0 <= k < rs.len() && (#[trigger] rs[k]).start_ip <= #[trigger] ranges_ips(rs)[i]
                    <= rs[k].end_ip,
    decreases rs.len(),
{
    if rs.len() > 0 {
        let front = rs.drop_last();
        let last = rs.last();
        law_ranges_ips_members(front);
        law_range_ips(last);
        let a = ranges_ips(front);
        let b = range_ips(last);
        assert(ranges_ips(rs) == a + b);
        assert forall|k: int, ip: u32|
            0 <= k < rs.len() && (#[trigger] rs[k]).start_ip <= ip <= rs[k].end_ip
                implies #[trigger] ranges_ips(rs).contains(ip) by {
            if k < rs.len() - 1 {
                assert(front[k] == rs[k]);
                assert(a.contains(ip));
                let j = choose|j: int| 0 <= j < a.len() && a[j] == ip;
                assert((a + b)[j] == ip);
            } else {
                assert(b.contains(ip));
                let j = choose|j: int| 0 <= j < b.len() && b[j] == ip;
                assert((a + b)[a.len() + j] == ip);
            }
        }
        assert forall|i: int| 0 <= i < ranges_ips(rs).len() implies exists|k: int|
            0 <= k < rs.len() && (#[trigger] rs[k]).start_ip <= #[trigger] ranges_ips(rs)[i]
                <= rs[k].end_ip by {
            if i < a.len() {
                assert(ranges_ips(rs)[i] == a[i]);
                let k = choose|k: int|
                    0 <= k < front.len() && (#[trigger] front[k]).start_ip <= #[trigger] a[i]
                        <= front[k].end_ip;
                assert(rs[k] == front[k]);
            } else {
                assert(ranges_ips(rs)[i] == b[i - a.len()]);
                assert(rs[rs.len() - 1] == last);
            }
        }
    }
}
} // verus!
