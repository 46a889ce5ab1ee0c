//! What one probe of an address found, and the decisions taken on probe
//! results.

use vstd::prelude::*;
use crate::text::{format_ipv4, ipv4_text};
use vstd::utf8::{encode_utf8, encode_utf8_decode_utf8, is_ascii_chars, is_ascii_chars_encode_utf8};

verus! {

/// What a probe found about one address: whether it is up, how long the
/// reverse lookup took (in whole milliseconds) and the host name it gave.
#[derive(Clone, Debug)]
pub struct IpProperties {
    pub ip: u32,
    pub up: bool,
    pub rtt_millis: u128,
    pub hostname: String,
}

/// The characters of an ASCII byte sequence.
pub open spec fn ascii_chars(b: Seq<u8>) -> Seq<char> {
    Seq::new(b.len(), |i: int| b[i] as char)
}

/// True when every byte of `b` is ASCII.
pub open spec fn is_ascii_bytes(b: Seq<u8>) -> bool {
    forall|i: int| 0 <= i < b.len() ==> #[trigger] b[i] < 128
}

/// The name that a failed reverse lookup stands for: `Unknown`.
pub open spec fn unknown_host() -> Seq<char> {
    seq!['U', 'n', 'k', 'n', 'o', 'w', 'n']
}

/// The UTF-8 text of a character sequence is a given ASCII byte sequence
/// exactly when the characters are those bytes.
pub proof fn lemma_ascii_text(s: Seq<char>, b: Seq<u8>)
    requires
        is_ascii_bytes(b),
    ensures
        (encode_utf8(s) == b) <==> (s == ascii_chars(b)),
{
    let c = ascii_chars(b);
    assert(is_ascii_chars(c)) by {
        assert forall|i: int| 0 <= i < c.len() implies '\0' <= #[trigger] c[i] <= '\u{7f}' by {
            assert(b[i] < 128);
        }
    }
    is_ascii_chars_encode_utf8(c);
    assert forall|i: int| 0 <= i < c.len() implies encode_utf8(c)[i] == b[i] by {
        assert(c[i] as u8 == b[i]);
    }
    assert(encode_utf8(c) =~= b);
    encode_utf8_decode_utf8(s);
    encode_utf8_decode_utf8(c);
}

impl IpProperties {
    pub fn new(ip: u32, up: bool, rtt_millis: u128, hostname: String) -> (p: IpProperties)
        ensures
            p.ip == ip,
            p.up == up,
            p.rtt_millis == rtt_millis,
            p.hostname == hostname,
    {
        IpProperties { ip, up, rtt_millis, hostname }
    }

    pub fn clone(&self) -> (p: IpProperties)
        ensures
            p == *self,
    {
        IpProperties {
            ip: self.ip,
            up: self.up,
            rtt_millis: self.rtt_millis,
            hostname: self.hostname.clone(),
        }
    }
}

/// Whether two byte sequences are equal.
fn bytes_equal(a: &[u8], b: &[u8]) -> (eq: bool)
    ensures
        eq == (a@ == b@),
{
    if a.len() != b.len() {
        return false;
    }
    let mut i: usize = 0;
    while i < a.len()
        invariant
            a@.len() == b@.len(),
            i <= a@.len(),
            forall|j: int| 0 <= j < i ==> a@[j] == b@[j],
        decreases a@.len() - i,
    {
        if a[i] != b[i] {
            return false;
        }
        i += 1;
    }
    assert(a@ =~= b@);
    true
}

/// Whether the reverse lookup of `ip` found the address up: it is down when
/// the name is `Unknown` or is the address's own dotted-quad notation.
pub fn host_is_up(ip: u32, hostname: &String) -> (up: bool)
    ensures
        up == !(hostname@ == unknown_host() || hostname@ == ascii_chars(ipv4_text(ip))),
{
    let name = hostname.as_str().as_bytes();
    let unknown: Vec<u8> = vec![85, 110, 107, 110, 111, 119, 110];
    let own = format_ipv4(ip);
    proof {
        assert(is_ascii_bytes(unknown@));
        assert(ascii_chars(unknown@) =~= unknown_host());
        lemma_ascii_text(hostname@, unknown@);
        crate::text::lemma_ipv4_text_ascii(ip);
        lemma_ascii_text(hostname@, own@);
    }
    !(bytes_equal(name, unknown.as_slice()) || bytes_equal(name, own.as_slice()))
}


/// The host name to record for a reverse lookup: the name found, or
/// `Unknown` when the lookup failed.
pub fn resolved_hostname(lookup: Option<String>) -> (name: String)
    ensures
        name@ == match lookup {
            Some(found) => found@,
            None => unknown_host(),
        },
{
    match lookup {
        Some(found) => found,
        None => {
            let name = String::from_str("Unknown");
            proof {
                reveal_strlit("Unknown");
                assert(name@ =~= unknown_host());
            }
            name
        },
    }
}

/// The entries of `ports` whose flag in `open` is set, in order.
pub open spec fn flagged_ports(ports: Seq<u16>, open: Seq<bool>) -> Seq<u16>
    decreases ports.len(),
{
    if ports.len() == 0 {
        Seq::<u16>::empty()
    } else {
        let rest = flagged_ports(ports.drop_last(), open.drop_last());
        if open.last() {
            rest.push(ports.last())
        } else {
            rest
        }
    }
}

/// The ports that the scan found open, in scan order: `open[k]` is the
/// scan result for `ports[k]`.
pub fn select_open_ports(ports: &Vec<u16>, open: &Vec<bool>) -> (open_ports: Vec<u16>)
    requires
        ports@.len() == open@.len(),
    ensures
        open_ports@ == flagged_ports(ports@, open@),
        open_ports@ == scan_pairs(ports@, open@).filter(|e: (u16, bool)| e.1).map_values(
            |e: (u16, bool)| e.0,
        ),
{
    let mut open_ports: Vec<u16> = Vec::new();
    let mut i: usize = 0;
    assert(ports@.take(0) =~= Seq::<u16>::empty());
    while i < ports.len()
        invariant
            ports@.len() == open@.len(),
            i <= ports@.len(),
            open_ports@ == flagged_ports(ports@.take(i as int), open@.take(i as int)),
        decreases ports@.len() - i,
    {
        assert(ports@.take(i + 1).drop_last() =~= ports@.take(i as int));
        assert(open@.take(i + 1).drop_last() =~= open@.take(i as int));
        if open[i] {
            open_ports.push(ports[i]);
        }
        i += 1;
    }
    assert(ports@.take(i as int) =~= ports@);
    assert(open@.take(i as int) =~= open@);
    proof {
        law_open_ports_are_the_flagged_ones(ports@, open@);
    }
    open_ports
}


/// The ports reported open were all scanned, and there are no more of them
/// than ports scanned.
pub proof fn law_open_ports_scanned(ports: Seq<u16>, open: Seq<bool>)
    requires
        ports.len() == open.len(),
    ensures
        flagged_ports(ports, open).len() <= ports.len(),
        forall|i: int|
            0 <= i < flagged_ports(ports, open).len() ==> ports.contains(
                #[trigger] flagged_ports(ports, open)[i],
            ),
    decreases ports.len(),
{
    if ports.len() > 0 {
        let pd = ports.drop_last();
        let od = open.drop_last();
        law_open_ports_scanned(pd, od);
        let f = flagged_ports(ports, open);
        assert forall|i: int| 0 <= i < f.len() implies ports.contains(#[trigger] f[i]) by {
            if i < flagged_ports(pd, od).len() {
                assert(f[i] == flagged_ports(pd, od)[i]);
                let j = choose|j: int| 0 <= j < pd.len() && pd[j] == f[i];
                assert(ports[j] == f[i]);
            } else {
                assert(ports[ports.len() - 1] == f[i]);
            }
        }
    }
}


/// The scan results paired with their ports, in scan order.
pub open spec fn scan_pairs(ports: Seq<u16>, open: Seq<bool>) -> Seq<(u16, bool)> {
    Seq::new(ports.len(), |k: int| (ports[k], open[k]))
}

/// The ports reported open are exactly the scanned ports whose connection
/// succeeded, in scan order: pair each port with its result, keep the pairs
/// whose result is set, and take their ports.
pub proof fn law_open_ports_are_the_flagged_ones(ports: Seq<u16>, open: Seq<bool>)
    requires
        ports.len() == open.len(),
    ensures
        flagged_ports(ports, open) == scan_pairs(ports, open).filter(|e: (u16, bool)| e.1).map_values(
            |e: (u16, bool)| e.0,
        ),
    decreases ports.len(),
{
    reveal(Seq::filter);
    let z = scan_pairs(ports, open);
    if ports.len() == 0 {
        assert(z.filter(|e: (u16, bool)| e.1) =~= Seq::<(u16, bool)>::empty());
        assert(flagged_ports(ports, open) =~= z.filter(|e: (u16, bool)| e.1).map_values(
            |e: (u16, bool)| e.0,
        ));
    } else {
        let pd = ports.drop_last();
        let od = open.drop_last();
        law_open_ports_are_the_flagged_ones(pd, od);
        assert(z.drop_last() =~= scan_pairs(pd, od));
        assert(z.last() == (ports.last(), open.last()));
        let f = scan_pairs(pd, od).filter(|e: (u16, bool)| e.1);
        if open.last() {
            assert(z.filter(|e: (u16, bool)| e.1) == f.push(z.last()));
            assert(f.push(z.last()).map_values(|e: (u16, bool)| e.0) =~= f.map_values(
                |e: (u16, bool)| e.0,
            ).push(ports.last()));
        } else {
            assert(z.filter(|e: (u16, bool)| e.1) == f);
        }
    }
}

/// Every scanned port whose connection succeeded is reported open.
pub proof fn law_every_open_port_reported(ports: Seq<u16>, open: Seq<bool>, k: int)
    requires
        ports.len() == open.len(),
        0 <= k < ports.len(),
        open[k],
    ensures
        flagged_ports(ports, open).contains(ports[k]),
    decreases ports.len(),
{
    let pd = ports.drop_last();
    let od = open.drop_last();
    if k == ports.len() - 1 {
        let f = flagged_ports(ports, open);
        assert(f[f.len() - 1] == ports[k]);
    } else {
        law_every_open_port_reported(pd, od, k);
        let rest = flagged_ports(pd, od);
        let j = choose|j: int| 0 <= j < rest.len() && rest[j] == pd[k];
        let f = flagged_ports(ports, open);
        assert(f[j] == ports[k]);
    }
}
} // verus!
