//! Which IPv4 address of this machine the portal sees.
//!
//! A router has many addresses: its bridge, container networks, tunnels. The right one is
//! the source address that the kernel picks on the way to the portal
//! ([`source_ip_for`]); picking among the addresses of the interfaces is the fallback
//! ([`detect_local_ip`]).

use vstd::prelude::*;
use crate::digits;
use crate::text;

verus! {

/// An IPv4 address of an interface.
#[derive(Debug, Clone, PartialEq, Eq)]
pub struct AdapterIp {
    pub name: String,
    pub ip: String,
    pub mac: Option<String>,
}

/// What an [`AdapterIp`] says.
pub ghost struct AdapterView {
    pub name: Seq<char>,
    pub ip: Seq<char>,
    pub mac: Option<Seq<char>>,
}

/// The text of an optional string.
pub open spec fn opt_text(s: Option<String>) -> Option<Seq<char>> {
    match s {
        Some(t) => Some(t@),
        None => None,
    }
}

impl View for AdapterIp {
    type V = AdapterView;

    open spec fn view(&self) -> AdapterView {
        AdapterView { name: self.name@, ip: self.ip@, mac: opt_text(self.mac) }
    }
}

/// What the adapters of a list say.
pub open spec fn adapter_views(v: Seq<AdapterIp>) -> Seq<AdapterView> {
    v.map_values(|a: AdapterIp| a@)
}

// ---------------------------------------------------------------------------
// The source address towards the portal
// ---------------------------------------------------------------------------

/// What asking the kernel for the source address towards one address of the portal gave.
pub enum RouteProbe {
    /// No answer.
    Failed,
    /// The local address that was picked.
    Local { ip: String },
}

/// The address that the first useful probe names: one that can be logged in with.
pub open spec fn first_source(probes: Seq<RouteProbe>) -> Option<Seq<char>>
    decreases probes.len(),
{
    if probes.len() == 0 {
        None
    } else {
        match probes[0] {
            RouteProbe::Local { ip } => if usable(octets(ip@)) {
                Some(ip@)
            } else {
                first_source(probes.drop_first())
            },
            RouteProbe::Failed => first_source(probes.drop_first()),
        }
    }
}

/// The source address towards the portal, from the probes of its addresses in order.
pub fn source_ip_for(probes: &Vec<RouteProbe>) -> (r: Option<String>)
    ensures
        opt_text(r) == first_source(probes@),
        r is Some ==> usable(octets(r->0@)),
{
    let mut i: usize = 0;
    assert(probes@.skip(0) =~= probes@);
    while i < probes.len()
        invariant
            i <= probes@.len(),
            first_source(probes@) == first_source(probes@.skip(i as int)),
        decreases probes@.len() - i,
    {
        assert(probes@.skip(i as int)[0] == probes@[i as int]);
        match &probes[i] {
            RouteProbe::Local { ip } => {
                if is_usable_ipv4(ip.as_str()) {
                    return Some(ip.clone());
                }
            },
            RouteProbe::Failed => {},
        }
        assert(probes@.skip(i as int).drop_first() =~= probes@.skip(i + 1));
        i += 1;
    }
    None
}

// ---------------------------------------------------------------------------
// Judging an address
// ---------------------------------------------------------------------------

/// Whether a text is a decimal number from 0 to 255.
pub open spec fn is_octet(part: Seq<char>) -> bool {
    part.len() > 0 && digits::all_digits(part) && digits::digits_value(part) <= 255
}

/// The four numbers of an IPv4 address in dotted form; nothing where the text is none.
pub open spec fn octets(ip: Seq<char>) -> Seq<int> {
    let parts = text::split(ip, '.');
    if parts.len() == 4 && forall|i: int| 0 <= i < 4 ==> is_octet(#[trigger] parts[i]) {
        parts.map_values(|part: Seq<char>| digits::digits_value(part))
    } else {
        Seq::empty()
    }
}

/// Whether an address can be logged in with: an IPv4 address, and none of loopback
/// (127/8), link-local (169.254/16, where DHCP failed), shared address space (100.64/10,
/// used by tunnels) and 0/8.
pub open spec fn usable(o: Seq<int>) -> bool {
    &&& o.len() == 4
    &&& o[0] != 127
    &&& !(o[0] == 169 && o[1] == 254)
    &&& !(o[0] == 100 && 64 <= o[1] <= 127)
    &&& o[0] != 0
}

/// How likely an address is that of the campus network. One that ends in `.1` is likely that
/// of a gateway.
pub open spec fn score(o: Seq<int>) -> int {
    if o.len() != 4 {
        0
    } else if o[0] == 10 {
        5
    } else if o[0] == 192 && o[1] == 168 && o[3] != 1 {
        4
    } else if o[0] == 192 && o[1] == 168 {
        3
    } else if o[0] == 172 && 16 <= o[1] <= 31 {
        2
    } else {
        1
    }
}

fn octets_of(ip: &str) -> (r: Option<(u8, u8, u8, u8)>)
    ensures
        octets(ip@) == (match r {
            Some((a, b, c, d)) => seq![a as int, b as int, c as int, d as int],
            None => Seq::empty(),
        }),
{
    let s = text::chars_of(ip);
    let parts = text::split_on(s.as_slice(), '.');
    let ghost all = text::texts(parts@);
    if parts.len() != 4 {
        return None;
    }
    assert forall|i: int| 0 <= i < 4 implies #[trigger] all[i] == parts@[i]@ by {}
    match (octet_of(parts[0]), octet_of(parts[1]), octet_of(parts[2]), octet_of(parts[3])) {
        (Some(a), Some(b), Some(c), Some(d)) => {
            assert(all[0] == parts@[0]@ && all[1] == parts@[1]@ && all[2] == parts@[2]@ && all[3]
                == parts@[3]@);
            assert(octets(ip@) =~= seq![a as int, b as int, c as int, d as int]);
            Some((a, b, c, d))
        },
        _ => {
            assert(!is_octet(all[0]) || !is_octet(all[1]) || !is_octet(all[2]) || !is_octet(all[3]));
            None
        },
    }
}

fn octet_of(part: &[char]) -> (r: Option<u8>)
    ensures
        match r {
            Some(n) => is_octet(part@) && digits::digits_value(part@) == n,
            None => !is_octet(part@),
        },
{
    if part.len() == 0 {
        return None;
    }
    if part[0] == '+' {
        assert(!digits::is_digit(part@[0]));
        return None;
    }
    match digits::parse_uint(part, 255) {
        Some(n) => Some(n as u8),
        None => None,
    }
}

/// Whether `ip` is an IPv4 address that can be logged in with.
pub fn is_usable_ipv4(ip: &str) -> (r: bool)
    ensures
        r == usable(octets(ip@)),
{
    match octets_of(ip) {
        Some((a, b, _, _)) => {
            a != 127 && !(a == 169 && b == 254) && !(a == 100 && 64 <= b && b <= 127) && a != 0
        },
        None => false,
    }
}

/// How likely `ip` is an address of the campus network, from 0 (no address) to 5.
pub fn ip_score(ip: &str) -> (r: u8)
    ensures
        r == score(octets(ip@)),
{
    match octets_of(ip) {
        Some((a, b, _, d)) => {
            if a == 10 {
                5
            } else if a == 192 && b == 168 && d != 1 {
                4
            } else if a == 192 && b == 168 {
                3
            } else if a == 172 && 16 <= b && b <= 31 {
                2
            } else {
                1
            }
        },
        None => 0,
    }
}

// ---------------------------------------------------------------------------
// Picking among the interfaces
// ---------------------------------------------------------------------------

/// The first usable address of the interface `name`.
pub open spec fn named_ip(a: Seq<AdapterView>, name: Seq<char>) -> Option<Seq<char>>
    decreases a.len(),
{
    if a.len() == 0 {
        None
    } else if a[0].name == name && usable(octets(a[0].ip)) {
        Some(a[0].ip)
    } else {
        named_ip(a.drop_first(), name)
    }
}

/// The usable address with the highest score; the last of them where several have it.
pub open spec fn best_ip(a: Seq<AdapterView>) -> Option<Seq<char>>
    decreases a.len(),
{
    if a.len() == 0 {
        None
    } else {
        let before = best_ip(a.drop_last());
        let ip = a.last().ip;
        if usable(octets(ip)) && (before is None || score(octets(before->0)) <= score(
            octets(ip),
        )) {
            Some(ip)
        } else {
            before
        }
    }
}

/// The address of the interface `wan` where it has a usable one, and else the best one.
pub open spec fn local_ip(a: Seq<AdapterView>, wan: Option<Seq<char>>) -> Option<Seq<char>> {
    if wan is Some && named_ip(a, wan->0) is Some {
        named_ip(a, wan->0)
    } else {
        best_ip(a)
    }
}

/// What [`best_ip`] gives is one of the addresses, is usable, and no usable one scores
/// higher; it gives nothing only where none is usable.
pub proof fn law_best_ip(a: Seq<AdapterView>)
    ensures
        match best_ip(a) {
            Some(ip) => {
                &&& exists|i: int| 0 <= i < a.len() && (#[trigger] a[i]).ip == ip
                &&& usable(octets(ip))
                &&& forall|i: int|
                    0 <= i < a.len() && usable(octets((#[trigger] a[i]).ip)) ==> score(
                        octets(a[i].ip),
                    ) <= score(octets(ip))
            },
            None => forall|i: int| 0 <= i < a.len() ==> !usable(octets((#[trigger] a[i]).ip)),
        },
    decreases a.len(),
{
    if a.len() > 0 {
        let b = a.drop_last();
        law_best_ip(b);
        assert forall|i: int| 0 <= i < a.len() - 1 implies #[trigger] a[i] == b[i] by {}
        let last = a[a.len() - 1];
        assert(last == a.last());
        if best_ip(b) is Some {
            let i = choose|i: int| 0 <= i < b.len() && (#[trigger] b[i]).ip == best_ip(b)->0;
            assert(a[i].ip == best_ip(b)->0);
        }
    }
}

/// What [`local_ip`] gives is usable: a named interface never brings in an address that
/// cannot be logged in with.
pub proof fn law_local_ip_is_usable(a: Seq<AdapterView>, wan: Option<Seq<char>>)
    ensures
        local_ip(a, wan) is Some ==> usable(octets(local_ip(a, wan)->0)),
{
    law_best_ip(a);
    if wan is Some {
        lemma_named_ip_is_usable(a, wan->0);
    }
}

proof fn lemma_named_ip_is_usable(a: Seq<AdapterView>, name: Seq<char>)
    ensures
        named_ip(a, name) is Some ==> usable(octets(named_ip(a, name)->0)),
    decreases a.len(),
{
    if a.len() > 0 {
        lemma_named_ip_is_usable(a.drop_first(), name);
    }
}

/// The fallback: an address picked among those of the interfaces. The interface `wan`, where
/// it is named and has a usable address, goes first.
pub fn detect_local_ip(adapters: &Vec<AdapterIp>, wan: Option<&str>) -> (r: Option<String>)
    ensures
        opt_text(r) == local_ip(
            adapter_views(adapters@),
            match wan {
                Some(w) => Some(w@),
                None => None,
            },
        ),
{
    let ghost all = adapter_views(adapters@);
    match wan {
        Some(name) => {
            let mut i: usize = 0;
            assert(all.skip(0) =~= all);
            while i < adapters.len()
                invariant
                    i <= adapters@.len(),
                    all == adapter_views(adapters@),
                    wan == Some(name),
                    named_ip(all, name@) == named_ip(all.skip(i as int), name@),
                decreases adapters@.len() - i,
            {
                let a = &adapters[i];
                assert(all.skip(i as int)[0] == a@);
                if text::same_str(a.name.as_str(), name) && is_usable_ipv4(a.ip.as_str()) {
                    return Some(a.ip.clone());
                }
                assert(all.skip(i as int).drop_first() =~= all.skip(i + 1));
                i += 1;
            }
        },
        None => {},
    }
    let mut best: Option<usize> = None;
    let mut i: usize = 0;
    while i < adapters.len()
        invariant
            i <= adapters@.len(),
            all == adapter_views(adapters@),
            match best {
                Some(k) => k < i && best_ip(all.take(i as int)) == Some(adapters@[k as int].ip@),
                None => best_ip(all.take(i as int)) is None,
            },
        decreases adapters@.len() - i,
    {
        let a = &adapters[i];
        let ghost next = all.take(i + 1);
        assert(next.drop_last() =~= all.take(i as int));
        assert(next.last() == a@);
        if is_usable_ipv4(a.ip.as_str()) {
            match best {
                Some(k) => {
                    if ip_score(adapters[k].ip.as_str()) <= ip_score(a.ip.as_str()) {
                        best = Some(i);
                    }
                },
                None => {
                    best = Some(i);
                },
            }
        }
        i += 1;
    }
    assert(all.take(adapters@.len() as int) =~= all);
    match best {
        Some(k) => Some(adapters[k].ip.clone()),
        None => None,
    }
}

// ---------------------------------------------------------------------------
// The interfaces of this machine
// ---------------------------------------------------------------------------

/// An address that the system lists for an interface.
pub enum InterfaceAddr {
    /// A link-layer address: its length and the bytes that hold it.
    Link { halen: u8, addr: [u8; 8] },
    /// An IPv4 address as a number.
    Inet(u32),
    /// Any other.
    Other,
}

/// An entry of the system's list of interface addresses.
pub struct InterfaceEntry {
    pub name: String,
    pub addr: InterfaceAddr,
}

/// An IPv4 address in dotted form.
pub open spec fn dotted(raw: u32) -> Seq<char> {
    let n = raw as nat;
    digits::decimal(n / 0x1000000) + "."@ + digits::decimal(n / 0x10000 % 0x100) + "."@
        + digits::decimal(n / 0x100 % 0x100) + "."@ + digits::decimal(n % 0x100)
}

/// The first `n` bytes in hexadecimal with colons between them.
pub open spec fn hex_colons(addr: Seq<u8>, n: int) -> Seq<char>
    decreases n,
{
    if n <= 0 {
        seq![]
    } else if n == 1 {
        digits::hex_byte(addr[0])
    } else {
        hex_colons(addr, n - 1) + ":"@ + digits::hex_byte(addr[n - 1])
    }
}

/// A link-layer address as text; it has one to eight bytes.
pub open spec fn mac_text(halen: u8, addr: Seq<u8>) -> Option<Seq<char>> {
    if halen == 0 || halen > 8 {
        None
    } else {
        Some(hex_colons(addr, halen as int))
    }
}

/// The link-layer address of the interface `name`: the last that the entries hold for it.
pub open spec fn mac_of(e: Seq<InterfaceEntry>, name: Seq<char>) -> Option<Seq<char>>
    decreases e.len(),
{
    if e.len() == 0 {
        None
    } else {
        match e.last().addr {
            InterfaceAddr::Link { halen, addr } => if e.last().name@ == name && mac_text(
                halen,
                addr@,
            ) is Some {
                mac_text(halen, addr@)
            } else {
                mac_of(e.drop_last(), name)
            },
            _ => mac_of(e.drop_last(), name),
        }
    }
}

/// The IPv4 addresses among the first `n` entries, each with the link-layer address that
/// the whole list holds for its interface.
pub open spec fn adapters_among(e: Seq<InterfaceEntry>, n: int) -> Seq<AdapterView>
    decreases n,
{
    if n <= 0 {
        seq![]
    } else {
        match e[n - 1].addr {
            InterfaceAddr::Inet(raw) => adapters_among(e, n - 1).push(
                AdapterView {
                    name: e[n - 1].name@,
                    ip: dotted(raw),
                    mac: mac_of(e, e[n - 1].name@),
                },
            ),
            _ => adapters_among(e, n - 1),
        }
    }
}

fn ipv4_string(raw: u32) -> (r: String)
    ensures
        r@ == dotted(raw),
{
    let mut out = digits::decimal_string((raw / 0x1000000) as u64);
    out.append(".");
    digits::push_decimal(&mut out, (raw / 0x10000 % 0x100) as u64);
    out.append(".");
    digits::push_decimal(&mut out, (raw / 0x100 % 0x100) as u64);
    out.append(".");
    digits::push_decimal(&mut out, (raw % 0x100) as u64);
    out
}

fn mac_string(halen: u8, addr: &[u8; 8]) -> (r: Option<String>)
    ensures
        opt_text(r) == mac_text(halen, addr@),
{
    if halen == 0 || halen > 8 {
        return None;
    }
    let mut out = String::new();
    digits::push_hex_byte(&mut out, addr[0]);
    assert(out@ =~= hex_colons(addr@, 1));
    let mut i: usize = 1;
    while i < halen as usize
        invariant
            1 <= i <= halen <= 8,
            out@ == hex_colons(addr@, i as int),
        decreases halen - i,
    {
        out.append(":");
        digits::push_hex_byte(&mut out, addr[i]);
        i += 1;
    }
    Some(out)
}

fn find_mac(entries: &Vec<InterfaceEntry>, name: &str) -> (r: Option<String>)
    ensures
        opt_text(r) == mac_of(entries@, name@),
{
    let mut n: usize = entries.len();
    assert(entries@.take(n as int) =~= entries@);
    while n > 0
        invariant
            n <= entries@.len(),
            mac_of(entries@, name@) == mac_of(entries@.take(n as int), name@),
        decreases n,
    {
        let e = &entries[n - 1];
        let ghost part = entries@.take(n as int);
        assert(part.last() == *e);
        assert(part.drop_last() =~= entries@.take(n - 1));
        match &e.addr {
            InterfaceAddr::Link { halen, addr } => {
                if text::same_str(e.name.as_str(), name) {
                    let m = mac_string(*halen, addr);
                    if m.is_some() {
                        return m;
                    }
                }
            },
            _ => {},
        }
        n -= 1;
    }
    None
}

/// The IPv4 addresses of the interfaces, from the entries that the system lists.
pub fn list_adapters(entries: &Vec<InterfaceEntry>) -> (r: Vec<AdapterIp>)
    ensures
        adapter_views(r@) == adapters_among(entries@, entries@.len() as int),
{
    let mut out: Vec<AdapterIp> = Vec::new();
    let mut i: usize = 0;
    assert(adapter_views(out@) =~= adapters_among(entries@, 0));
    while i < entries.len()
        invariant
            i <= entries@.len(),
            adapter_views(out@) == adapters_among(entries@, i as int),
        decreases entries@.len() - i,
    {
        let e = &entries[i];
        match &e.addr {
            InterfaceAddr::Inet(raw) => {
                let a = AdapterIp {
                    name: e.name.clone(),
                    ip: ipv4_string(*raw),
                    mac: find_mac(entries, e.name.as_str()),
                };
                let ghost done = adapter_views(out@);
                out.push(a);
                assert(adapter_views(out@) =~= done.push(a@));
            },
            _ => {},
        }
        i += 1;
    }
    out
}

// ---------------------------------------------------------------------------
// What can be relied on
// ---------------------------------------------------------------------------

proof fn lemma_split_number(n: nat, rest: Seq<char>)
    ensures
        text::split(digits::decimal(n) + "."@ + rest, '.') == seq![digits::decimal(n)]
            + text::split(rest, '.'),
{
    reveal_strlit(".");
    let d = digits::decimal(n);
    let s = d + "."@ + rest;
    let k = d.len() as int;
    digits::lemma_decimal(n);
    assert forall|i: int| 0 <= i < k implies #[trigger] s[i] != '.' by {
        assert(digits::is_digit(d[i]));
    }
    assert(s[k] == '.');
    text::lemma_index_of_is(s, '.', k);
    assert(s.take(k) =~= d);
    assert(s.skip(k + 1) =~= rest);
}

proof fn lemma_split_last(n: nat)
    ensures
        text::split(digits::decimal(n), '.') == seq![digits::decimal(n)],
{
    let d = digits::decimal(n);
    digits::lemma_decimal(n);
    assert forall|i: int| 0 <= i < d.len() implies #[trigger] d[i] != '.' by {
        assert(digits::is_digit(d[i]));
    }
    text::lemma_index_of_is(d, '.', d.len() as int);
}

/// The text of an address with these four numbers.
pub open spec fn address_of(a: int, b: int, c: int, d: int) -> Seq<char> {
    digits::decimal(a as nat) + "."@ + digits::decimal(b as nat) + "."@ + digits::decimal(c as nat)
        + "."@ + digits::decimal(d as nat)
}

proof fn lemma_address(a: int, b: int, c: int, d: int)
    requires
        0 <= a <= 255 && 0 <= b <= 255 && 0 <= c <= 255 && 0 <= d <= 255,
    ensures
        octets(address_of(a, b, c, d)) == seq![a, b, c, d],
{
    let ip = address_of(a, b, c, d);
    let tail3 = digits::decimal(d as nat);
    let tail2 = digits::decimal(c as nat) + "."@ + tail3;
    let tail1 = digits::decimal(b as nat) + "."@ + tail2;
    assert(ip =~= digits::decimal(a as nat) + "."@ + tail1);
    lemma_split_number(a as nat, tail1);
    lemma_split_number(b as nat, tail2);
    lemma_split_number(c as nat, tail3);
    lemma_split_last(d as nat);
    assert(text::split(ip, '.') =~= seq![
        digits::decimal(a as nat),
        digits::decimal(b as nat),
        digits::decimal(c as nat),
        digits::decimal(d as nat),
    ]);
    digits::lemma_decimal(a as nat);
    digits::lemma_decimal(b as nat);
    digits::lemma_decimal(c as nat);
    digits::lemma_decimal(d as nat);
    assert(octets(ip) =~= seq![a, b, c, d]);
}

/// The address of an interface is read back from its text: what is listed can be judged.
pub proof fn law_dotted_reads_back(raw: u32)
    ensures
        octets(dotted(raw)) == seq![
            raw as int / 0x1000000,
            raw as int / 0x10000 % 0x100,
            raw as int / 0x100 % 0x100,
            raw as int % 0x100,
        ],
{
    let n = raw as int;
    lemma_address(n / 0x1000000, n / 0x10000 % 0x100, n / 0x100 % 0x100, n % 0x100);
}

/// Where an interface of the configured name has a usable address, the first such address is
/// picked, whatever the addresses score; and where none has, the name makes no difference.
pub proof fn law_named_interface_goes_first(a: Seq<AdapterView>, wan: Seq<char>)
    ensures
        forall|k: int|
            0 <= k < a.len() && (#[trigger] a[k]).name == wan && usable(octets(a[k].ip)) && (
            forall|i: int|
                0 <= i < k ==> !((#[trigger] a[i]).name == wan && usable(octets(a[i].ip))))
                ==> local_ip(a, Some(wan)) == Some(a[k].ip),
        (forall|i: int|
            0 <= i < a.len() ==> !((#[trigger] a[i]).name == wan && usable(octets(a[i].ip))))
            ==> local_ip(a, Some(wan)) == local_ip(a, None),
{
    assert forall|k: int|
        0 <= k < a.len() && (#[trigger] a[k]).name == wan && usable(octets(a[k].ip)) && (forall|
            i: int,
        |
            0 <= i < k ==> !((#[trigger] a[i]).name == wan && usable(
                octets(a[i].ip),
            ))) implies local_ip(a, Some(wan)) == Some(a[k].ip) by {
        lemma_named_ip_is(a, wan, k);
    }
    if forall|i: int|
        0 <= i < a.len() ==> !((#[trigger] a[i]).name == wan && usable(octets(a[i].ip))) {
        lemma_named_ip_is(a, wan, a.len() as int);
    }
}

proof fn lemma_named_ip_is(a: Seq<AdapterView>, name: Seq<char>, k: int)
    requires
        0 <= k <= a.len(),
        forall|i: int| 0 <= i < k ==> !((#[trigger] a[i]).name == name && usable(octets(a[i].ip))),
        k < a.len() ==> a[k].name == name && usable(octets(a[k].ip)),
    ensures
        named_ip(a, name) == (if k < a.len() {
            Some(a[k].ip)
        } else {
            None
        }),
    decreases a.len(),
{
    if k > 0 {
        assert(!(a[0].name == name && usable(octets(a[0].ip))));
        let b = a.drop_first();
        assert forall|i: int| 0 <= i < k - 1 implies !((#[trigger] b[i]).name == name && usable(
            octets(b[i].ip),
        )) by {
            assert(b[i] == a[i + 1]);
        }
        lemma_named_ip_is(b, name, k - 1);
    }
}

/// Without a name the best address is picked; of several that score the same it is the last.
pub proof fn law_last_of_the_best(a: Seq<AdapterView>, k: int)
    requires
        0 <= k < a.len(),
        usable(octets(a[k].ip)),
        forall|i: int|
            0 <= i < a.len() && i != k && usable(octets((#[trigger] a[i]).ip)) ==> if i < k {
                score(octets(a[i].ip)) <= score(octets(a[k].ip))
            } else {
                score(octets(a[i].ip)) < score(octets(a[k].ip))
            },
    ensures
        local_ip(a, None) == Some(a[k].ip),
    decreases a.len(),
{
    let b = a.drop_last();
    let last = a[a.len() - 1];
    assert(last == a.last());
    if k < a.len() - 1 {
        assert(b[k] == a[k]);
        assert forall|i: int|
            0 <= i < b.len() && i != k && usable(octets((#[trigger] b[i]).ip)) implies if i < k {
            score(octets(b[i].ip)) <= score(octets(b[k].ip))
        } else {
            score(octets(b[i].ip)) < score(octets(b[k].ip))
        } by {
            assert(b[i] == a[i]);
        }
        law_last_of_the_best(b, k);
    } else {
        law_best_ip(b);
        if best_ip(b) is Some {
            let i = choose|i: int| 0 <= i < b.len() && (#[trigger] b[i]).ip == best_ip(b)->0;
            assert(b[i] == a[i]);
        }
    }
}

/// Which addresses can be logged in with: those outside 0/8, 127/8, 169.254/16 and 100.64/10.
pub proof fn law_usable(a: int, b: int, c: int, d: int)
    requires
        0 <= a <= 255 && 0 <= b <= 255 && 0 <= c <= 255 && 0 <= d <= 255,
    ensures
        octets(address_of(a, b, c, d)) == seq![a, b, c, d],
        usable(octets(address_of(a, b, c, d))) <==> !(a == 0 || a == 127 || (a == 169 && b == 254)
            || (a == 100 && 64 <= b && b < 128)),
{
    lemma_address(a, b, c, d);
}

/// How addresses score: those of 10/8 most, then hosts of 192.168/16, its gateways, 172.16/12,
/// and all others; a text that is no address scores nothing.
pub proof fn law_score(a: int, b: int, c: int, d: int, ip: Seq<char>)
    requires
        0 <= a <= 255 && 0 <= b <= 255 && 0 <= c <= 255 && 0 <= d <= 255,
    ensures
        a == 10 ==> score(octets(address_of(a, b, c, d))) == 5,
        a == 192 && b == 168 && d != 1 ==> score(octets(address_of(a, b, c, d))) == 4,
        a == 192 && b == 168 && d == 1 ==> score(octets(address_of(a, b, c, d))) == 3,
        a == 172 && b / 16 == 1 ==> score(octets(address_of(a, b, c, d))) == 2,
        a != 10 && !(a == 192 && b == 168) && !(a == 172 && b / 16 == 1) ==> score(
            octets(address_of(a, b, c, d)),
        ) == 1,
        octets(ip).len() == 0 ==> score(octets(ip)) == 0 && !usable(octets(ip)),
{
    lemma_address(a, b, c, d);
}

/// A text is an address only where it has four parts between its dots, each of digits alone
/// and at most 255.
pub proof fn law_address_has_four_numbers(ip: Seq<char>)
    ensures
        octets(ip).len() == 0 || octets(ip).len() == 4,
        octets(ip).len() == 4 ==> {
            &&& text::split(ip, '.').len() == 4
            &&& forall|i: int|
                0 <= i < 4 ==> digits::read_uint(#[trigger] text::split(ip, '.')[i], 255) == Some(
                    octets(ip)[i],
                ) && text::split(ip, '.')[i][0] != '+'
        },
        text::split(ip, '.').len() == 4 && (forall|i: int|
            0 <= i < 4 ==> digits::read_uint(#[trigger] text::split(ip, '.')[i], 255) is Some
                && text::split(ip, '.')[i][0] != '+') ==> octets(ip).len() == 4,
        text::split(ip, '.').len() != 4 ==> octets(ip).len() == 0,
        (exists|i: int|
            0 <= i < text::split(ip, '.').len() && digits::read_uint(
                #[trigger] text::split(ip, '.')[i],
                255,
            ) is None) ==> octets(ip).len() == 0,
{
    let parts = text::split(ip, '.');
    if octets(ip).len() == 4 {
        assert forall|i: int| 0 <= i < 4 implies digits::read_uint(#[trigger] parts[i], 255) == Some(
            octets(ip)[i],
        ) && parts[i][0] != '+' by {
            assert(is_octet(parts[i]));
            assert(digits::is_digit(parts[i][0]));
        }
    }
    if parts.len() == 4 && (forall|i: int|
        0 <= i < 4 ==> digits::read_uint(#[trigger] parts[i], 255) is Some && parts[i][0] != '+') {
        assert forall|i: int| 0 <= i < 4 implies is_octet(#[trigger] parts[i]) by {
            assert(digits::read_uint(parts[i], 255) is Some);
        }
    }
}

/// The source address is what the first probe with a usable address names; there is none
/// exactly where no probe names a usable one.
pub proof fn law_first_source(probes: Seq<RouteProbe>, k: int)
    requires
        0 <= k <= probes.len(),
        forall|i: int|
            0 <= i < k ==> !(#[trigger] probes[i] matches RouteProbe::Local { ip } && usable(
                octets(ip@),
            )),
        k < probes.len() ==> (probes[k] matches RouteProbe::Local { ip } && usable(octets(ip@))),
    ensures
        first_source(probes) == (if k < probes.len() {
            Some(probes[k]->ip@)
        } else {
            None
        }),
    decreases probes.len(),
{
    if k > 0 {
        let rest = probes.drop_first();
        assert(!(probes[0] matches RouteProbe::Local { ip } && usable(octets(ip@))));
        assert forall|i: int| 0 <= i < k - 1 implies !(#[trigger] rest[i] matches RouteProbe::Local {
            ip,
        } && usable(octets(ip@))) by {
            assert(rest[i] == probes[i + 1]);
        }
        law_first_source(rest, k - 1);
    }
}

/// Every IPv4 entry of the system is listed, in order and under its name, and nothing else is;
/// the link-layer address is the last valid one that the system has for that name, wherever
/// it stands.
pub proof fn law_listed(e: Seq<InterfaceEntry>, n: int)
    requires
        0 <= n < e.len(),
    ensures
        adapters_among(e, 0).len() == 0,
        match e[n].addr {
            InterfaceAddr::Inet(raw) => {
                &&& adapters_among(e, n + 1).drop_last() == adapters_among(e, n)
                &&& adapters_among(e, n + 1).len() == adapters_among(e, n).len() + 1
                &&& adapters_among(e, n + 1).last().name == e[n].name@
                &&& adapters_among(e, n + 1).last().ip == dotted(raw)
                &&& adapters_among(e, n + 1).last().mac == mac_of(e, e[n].name@)
            },
            _ => adapters_among(e, n + 1) == adapters_among(e, n),
        },
{
    if let InterfaceAddr::Inet(raw) = e[n].addr {
        assert(adapters_among(e, n + 1).drop_last() =~= adapters_among(e, n));
    }
}

/// The link-layer address of an interface: the last one with a length of one to eight bytes, in
/// pairs of hexadecimal digits with colons between them.
pub proof fn law_link_address(e: Seq<InterfaceEntry>, name: Seq<char>, k: int)
    requires
        0 <= k < e.len(),
        e[k].name@ == name,
        e[k].addr matches InterfaceAddr::Link { halen, addr } && 1 <= halen <= 8,
        forall|i: int|
            k < i < e.len() ==> !((#[trigger] e[i]).name@ == name && (e[i].addr matches InterfaceAddr::Link {
                halen,
                addr,
            } && 1 <= halen <= 8)),
    ensures
        mac_of(e, name) matches Some(t) && e[k].addr matches InterfaceAddr::Link { halen, addr } && {
            &&& t.len() == 3 * halen - 1
            &&& forall|i: int|
                0 <= i < halen ==> t.subrange(3 * i, 3 * i + 2) == digits::hex_byte(
                    #[trigger] addr@[i],
                )
            &&& forall|i: int| 0 < i < halen ==> t[#[trigger] (3 * i) - 1] == ':'
        },
    decreases e.len(),
{
    if k < e.len() - 1 {
        let b = e.drop_last();
        let last = e[e.len() - 1];
        assert(!(last.name@ == name && (last.addr matches InterfaceAddr::Link { halen, addr } && 1
            <= halen <= 8)));
        assert(b[k] == e[k]);
        assert forall|i: int| k < i < b.len() implies !((#[trigger] b[i]).name@ == name && (
        b[i].addr matches InterfaceAddr::Link { halen, addr } && 1 <= halen <= 8)) by {
            assert(b[i] == e[i]);
        }
        law_link_address(b, name, k);
    } else if let InterfaceAddr::Link { halen, addr } = e[k].addr {
        let t = hex_colons(addr@, halen as int);
        lemma_hex_colons(addr@, halen as int, 0);
        assert forall|i: int| 0 <= i < halen implies t.subrange(3 * i, 3 * i + 2)
            == digits::hex_byte(#[trigger] addr@[i]) by {
            lemma_hex_colons(addr@, halen as int, i);
        }
        assert forall|i: int| 0 < i < halen implies t[#[trigger] (3 * i) - 1] == ':' by {
            lemma_hex_colons(addr@, halen as int, i);
        }
    }
}

proof fn lemma_hex_colons(addr: Seq<u8>, n: int, i: int)
    requires
        0 <= i < n <= addr.len(),
    ensures
        hex_colons(addr, n).len() == 3 * n - 1,
        hex_colons(addr, n).subrange(3 * i, 3 * i + 2) == digits::hex_byte(addr[i]),
        i > 0 ==> hex_colons(addr, n)[3 * i - 1] == ':',
    decreases n,
{
    reveal_strlit(":");
    let t = hex_colons(addr, n);
    let last = digits::hex_byte(addr[n - 1]);
    if n == 1 {
        assert(t.subrange(0, 2) =~= last);
    } else {
        let before = hex_colons(addr, n - 1);
        assert(t == before + ":"@ + last);
        if i < n - 1 {
            lemma_hex_colons(addr, n - 1, i);
            assert(t.subrange(3 * i, 3 * i + 2) =~= before.subrange(3 * i, 3 * i + 2));
        } else {
            lemma_hex_colons(addr, n - 1, 0);
            assert(t.subrange(3 * i, 3 * i + 2) =~= last);
        }
    }
}

}
