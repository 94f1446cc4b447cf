//! The HTTP/1.1 exchange of a plain `GET`: addresses, requests and responses.
//!
//! An exchange that ends with a response is a success whatever its status code
//! says; the caller looks at the code. An `Error` stands for a failure below HTTP.

use vstd::prelude::*;
use vstd::slice::slice_subrange;
use crate::digits;
use crate::text;

verus! {

/// The version of this program, as it names itself to servers and in its status.
pub const VERSION: &'static str = "0.1.0";

/// The most of a body that is kept: a portal answers with a few dozen bytes.
pub const MAX_BODY: usize = 65536;

/// How much is read in search of the end of the head.
pub const MAX_HEAD: usize = 32768;

// ---------------------------------------------------------------------------
// Addresses
// ---------------------------------------------------------------------------

/// The scheme of an address.
#[derive(Debug, Clone, Copy, PartialEq, Eq, Structural)]
pub enum Scheme {
    Http,
    Https,
}

/// The port of a scheme where the address names none.
pub open spec fn default_port(scheme: Scheme) -> int {
    match scheme {
        Scheme::Http => 80,
        Scheme::Https => 443,
    }
}

/// What follows the scheme: `host[:port][/path]`. The port is a number from 1 to
/// 65535 and the host is not empty.
pub open spec fn split_authority(scheme: Scheme, rest: Seq<char>) -> Option<
    (Scheme, Seq<char>, int, Seq<char>),
> {
    let slash = text::index_of(rest, '/');
    let hostport = rest.take(slash);
    let path = if slash < rest.len() {
        rest.skip(slash)
    } else {
        "/"@
    };
    let colon = text::after_last(hostport, ':');
    let host = if colon > 0 {
        hostport.take(colon - 1)
    } else {
        hostport
    };
    let port = if colon > 0 {
        digits::read_uint(hostport.skip(colon), 65535)
    } else {
        Some(default_port(scheme))
    };
    if host.len() > 0 && port is Some && port->0 != 0 {
        Some((scheme, host, port->0, path))
    } else {
        None
    }
}

/// An address `scheme://host[:port][/path]` taken apart.
pub open spec fn split_url(url: Seq<char>) -> Option<(Scheme, Seq<char>, int, Seq<char>)> {
    if text::starts_with(url, "http://"@) {
        split_authority(Scheme::Http, url.skip("http://"@.len() as int))
    } else if text::starts_with(url, "https://"@) {
        split_authority(Scheme::Https, url.skip("https://"@.len() as int))
    } else {
        None
    }
}

fn parse_authority(scheme: Scheme, rest: &[char]) -> (r: Option<(Scheme, String, u16, String)>)
    ensures
        match r {
            Some((s, h, p, path)) => split_authority(scheme, rest@) == Some(
                (s, h@, p as int, path@),
            ),
            None => split_authority(scheme, rest@) is None,
        },
{
    let slash = text::find_char(rest, '/');
    let hostport = text::head(rest, slash);
    let path = if slash < rest.len() {
        text::string_of(text::tail(rest, slash))
    } else {
        "/".to_owned()
    };
    let colon = text::find_after_last(hostport, ':');
    let (host, port): (&[char], u16) = if colon > 0 {
        match digits::parse_uint(text::tail(hostport, colon), 65535) {
            Some(p) => (text::head(hostport, colon - 1), p as u16),
            None => {
                return None;
            },
        }
    } else if scheme == Scheme::Https {
        (hostport, 443)
    } else {
        (hostport, 80)
    };
    if port == 0 || host.len() == 0 {
        return None;
    }
    Some((scheme, text::string_of(host), port, path))
}

/// Takes an address apart into scheme, host, port and path. There are no IPv6
/// literals: a portal has an IPv4 address or a name.
pub fn parse_url(url: &str) -> (r: Option<(Scheme, String, u16, String)>)
    ensures
        match r {
            Some((s, h, p, path)) => split_url(url@) == Some((s, h@, p as int, path@)),
            None => split_url(url@) is None,
        },
{
    let u = text::chars_of(url);
    if text::starts_with_lit(u.as_slice(), "http://") {
        let n = text::chars_of("http://").len();
        parse_authority(Scheme::Http, text::tail(u.as_slice(), n))
    } else if text::starts_with_lit(u.as_slice(), "https://") {
        let n = text::chars_of("https://").len();
        parse_authority(Scheme::Https, text::tail(u.as_slice(), n))
    } else {
        None
    }
}

/// The name of a scheme, and what comes before the host.
pub open spec fn scheme_text(scheme: Scheme) -> Seq<char> {
    match scheme {
        Scheme::Http => "http://"@,
        Scheme::Https => "https://"@,
    }
}

proof fn lemma_split_scheme(scheme: Scheme, rest: Seq<char>)
    ensures
        split_url(scheme_text(scheme) + rest) == split_authority(scheme, rest),
{
    reveal_strlit("http://");
    reveal_strlit("https://");
    let url = scheme_text(scheme) + rest;
    let n = scheme_text(scheme).len() as int;
    assert(url.subrange(0, n) =~= scheme_text(scheme));
    assert(url.skip(n) =~= rest);
    if scheme == Scheme::Https {
        assert(url[4] == 's');
        if text::starts_with(url, "http://"@) {
            assert(url.subrange(0, 7)[4] == "http://"@[4]);
        }
    }
}

proof fn lemma_split_path(hostport: Seq<char>, path: Seq<char>)
    requires
        forall|i: int| 0 <= i < hostport.len() ==> #[trigger] hostport[i] != '/',
        path.len() == 0 || path[0] == '/',
    ensures
        text::index_of(hostport + path, '/') == hostport.len(),
        (hostport + path).take(hostport.len() as int) == hostport,
        (hostport + path).skip(hostport.len() as int) == path,
{
    let rest = hostport + path;
    let n = hostport.len() as int;
    assert forall|i: int| 0 <= i < n implies #[trigger] rest[i] != '/' by {
        assert(rest[i] == hostport[i]);
    }
    text::lemma_index_of_is(rest, '/', n);
    assert(rest.take(n) =~= hostport);
    assert(rest.skip(n) =~= path);
}

/// An address that is put together from its parts is taken apart into them again.
pub proof fn law_address_with_port(scheme: Scheme, host: Seq<char>, port: int, path: Seq<char>)
    requires
        host.len() > 0,
        forall|i: int| 0 <= i < host.len() ==> #[trigger] host[i] != '/',
        1 <= port <= 65535,
        path.len() > 0 && path[0] == '/',
    ensures
        split_url(scheme_text(scheme) + (host + ":"@ + digits::decimal(port as nat) + path))
            == Some((scheme, host, port, path)),
{
    reveal_strlit(":");
    let d = digits::decimal(port as nat);
    let hostport = host + ":"@ + d;
    let n = host.len() as int;
    digits::law_decimal_reads_back(port as nat, 65535);
    digits::lemma_decimal(port as nat);
    lemma_split_scheme(scheme, hostport + path);
    assert forall|i: int| 0 <= i < hostport.len() implies #[trigger] hostport[i] != '/' by {
        if i < n {
            assert(hostport[i] == host[i]);
        } else if i > n {
            assert(digits::is_digit(d[i - n - 1]));
        }
    }
    lemma_split_path(hostport, path);
    assert forall|i: int| n + 1 <= i < hostport.len() implies #[trigger] hostport[i] != ':' by {
        assert(digits::is_digit(d[i - n - 1]));
    }
    assert(hostport[n] == ':');
    text::lemma_after_last_is(hostport, ':', n + 1);
    assert(hostport.take(n) =~= host);
    assert(hostport.skip(n + 1) =~= d);
}

/// An address that names no port has the port of its scheme, and one that names no path the
/// path `/`.
pub proof fn law_address_without_port(scheme: Scheme, host: Seq<char>, path: Seq<char>)
    requires
        host.len() > 0,
        forall|i: int| 0 <= i < host.len() ==> #[trigger] host[i] != '/' && host[i] != ':',
        path.len() == 0 || path[0] == '/',
    ensures
        split_url(scheme_text(scheme) + (host + path)) == Some(
            (
                scheme,
                host,
                default_port(scheme),
                if path.len() > 0 {
                    path
                } else {
                    "/"@
                },
            ),
        ),
{
    lemma_split_scheme(scheme, host + path);
    lemma_split_path(host, path);
    text::lemma_after_last_is(host, ':', 0);
}

// ---------------------------------------------------------------------------
// Errors
// ---------------------------------------------------------------------------

/// Why no response came.
#[derive(Debug)]
pub enum Error {
    /// The address cannot be taken apart.
    BadUrl(String),
    /// The address is `https` and this build has no TLS.
    TlsNotBuilt,
    /// The host name has no address yet; common right after a login.
    Dns(String),
    /// No connection.
    Connect(String),
    /// The exchange broke off.
    Io(String),
}

/// What an error says.
pub open spec fn error_text(e: Error) -> Seq<char> {
    match e {
        Error::BadUrl(u) => "非法地址: "@ + u@,
        Error::TlsNotBuilt =>
            "配置了 https，但当前二进制未编译 TLS 支持（需 --features tls 重新构建）"@,
        Error::Dns(m) => "DNS 解析失败: "@ + m@,
        Error::Connect(m) => "连接失败: "@ + m@,
        Error::Io(m) => "收发失败: "@ + m@,
    }
}

impl Error {
    /// The message of the error.
    pub fn message(&self) -> (r: String)
        ensures
            r@ == error_text(*self),
    {
        match self {
            Error::BadUrl(u) => "非法地址: ".to_owned().concat(u.as_str()),
            Error::TlsNotBuilt =>
                "配置了 https，但当前二进制未编译 TLS 支持（需 --features tls 重新构建）".to_owned(),
            Error::Dns(m) => "DNS 解析失败: ".to_owned().concat(m.as_str()),
            Error::Connect(m) => "连接失败: ".to_owned().concat(m.as_str()),
            Error::Io(m) => "收发失败: ".to_owned().concat(m.as_str()),
        }
    }
}

// ---------------------------------------------------------------------------
// Requests
// ---------------------------------------------------------------------------

/// How an address is fetched.
pub enum Fetch {
    /// Over a plain connection to `address` (`host:port`), by sending `request`.
    Plain { address: String, request: String },
    /// Over TLS.
    Tls,
}

/// How this program names itself to servers.
pub open spec fn agent() -> Seq<char> {
    "CampusAuthGuardian/"@ + VERSION@
}

/// `host:port`.
pub open spec fn address_text(host: Seq<char>, port: int) -> Seq<char> {
    host + ":"@ + digits::decimal(port as nat)
}

/// The request for `path` at `host`. It asks the server to close the connection.
pub open spec fn request_text(host: Seq<char>, path: Seq<char>) -> Seq<char> {
    "GET "@ + path + " HTTP/1.1\r\nHost: "@ + host + "\r\nUser-Agent: "@ + agent()
        + "\r\nAccept: */*\r\nConnection: close\r\n\r\n"@
}

/// How this program names itself to servers.
pub fn user_agent() -> (r: String)
    ensures
        r@ == agent(),
{
    "CampusAuthGuardian/".to_owned().concat(VERSION)
}

/// What fetching an address takes, or why it is refused.
pub ghost enum FetchView {
    /// Send the request to the address.
    Plain { address: Seq<char>, request: Seq<char> },
    /// Fetch it with TLS.
    Tls,
    /// The address cannot be taken apart.
    BadUrl,
    /// The address is `https`, which cannot be fetched.
    TlsNotBuilt,
}

/// What fetching `url` takes.
pub open spec fn fetch_of(url: Seq<char>, tls: bool) -> FetchView {
    match split_url(url) {
        None => FetchView::BadUrl,
        Some((Scheme::Http, host, port, path)) => FetchView::Plain {
            address: address_text(host, port),
            request: request_text(host, path),
        },
        Some((Scheme::Https, host, port, path)) => if tls {
            FetchView::Tls
        } else {
            FetchView::TlsNotBuilt
        },
    }
}

/// Whether a result is the one described; a bad address is told in full.
pub open spec fn fetch_is(r: Result<Fetch, Error>, url: Seq<char>, v: FetchView) -> bool {
    match v {
        FetchView::Plain { address: a, request: q } => r matches Ok(
            Fetch::Plain { address, request },
        ) && address@ == a && request@ == q,
        FetchView::Tls => r == Ok::<Fetch, Error>(Fetch::Tls),
        FetchView::BadUrl => r matches Err(Error::BadUrl(u)) && u@ == url,
        FetchView::TlsNotBuilt => r == Err::<Fetch, Error>(Error::TlsNotBuilt),
    }
}

/// What fetching `url` takes: an address that cannot be taken apart is refused, and so
/// is an `https` one unless `tls` says that it can be fetched.
pub fn prepare_get(url: &str, tls: bool) -> (r: Result<Fetch, Error>)
    ensures
        fetch_is(r, url@, fetch_of(url@, tls)),
{
    let (scheme, host, port, path) = match parse_url(url) {
        Some(parts) => parts,
        None => {
            return Err(Error::BadUrl(url.to_owned()));
        },
    };
    if scheme == Scheme::Https {
        if tls {
            return Ok(Fetch::Tls);
        }
        return Err(Error::TlsNotBuilt);
    }
    let mut address = host.as_str().to_owned().concat(":");
    digits::push_decimal(&mut address, port as u64);
    let mut request = "GET ".to_owned();
    request.append(path.as_str());
    request.append(" HTTP/1.1\r\nHost: ");
    request.append(host.as_str());
    request.append("\r\nUser-Agent: ");
    request.append(user_agent().as_str());
    request.append("\r\nAccept: */*\r\nConnection: close\r\n\r\n");
    Ok(Fetch::Plain { address, request })
}

/// What is said where the host name of an address has no address at all.
pub open spec fn no_address_text(address: Seq<char>) -> Seq<char> {
    address + " 无可用地址"@
}

/// What is said where no connection came about.
pub open spec fn connect_text(address: Seq<char>, cause: Option<Seq<char>>) -> Seq<char> {
    address + ": "@ + (match cause {
        Some(c) => c,
        None => "无可用地址"@,
    })
}

/// What is said where the request could not be sent.
pub open spec fn send_text(cause: Seq<char>) -> Seq<char> {
    "发送请求失败: "@ + cause
}

/// The error where the host name of `address` has no address at all.
pub fn no_address(address: &str) -> (r: Error)
    ensures
        r matches Error::Dns(m) && m@ == no_address_text(address@),
{
    Error::Dns(address.to_owned().concat(" 无可用地址"))
}

/// The error where no connection to `address` came about; `cause` is what the last
/// attempt met, if there was one.
pub fn connect_failed(address: &str, cause: Option<&str>) -> (r: Error)
    ensures
        r matches Error::Connect(m) && m@ == connect_text(
            address@,
            match cause {
                Some(c) => Some(c@),
                None => None,
            },
        ),
{
    let mut m = address.to_owned().concat(": ");
    match cause {
        Some(c) => m.append(c),
        None => m.append("无可用地址"),
    }
    Error::Connect(m)
}

/// The error where the request could not be sent.
pub fn send_failed(cause: &str) -> (r: Error)
    ensures
        r matches Error::Io(m) && m@ == send_text(cause@),
{
    Error::Io("发送请求失败: ".to_owned().concat(cause))
}

// ---------------------------------------------------------------------------
// Responses
// ---------------------------------------------------------------------------

/// A response: status code, headers in the order in which they came, and body.
#[derive(Debug, Clone)]
pub struct Response {
    pub status: u16,
    pub headers: Vec<(String, String)>,
    pub body: String,
}

/// The texts of a list of pairs.
pub open spec fn pairs(h: Seq<(String, String)>) -> Seq<(Seq<char>, Seq<char>)> {
    h.map_values(|p: (String, String)| (p.0@, p.1@))
}

/// The value of the first header of that name; the case of a name does not matter.
pub open spec fn header_value(h: Seq<(Seq<char>, Seq<char>)>, name: Seq<char>) -> Option<Seq<char>>
    decreases h.len(),
{
    if h.len() == 0 {
        None
    } else if text::lower_text(h[0].0) == text::lower_text(name) {
        Some(h[0].1)
    } else {
        header_value(h.drop_first(), name)
    }
}

impl Response {
    /// The value of a header, whatever the case of its name: some portals answer with a
    /// lower-case `location`.
    pub fn header(&self, name: &str) -> (r: Option<&str>)
        ensures
            match r {
                Some(v) => header_value(pairs(self.headers@), name@) == Some(v@),
                None => header_value(pairs(self.headers@), name@) is None,
            },
    {
        let n = text::chars_of(name);
        let ghost all = pairs(self.headers@);
        let mut i: usize = 0;
        assert(all.skip(0) =~= all);
        while i < self.headers.len()
            invariant
                i <= self.headers@.len(),
                all == pairs(self.headers@),
                n@ == name@,
                header_value(all, name@) == header_value(all.skip(i as int), name@),
            decreases self.headers@.len() - i,
        {
            let k = text::chars_of(self.headers[i].0.as_str());
            assert(all.skip(i as int)[0] == all[i as int]);
            if text::same_ignoring_case(k.as_slice(), n.as_slice()) {
                return Some(self.headers[i].1.as_str());
            }
            assert(all.skip(i as int).drop_first() =~= all.skip(i + 1));
            i += 1;
        }
        None
    }
}

/// The text of bytes that are taken for UTF-8, whatever they are.
pub uninterp spec fn utf8_lossy(bytes: Seq<u8>) -> Seq<char>;

/// `String::from_utf8_lossy` reads bytes as UTF-8, with the replacement character for
/// what is not UTF-8. The text is a function of the bytes; where the bytes are UTF-8 it
/// is the text that they encode.
#[verifier::external_body]
fn decode_lossy(bytes: &[u8]) -> (r: String)
    ensures
        r@ == utf8_lossy(bytes@),
        vstd::utf8::valid_utf8(bytes@) ==> r@ == vstd::utf8::decode_utf8(bytes@),
{
    String::from_utf8_lossy(bytes).into_owned()
}

/// Bytes that are UTF-8 are read as the text that they encode.
pub open spec fn read_exactly(bytes: Seq<u8>) -> bool {
    vstd::utf8::valid_utf8(bytes) ==> utf8_lossy(bytes) == vstd::utf8::decode_utf8(bytes)
}

/// The empty line that ends the head of a response, with the ending of the line before.
pub open spec fn blank_line() -> Seq<u8> {
    seq![13u8, 10u8, 13u8, 10u8]
}

/// Where the body of a response starts: after the first empty line.
pub open spec fn body_start(buf: Seq<u8>) -> Option<int> {
    if text::occurs(buf, blank_line()) {
        Some(text::find(buf, blank_line()) + 4)
    } else {
        None
    }
}

/// Where the body of a response starts in `buf`, once its head is complete.
pub fn find_head_end(buf: &[u8]) -> (r: Option<usize>)
    ensures
        match r {
            Some(p) => body_start(buf@) == Some(p as int) && 4 <= p <= buf@.len(),
            None => body_start(buf@) is None,
        },
{
    let n = buf.len();
    let mut i: usize = 0;
    while n >= 4 && i <= n - 4
        invariant
            n == buf@.len(),
            i <= n,
            forall|j: int| 0 <= j < i ==> !#[trigger] text::occurs_at(buf@, blank_line(), j),
        decreases n - i,
    {
        if buf[i] == 13 && buf[i + 1] == 10 && buf[i + 2] == 13 && buf[i + 3] == 10 {
            assert(buf@.subrange(i as int, i + 4) =~= blank_line());
            proof {
                text::lemma_find_is(buf@, blank_line(), i as int);
            }
            return Some(i + 4);
        }
        assert(!text::occurs_at(buf@, blank_line(), i as int)) by {
            if text::occurs_at(buf@, blank_line(), i as int) {
                let w = buf@.subrange(i as int, i + 4);
                assert(w[0] == 13 && w[1] == 10 && w[2] == 13 && w[3] == 10);
            }
        }
        i += 1;
    }
    assert(!text::occurs(buf@, blank_line())) by {
        if text::occurs(buf@, blank_line()) {
            let k = choose|k: int| text::occurs_at(buf@, blank_line(), k);
            assert(!text::occurs_at(buf@, blank_line(), k));
        }
    }
    None
}

/// A header line `name: value` without the white space around its two parts; `None` for a
/// line without a colon.
pub open spec fn header_pair(line: Seq<char>) -> Option<(Seq<char>, Seq<char>)> {
    let colon = text::index_of(line, ':');
    if colon < line.len() {
        Some(
            (
                text::trim(line.take(colon)),
                text::trim_end_char(text::trim(line.skip(colon + 1)), '\r'),
            ),
        )
    } else {
        None
    }
}

/// The length that a line announces for the body.
pub open spec fn line_length(line: Seq<char>) -> Option<int> {
    let colon = text::index_of(line, ':');
    if colon < line.len() && text::lower_text(text::trim(line.take(colon))) == text::lower_text(
        "content-length"@,
    ) {
        digits::read_uint(text::trim(line.skip(colon + 1)), usize::MAX as int)
    } else {
        None
    }
}

/// The length of the body by the first line that announces one.
pub open spec fn announced_length(ls: Seq<Seq<char>>) -> Option<int>
    decreases ls.len(),
{
    if ls.len() == 0 {
        None
    } else if line_length(ls[0]) is Some {
        line_length(ls[0])
    } else {
        announced_length(ls.drop_first())
    }
}

/// The length that the text of a head announces for the body. A head with
/// `Transfer-Encoding: chunked` announces none.
pub fn head_content_length(head: &str) -> (r: Option<usize>)
    ensures
        match r {
            Some(n) => announced_length(text::lines(head@)) == Some(n as int),
            None => announced_length(text::lines(head@)) is None,
        },
{
    let h = text::chars_of(head);
    let name = text::chars_of("content-length");
    let ls = text::lines_of(h.as_slice());
    let ghost all = text::texts(ls@);
    let mut i: usize = 0;
    assert(all.skip(0) =~= all);
    while i < ls.len()
        invariant
            i <= ls@.len(),
            all == text::texts(ls@),
            all == text::lines(head@),
            name@ == "content-length"@,
            announced_length(all) == announced_length(all.skip(i as int)),
        decreases ls@.len() - i,
    {
        let line = ls[i];
        assert(all.skip(i as int)[0] == line@);
        let colon = text::find_char(line, ':');
        if colon < line.len() {
            if text::same_ignoring_case(text::trimmed(text::head(line, colon)), name.as_slice()) {
                match digits::parse_uint(
                    text::trimmed(text::tail(line, colon + 1)),
                    usize::MAX as u64,
                ) {
                    Some(n) => {
                        return Some(n as usize);
                    },
                    None => {},
                }
            }
        }
        assert(all.skip(i as int).drop_first() =~= all.skip(i + 1));
        i += 1;
    }
    None
}

/// The length that the bytes of a head announce for the body.
pub fn parse_content_length(head: &[u8]) -> (r: Option<usize>)
    ensures
        match r {
            Some(n) => announced_length(text::lines(utf8_lossy(head@))) == Some(n as int),
            None => announced_length(text::lines(utf8_lossy(head@))) is None,
        },
        read_exactly(head@),
{
    let t = decode_lossy(head);
    head_content_length(t.as_str())
}

/// The second of the words that white space parts.
pub open spec fn second_word(s: Seq<char>) -> Option<Seq<char>> {
    let first = text::trim_start(s);
    let rest = text::trim_start(first.skip(text::word_len(first)));
    if rest.len() > 0 {
        Some(rest.take(text::word_len(rest)))
    } else {
        None
    }
}

/// The first line of a head, empty where there is none.
pub open spec fn status_line(head: Seq<char>) -> Seq<char> {
    let ls = text::lines(head);
    if ls.len() > 0 {
        ls[0]
    } else {
        Seq::empty()
    }
}

/// The status code in the first line of a head.
pub open spec fn status_code(head: Seq<char>) -> Option<int> {
    match second_word(status_line(head)) {
        Some(w) => digits::read_uint(w, 65535),
        None => None,
    }
}

/// The headers that stand in lines; lines without a colon are passed over.
pub open spec fn header_pairs(ls: Seq<Seq<char>>) -> Seq<(Seq<char>, Seq<char>)>
    decreases ls.len(),
{
    if ls.len() == 0 {
        seq![]
    } else {
        match header_pair(ls.last()) {
            Some(p) => header_pairs(ls.drop_last()).push(p),
            None => header_pairs(ls.drop_last()),
        }
    }
}

/// The headers of a head: those of the lines after the first.
pub open spec fn head_headers(head: Seq<char>) -> Seq<(Seq<char>, Seq<char>)> {
    let ls = text::lines(head);
    if ls.len() > 0 {
        header_pairs(ls.skip(1))
    } else {
        seq![]
    }
}

fn parse_status(line: &[char]) -> (r: Option<u16>)
    ensures
        match (r, second_word(line@)) {
            (Some(n), Some(w)) => digits::read_uint(w, 65535) == Some(n as int),
            (Some(n), None) => false,
            (None, Some(w)) => digits::read_uint(w, 65535) is None,
            (None, None) => true,
        },
{
    let first = text::trimmed_start(line);
    let rest = text::trimmed_start(text::tail(first, text::first_word_len(first)));
    if rest.len() == 0 {
        return None;
    }
    match digits::parse_uint(text::head(rest, text::first_word_len(rest)), 65535) {
        Some(n) => Some(n as u16),
        None => None,
    }
}

/// A response from the texts of its head and its body. It fails only where the first line
/// of the head holds no status code.
pub fn parse_response(head: &str, body: String) -> (r: Result<Response, Error>)
    ensures
        match status_code(head@) {
            Some(code) => r matches Ok(resp) && resp.status == code && resp.body == body && pairs(
                resp.headers@,
            ) == head_headers(head@),
            None => r matches Err(Error::Io(m)) && m@ == "无法解析状态行: "@ + status_line(head@),
        },
{
    let h = text::chars_of(head);
    let ls = text::lines_of(h.as_slice());
    let ghost all = text::texts(ls@);
    let empty: Vec<char> = Vec::new();
    let first: &[char] = if ls.len() > 0 {
        ls[0]
    } else {
        empty.as_slice()
    };
    assert(first@ =~= status_line(head@)) by {
        if all.len() > 0 {
            assert(all[0] == ls@[0]@);
        }
    }
    let status = match parse_status(first) {
        Some(n) => n,
        None => {
            let mut m = "无法解析状态行: ".to_owned();
            text::push_chars(&mut m, first);
            return Err(Error::Io(m));
        },
    };
    let mut headers: Vec<(String, String)> = Vec::new();
    let mut i: usize = 1;
    let ghost tail = all.skip(1);
    assert(pairs(headers@) =~= header_pairs(tail.take(0)));
    while i < ls.len()
        invariant
            1 <= i,
            ls@.len() >= 1 ==> i <= ls@.len(),
            all == text::texts(ls@),
            tail == all.skip(1),
            ls@.len() >= 1 ==> pairs(headers@) == header_pairs(tail.take(i - 1)),
            ls@.len() == 0 ==> headers@.len() == 0,
        decreases ls@.len() - i,
    {
        let line = ls[i];
        let ghost next = tail.take(i as int);
        assert(next.drop_last() =~= tail.take(i - 1));
        assert(next.last() == line@);
        let colon = text::find_char(line, ':');
        if colon < line.len() {
            let k = text::string_of(text::trimmed(text::head(line, colon)));
            let v = text::string_of(
                text::trimmed_end_char(text::trimmed(text::tail(line, colon + 1)), '\r'),
            );
            let ghost done = pairs(headers@);
            headers.push((k, v));
            assert(pairs(headers@) =~= done.push((k@, v@)));
        }
        i += 1;
    }
    proof {
        if ls@.len() >= 1 {
            assert(tail.take(ls@.len() - 1) =~= tail);
        } else {
            assert(pairs(headers@) =~= head_headers(head@));
        }
    }
    Ok(Response { status, headers, body })
}

// ---------------------------------------------------------------------------
// Reading a response
// ---------------------------------------------------------------------------

/// The text of the head of a response whose body starts at `p`.
pub open spec fn head_text(buf: Seq<u8>, p: int) -> Seq<char> {
    utf8_lossy(buf.take(p))
}

/// The bytes of the body that are kept, in a response whose body starts at `p`: no more than
/// `MAX_BODY` of them.
pub open spec fn kept_body(buf: Seq<u8>, p: int) -> Seq<u8> {
    let body = buf.skip(p);
    if body.len() <= MAX_BODY {
        body
    } else {
        body.take(MAX_BODY as int)
    }
}

/// Whether what came is all that is waited for: the announced body or `MAX_BODY` bytes of
/// it, or `MAX_HEAD` bytes without an end of the head.
pub open spec fn enough(buf: Seq<u8>) -> bool {
    match body_start(buf) {
        Some(p) => {
            ||| buf.len() - p >= MAX_BODY
            ||| announced_length(text::lines(head_text(buf, p))) matches Some(n) && buf.len() - p >= n
        },
        None => buf.len() >= MAX_HEAD,
    }
}

/// What the attempt to read more of a response gave.
pub enum ReadEvent<'a> {
    /// These bytes; none where the peer closed the connection.
    Data(&'a [u8]),
    /// Nothing in time. The text is what the system says of it.
    TimedOut(&'a str),
    /// A failure. The text is what the system says of it.
    Failed(&'a str),
}

/// What to do next.
pub enum ReadStep {
    /// Read on.
    More,
    /// Stop: what came is the response.
    Finished,
    /// Give up.
    Failed(Error),
}

/// What to do next, as [`ReadStep`] lists it; a failure is one of reading, and is told so.
pub ghost enum StepView {
    More,
    Finished,
    Failed(Seq<char>),
}

/// Whether a step is the one described.
pub open spec fn step_is(r: ReadStep, v: StepView) -> bool {
    match v {
        StepView::More => r == ReadStep::More,
        StepView::Finished => r == ReadStep::Finished,
        StepView::Failed(m) => r matches ReadStep::Failed(Error::Io(t)) && t@ == m,
    }
}

/// The bytes that came, after one more attempt to read.
pub open spec fn received_after(before: Seq<u8>, event: ReadEvent) -> Seq<u8> {
    match event {
        ReadEvent::Data(chunk) => before + chunk@,
        _ => before,
    }
}

/// What to do after an attempt to read. Silence ends a response whose head is complete.
pub open spec fn next_step(before: Seq<u8>, event: ReadEvent) -> StepView {
    match event {
        ReadEvent::Data(chunk) => if chunk@.len() == 0 || enough(before + chunk@) {
            StepView::Finished
        } else {
            StepView::More
        },
        ReadEvent::TimedOut(cause) => if body_start(before) is Some {
            StepView::Finished
        } else {
            StepView::Failed("读取响应失败: "@ + cause@)
        },
        ReadEvent::Failed(cause) => StepView::Failed("读取响应失败: "@ + cause@),
    }
}

/// What a response says.
#[verifier::ext_equal]
pub ghost struct ResponseView {
    pub status: int,
    pub headers: Seq<(Seq<char>, Seq<char>)>,
    pub body: Seq<char>,
}

/// The response in bytes that came, or what is wrong with them.
pub open spec fn response_of(buf: Seq<u8>) -> Result<ResponseView, Seq<char>> {
    match body_start(buf) {
        None => Err("响应头不完整"@),
        Some(p) => {
            let head = head_text(buf, p);
            match status_code(head) {
                Some(status) => Ok(
                    ResponseView {
                        status,
                        headers: head_headers(head),
                        body: utf8_lossy(kept_body(buf, p)),
                    },
                ),
                None => Err("无法解析状态行: "@ + status_line(head)),
            }
        },
    }
}

/// Whether a result is the one described; an error is one of reading.
pub open spec fn response_is(
    r: Result<Response, Error>,
    v: Result<ResponseView, Seq<char>>,
) -> bool {
    match v {
        Ok(view) => r matches Ok(resp) && resp.status == view.status && pairs(resp.headers@)
            == view.headers && resp.body@ == view.body,
        Err(m) => r matches Err(Error::Io(t)) && t@ == m,
    }
}

/// A response that is being read.
pub struct ResponseReader {
    buf: Vec<u8>,
    head_end: Option<usize>,
    content_length: Option<usize>,
}

/// The first place of a pattern is the same in every longer sequence.
pub proof fn lemma_find_extends<T>(a: Seq<T>, b: Seq<T>, p: Seq<T>)
    requires
        text::occurs(a, p),
    ensures
        text::occurs(a + b, p),
        text::find(a + b, p) == text::find(a, p),
{
    text::lemma_find(a, p);
    let k = text::find(a, p);
    let whole = a + b;
    assert(whole.subrange(k, k + p.len()) =~= a.subrange(k, k + p.len()));
    assert forall|j: int| 0 <= j < k implies !#[trigger] text::occurs_at(whole, p, j) by {
        assert(whole.subrange(j, j + p.len()) =~= a.subrange(j, j + p.len()));
        assert(!text::occurs_at(a, p, j));
    }
    text::lemma_find_is(whole, p, k);
}

/// Once the head is complete, what comes later changes neither it nor where the body
/// starts; and what was enough stays enough.
pub proof fn law_head_is_final(a: Seq<u8>, b: Seq<u8>)
    requires
        body_start(a) is Some,
    ensures
        body_start(a + b) == body_start(a),
        (a + b).take(body_start(a)->0) == a.take(body_start(a)->0),
        head_text(a + b, body_start(a)->0) == head_text(a, body_start(a)->0),
        enough(a) ==> enough(a + b),
{
    lemma_find_extends(a, b, blank_line());
    text::lemma_find(a, blank_line());
    let p = body_start(a)->0;
    assert((a + b).take(p) =~= a.take(p));
}

impl ResponseReader {
    /// The bytes that came so far.
    pub closed spec fn received(&self) -> Seq<u8> {
        self.buf@
    }

    /// What is noted of the head is what the bytes say.
    pub closed spec fn wf(&self) -> bool {
        match self.head_end {
            Some(p) => {
                &&& body_start(self.buf@) == Some(p as int)
                &&& p <= self.buf@.len()
                &&& read_exactly(self.buf@.take(p as int))
                &&& announced_length(text::lines(head_text(self.buf@, p as int))) == (
                match self.content_length {
                    Some(n) => Some(n as int),
                    None => None,
                })
            },
            None => body_start(self.buf@) is None && self.content_length is None,
        }
    }

    /// A response of which nothing came yet.
    pub fn new() -> (r: Self)
        ensures
            r.wf(),
            r.received() == Seq::<u8>::empty(),
    {
        let r = ResponseReader { buf: Vec::new(), head_end: None, content_length: None };
        assert(body_start(r.buf@) is None) by {
            if text::occurs(r.buf@, blank_line()) {
                let k = choose|k: int| text::occurs_at(r.buf@, blank_line(), k);
                assert(k + 4 <= 0);
            }
        }
        r
    }

    fn is_enough(&self) -> (r: bool)
        requires
            self.wf(),
        ensures
            r == enough(self.received()),
    {
        match self.head_end {
            Some(p) => {
                let got = self.buf.len() - p;
                if got >= MAX_BODY {
                    return true;
                }
                match self.content_length {
                    Some(n) => got >= n,
                    None => false,
                }
            },
            None => self.buf.len() >= MAX_HEAD,
        }
    }

    /// Takes in what an attempt to read gave, and says what to do next. A peer need not
    /// close the connection: with the head complete, the announced length or silence ends
    /// the response too.
    pub fn on_read(&mut self, event: ReadEvent) -> (r: ReadStep)
        requires
            old(self).wf(),
        ensures
            final(self).wf(),
            final(self).received() == received_after(old(self).received(), event),
            step_is(r, next_step(old(self).received(), event)),
            body_start(final(self).received()) matches Some(p) ==> read_exactly(
                final(self).received().take(p),
            ),
    {
        match event {
            ReadEvent::Data(chunk) => {
                let ghost before = self.buf@;
                if chunk.len() == 0 {
                    assert(before + chunk@ =~= before);
                    return ReadStep::Finished;
                }
                let mut i: usize = 0;
                assert(before + chunk@.take(0) =~= before);
                while i < chunk.len()
                    invariant
                        i <= chunk@.len(),
                        self.buf@ == before + chunk@.take(i as int),
                        self.head_end == old(self).head_end,
                        self.content_length == old(self).content_length,
                    decreases chunk@.len() - i,
                {
                    self.buf.push(chunk[i]);
                    assert(self.buf@ =~= before + chunk@.take(i + 1));
                    i += 1;
                }
                assert(chunk@.take(chunk@.len() as int) =~= chunk@);
                match self.head_end {
                    Some(p) => {
                        proof {
                            law_head_is_final(before, chunk@);
                        }
                    },
                    None => {
                        match find_head_end(self.buf.as_slice()) {
                            Some(p) => {
                                let head = slice_subrange(self.buf.as_slice(), 0, p);
                                assert(head@ =~= self.buf@.take(p as int));
                                self.content_length = parse_content_length(head);
                                self.head_end = Some(p);
                            },
                            None => {},
                        }
                    },
                }
                if self.is_enough() {
                    ReadStep::Finished
                } else {
                    ReadStep::More
                }
            },
            ReadEvent::TimedOut(cause) => {
                if self.head_end.is_some() {
                    ReadStep::Finished
                } else {
                    ReadStep::Failed(Error::Io("读取响应失败: ".to_owned().concat(cause)))
                }
            },
            ReadEvent::Failed(cause) => ReadStep::Failed(
                Error::Io("读取响应失败: ".to_owned().concat(cause)),
            ),
        }
    }

    /// The response that came: what follows the head is its body, up to its limit. It fails where the
    /// head is not complete or holds no status code.
    pub fn finish(self) -> (r: Result<Response, Error>)
        requires
            self.wf(),
        ensures
            response_is(r, response_of(self.received())),
            body_start(self.received()) matches Some(p) ==> read_exactly(self.received().take(p))
                && read_exactly(kept_body(self.received(), p)),
    {
        match self.head_end {
            None => Err(Error::Io("响应头不完整".to_owned())),
            Some(p) => {
                let bytes = self.buf.as_slice();
                let head_bytes = slice_subrange(bytes, 0, p);
                let end = if bytes.len() - p <= MAX_BODY {
                    bytes.len()
                } else {
                    p + MAX_BODY
                };
                let body_bytes = slice_subrange(bytes, p, end);
                assert(head_bytes@ =~= self.buf@.take(p as int));
                assert(body_bytes@ =~= kept_body(self.buf@, p as int));
                let head = decode_lossy(head_bytes);
                let body = decode_lossy(body_bytes);
                parse_response(head.as_str(), body)
            },
        }
    }
}

// ---------------------------------------------------------------------------
// What can be relied on
// ---------------------------------------------------------------------------

/// What is taken apart was an address of one of the two schemes with a host, a port and a path,
/// and is put together again from its parts: nothing of it is lost, and nothing else is taken
/// for an address.
pub proof fn law_address_is_exact(url: Seq<char>)
    ensures
        split_url(url) matches Some((scheme, host, port, path)) ==> {
            &&& host.len() > 0 && !host.contains('/')
            &&& 1 <= port <= 65535
            &&& path.len() > 0 && path[0] == '/'
            &&& exists|digits: Seq<char>, rest: Seq<char>|
                #![trigger host + digits + rest]
                {
                    &&& url == (if scheme is Http {
                        "http://"@
                    } else {
                        "https://"@
                    }) + (host + digits + rest)
                    &&& rest == path || rest.len() == 0 && path == "/"@
                    &&& if digits.len() == 0 {
                        !host.contains(':') && port == (if scheme is Http {
                            80int
                        } else {
                            443
                        })
                    } else {
                        digits[0] == ':' && digits::read_uint(digits.skip(1), 65535) == Some(port)
                    }
                }
        },
        !text::starts_with(url, "http://"@) && !text::starts_with(url, "https://"@) ==> split_url(
            url,
        ) is None,
{
    text::law_found(url, "http://"@);
    text::law_found(url, "https://"@);
    if let Some((scheme, host, port, path)) = split_url(url) {
        let start = if scheme is Http {
            "http://"@
        } else {
            "https://"@
        };
        let rest = url.skip(start.len() as int);
        assert(url == start + rest);
        lemma_authority_is_exact(scheme, rest);
    }
}

proof fn lemma_authority_is_exact(scheme: Scheme, rest: Seq<char>)
    requires
        split_authority(scheme, rest) is Some,
    ensures
        split_authority(scheme, rest) matches Some((s, host, port, path)) && {
            &&& s == scheme
            &&& host.len() > 0 && !host.contains('/')
            &&& 1 <= port <= 65535
            &&& path.len() > 0 && path[0] == '/'
            &&& exists|digits: Seq<char>, tail: Seq<char>|
                #![trigger host + digits + tail]
                {
                    &&& rest == host + digits + tail
                    &&& tail == path || tail.len() == 0 && path == "/"@
                    &&& if digits.len() == 0 {
                        !host.contains(':') && port == (if scheme is Http {
                            80int
                        } else {
                            443
                        })
                    } else {
                        digits[0] == ':' && digits::read_uint(digits.skip(1), 65535) == Some(port)
                    }
                }
        },
{
    reveal_strlit("/");
    let (s, host, port, path) = split_authority(scheme, rest)->0;
    let slash = text::index_of(rest, '/');
    text::lemma_index_of(rest, '/');
    let hostport = rest.take(slash);
    let tail = rest.skip(slash);
    let colon = text::after_last(hostport, ':');
    lemma_after_last(hostport, ':');
    let digits = hostport.skip(host.len() as int);
    assert(rest =~= hostport + tail);
    assert(hostport =~= host + digits);
    assert(rest =~= host + digits + tail);
    assert forall|i: int| 0 <= i < host.len() implies #[trigger] host[i] != '/' by {
        assert(host[i] == rest[i]);
    }
    if colon > 0 {
        assert(digits[0] == hostport[colon - 1]);
        assert(digits.skip(1) =~= hostport.skip(colon));
        digits::law_read_uint(digits.skip(1), 65535, 0);
    } else {
        assert(digits.len() == 0);
        assert forall|i: int| 0 <= i < host.len() implies #[trigger] host[i] != ':' by {
            assert(hostport[i] != ':');
        }
    }
}

proof fn lemma_after_last(s: Seq<char>, c: char)
    ensures
        0 <= text::after_last(s, c) <= s.len(),
        text::after_last(s, c) > 0 ==> s[text::after_last(s, c) - 1] == c,
        forall|i: int| text::after_last(s, c) <= i < s.len() ==> #[trigger] s[i] != c,
    decreases s.len(),
{
    if s.len() > 0 && s.last() != c {
        lemma_after_last(s.drop_last(), c);
        assert forall|i: int| text::after_last(s, c) <= i < s.len() implies #[trigger] s[i] != c by {
            if i < s.len() - 1 {
                assert(s.drop_last()[i] == s[i]);
            }
        }
    }
}

/// What an error says: which kind it is, and then what it is about, in full.
pub proof fn law_error_text(m: String)
    ensures
        error_text(Error::BadUrl(m)) == "非法地址: "@ + m@,
        error_text(Error::Dns(m)) == "DNS 解析失败: "@ + m@,
        error_text(Error::Connect(m)) == "连接失败: "@ + m@,
        error_text(Error::Io(m)) == "收发失败: "@ + m@,
        error_text(Error::TlsNotBuilt).len() > 0,
{
    reveal_strlit("配置了 https，但当前二进制未编译 TLS 支持（需 --features tls 重新构建）");
}

/// A request asks the host of the address for its path, and is sent to its host and port; the
/// two always name the same host.
pub proof fn law_request(host: Seq<char>, port: int, path: Seq<char>)
    requires
        0 <= port,
    ensures
        address_text(host, port) == host + ":"@ + digits::decimal(port as nat),
        request_text(host, path) == "GET "@ + path + " HTTP/1.1\r\nHost: "@ + host
            + "\r\nUser-Agent: CampusAuthGuardian/"@ + VERSION@
            + "\r\nAccept: */*\r\nConnection: close\r\n\r\n"@,
{
    reveal_strlit("\r\nUser-Agent: ");
    reveal_strlit("CampusAuthGuardian/");
    reveal_strlit("\r\nUser-Agent: CampusAuthGuardian/");
    assert("\r\nUser-Agent: "@ + "CampusAuthGuardian/"@ =~= "\r\nUser-Agent: CampusAuthGuardian/"@);
    assert(request_text(host, path) =~= "GET "@ + path + " HTTP/1.1\r\nHost: "@ + host
        + "\r\nUser-Agent: CampusAuthGuardian/"@ + VERSION@
        + "\r\nAccept: */*\r\nConnection: close\r\n\r\n"@);
}

/// A header is found by its name, whatever the case of its letters: the value is that of the
/// first header of the name, and there is none exactly where no header has the name.
pub proof fn law_header(h: Seq<(Seq<char>, Seq<char>)>, name: Seq<char>, k: int)
    requires
        0 <= k <= h.len(),
        forall|i: int| 0 <= i < k ==> text::lower_text((#[trigger] h[i]).0) != text::lower_text(name),
        k < h.len() ==> text::lower_text(h[k].0) == text::lower_text(name),
    ensures
        header_value(h, name) == (if k < h.len() {
            Some(h[k].1)
        } else {
            None
        }),
    decreases h.len(),
{
    if k > 0 {
        assert(text::lower_text(h[0].0) != text::lower_text(name));
        let rest = h.drop_first();
        assert forall|i: int| 0 <= i < k - 1 implies text::lower_text((#[trigger] rest[i]).0)
            != text::lower_text(name) by {
            assert(rest[i] == h[i + 1]);
        }
        law_header(rest, name, k - 1);
    }
}

/// The body starts behind the first empty line, and nowhere before one came.
pub proof fn law_body_start(head: Seq<u8>, body: Seq<u8>, part: Seq<u8>)
    requires
        !text::occurs(head + seq![13u8, 10u8, 13u8], seq![13u8, 10u8, 13u8, 10u8]),
        !text::occurs(part, seq![13u8, 10u8, 13u8, 10u8]),
    ensures
        body_start(head + seq![13u8, 10u8, 13u8, 10u8] + body) == Some(head.len() as int + 4),
        body_start(part) is None,
{
    let p = seq![13u8, 10u8, 13u8, 10u8];
    assert(p.drop_last() =~= seq![13u8, 10u8, 13u8]);
    text::law_find_behind(head, p, body);
}

/// A header line: a name and a value with a colon between them, and white space wherever it
/// does not matter.
pub open spec fn header_line(
    a: Seq<char>,
    name: Seq<char>,
    b: Seq<char>,
    c: Seq<char>,
    value: Seq<char>,
    d: Seq<char>,
) -> Seq<char> {
    (a + name + b) + seq![':'] + (c + value + d)
}

proof fn lemma_header_line(
    a: Seq<char>,
    name: Seq<char>,
    b: Seq<char>,
    c: Seq<char>,
    value: Seq<char>,
    d: Seq<char>,
)
    requires
        text::all_space(a) && text::all_space(b) && text::all_space(c) && text::all_space(d),
        text::is_trimmed(name) && text::is_trimmed(value),
        !name.contains(':'),
    ensures
        ({
            let line = header_line(a, name, b, c, value, d);
            let k = text::index_of(line, ':');
            &&& k < line.len()
            &&& text::trim(line.take(k)) == name
            &&& text::trim(line.skip(k + 1)) == value
        }),
{
    let left = a + name + b;
    let line = header_line(a, name, b, c, value, d);
    let n = left.len() as int;
    assert forall|j: int| 0 <= j < n implies #[trigger] line[j] != ':' by {
        assert(line[j] == left[j]);
        if j < a.len() {
            assert(left[j] == a[j]);
        } else if j < a.len() + name.len() {
            assert(left[j] == name[j - a.len()]);
            assert(name.contains(name[j - a.len()]));
        } else {
            assert(left[j] == b[j - a.len() - name.len()]);
        }
    }
    assert(line[n] == ':');
    text::lemma_index_of_is(line, ':', n);
    assert(line.take(n) =~= left);
    assert(line.skip(n + 1) =~= c + value + d);
    text::law_trim(a, name, b);
    text::law_trim(c, value, d);
}

/// A header line gives its name and its value; white space around them does not matter. A line
/// without a colon gives none.
pub proof fn law_header_line(
    a: Seq<char>,
    name: Seq<char>,
    b: Seq<char>,
    c: Seq<char>,
    value: Seq<char>,
    d: Seq<char>,
    other: Seq<char>,
)
    requires
        text::all_space(a) && text::all_space(b) && text::all_space(c) && text::all_space(d),
        text::is_trimmed(name) && text::is_trimmed(value),
        !name.contains(':'),
        !other.contains(':'),
    ensures
        header_pair(header_line(a, name, b, c, value, d)) == Some((name, value)),
        header_pair(other) is None,
{
    lemma_header_line(a, name, b, c, value, d);
    text::lemma_trim_end_char_is(value, '\r', value.len() as int);
    assert(value.take(value.len() as int) =~= value);
    assert forall|j: int| 0 <= j < other.len() implies #[trigger] other[j] != ':' by {
        assert(other.contains(other[j]));
    }
    text::lemma_index_of_is(other, ':', other.len() as int);
}

/// The headers of a head are those of its lines but the first, in order.
pub proof fn law_headers(first: Seq<char>, rest: Seq<char>, ls: Seq<Seq<char>>, line: Seq<char>)
    requires
        forall|i: int| 0 <= i < first.len() ==> #[trigger] first[i] != '\n',
    ensures
        head_headers(first + seq!['\r', '\n'] + rest) == header_pairs(text::lines(rest)),
        status_line(first + seq!['\r', '\n'] + rest) == first,
        header_pairs(Seq::<Seq<char>>::empty()).len() == 0,
        header_pairs(ls.push(line)) == (match header_pair(line) {
            Some(p) => header_pairs(ls).push(p),
            None => header_pairs(ls),
        }),
{
    let head = first + seq!['\r', '\n'] + rest;
    text::law_lines(first, rest);
    assert(text::lines(head).skip(1) =~= text::lines(rest));
    assert(ls.push(line).drop_last() =~= ls);
}

/// The status is the number behind the first word of the first line.
pub proof fn law_status(word: Seq<char>, space: Seq<char>, code: nat, reason: Seq<char>, rest: Seq<char>)
    requires
        word.len() > 0,
        forall|i: int| 0 <= i < word.len() ==> !text::is_space(#[trigger] word[i]),
        space.len() > 0 && text::all_space(space),
        code <= 65535,
        reason.len() > 0 ==> text::is_space(reason[0]),
        forall|i: int| 0 <= i < space.len() ==> #[trigger] space[i] != '\n',
        forall|i: int| 0 <= i < reason.len() ==> #[trigger] reason[i] != '\n',
    ensures
        status_code(word + space + digits::decimal(code) + reason + seq!['\r', '\n'] + rest) == Some(
            code as int,
        ),
{
    let d = digits::decimal(code);
    let line = word + space + d + reason;
    let after = space + d + reason;
    let number = d + reason;
    digits::lemma_decimal(code);
    digits::law_decimal_reads_back(code, 65535);
    assert forall|i: int| 0 <= i < line.len() implies #[trigger] line[i] != '\n' by {
        if i < word.len() {
            assert(line[i] == word[i]);
        } else if i < word.len() + space.len() {
            assert(line[i] == space[i - word.len()]);
        } else if i < word.len() + space.len() + d.len() {
            assert(line[i] == d[i - word.len() - space.len()]);
            assert(digits::is_digit(d[i - word.len() - space.len()]));
        } else {
            assert(line[i] == reason[i - word.len() - space.len() - d.len()]);
        }
    }
    law_headers(line, rest, seq![], seq![]);
    assert(line =~= word + after);
    assert(line[0] == word[0]);
    text::lemma_word(word, after);
    assert(line.skip(word.len() as int) =~= after);
    assert(after =~= space + number);
    assert(number[0] == d[0]);
    assert(digits::is_digit(d[0]));
    lemma_skip_space(space, number);
    assert forall|i: int| 0 <= i < d.len() implies !text::is_space(#[trigger] d[i]) by {
        assert(digits::is_digit(d[i]));
    }
    text::lemma_word(d, reason);
    assert(number.take(d.len() as int) =~= d);
}

proof fn lemma_skip_space(space: Seq<char>, rest: Seq<char>)
    requires
        text::all_space(space),
        rest.len() > 0 && !text::is_space(rest[0]),
    ensures
        text::trim_start(space + rest) == rest,
    decreases space.len(),
{
    let s = space + rest;
    if space.len() > 0 {
        assert(s[0] == space[0]);
        assert(s.drop_first() =~= space.drop_first() + rest);
        assert(text::all_space(space.drop_first())) by {
            assert forall|i: int| 0 <= i < space.drop_first().len() implies text::is_space(
                #[trigger] space.drop_first()[i],
            ) by {
                assert(space.drop_first()[i] == space[i + 1]);
            }
        }
        lemma_skip_space(space.drop_first(), rest);
    } else {
        assert(s =~= rest);
    }
}

/// The length of the body is what the first line of the right name with a number announces,
/// whatever the case of the name; lines of other names and lines without a number announce
/// none.
pub proof fn law_announced_length(
    ls: Seq<Seq<char>>,
    k: int,
    a: Seq<char>,
    name: Seq<char>,
    b: Seq<char>,
    c: Seq<char>,
    value: Seq<char>,
    d: Seq<char>,
)
    requires
        text::all_space(a) && text::all_space(b) && text::all_space(c) && text::all_space(d),
        text::is_trimmed(name) && text::is_trimmed(value),
        !name.contains(':'),
        0 <= k < ls.len(),
        ls[k] == header_line(a, name, b, c, value, d),
        forall|i: int| 0 <= i < k ==> line_length(#[trigger] ls[i]) is None,
    ensures
        ({
            let right = text::lower_text(name) == text::lower_text("Content-Length"@);
            let n = digits::read_uint(value, usize::MAX as int);
            &&& line_length(ls[k]) == (if right {
                n
            } else {
                None
            })
            &&& right && n is Some ==> announced_length(ls) == n
            &&& announced_length(ls.take(k)) is None
        }),
    decreases ls.len(),
{
    lemma_header_line(a, name, b, c, value, d);
    reveal_strlit("Content-Length");
    reveal_strlit("content-length");
    assert(text::lower_text("Content-Length"@) =~= text::lower_text("content-length"@));
    lemma_announced(ls, k);
    lemma_announced(ls.take(k), k);
}

proof fn lemma_announced(ls: Seq<Seq<char>>, k: int)
    requires
        0 <= k <= ls.len(),
        forall|i: int| 0 <= i < k ==> line_length(#[trigger] ls[i]) is None,
    ensures
        k < ls.len() && line_length(ls[k]) is Some ==> announced_length(ls) == line_length(ls[k]),
        k == ls.len() ==> announced_length(ls) is None,
    decreases ls.len(),
{
    if k > 0 {
        assert(line_length(ls[0]) is None);
        let rest = ls.drop_first();
        assert forall|i: int| 0 <= i < k - 1 implies line_length(#[trigger] rest[i]) is None by {
            assert(rest[i] == ls[i + 1]);
        }
        lemma_announced(rest, k - 1);
    }
}

/// When reading ends of itself: with the whole body where its length is announced, but with
/// 64 KiB of it in any case; and with 32 KiB without an end of the head.
pub proof fn law_enough(buf: Seq<u8>)
    ensures
        body_start(buf) is None ==> (enough(buf) <==> buf.len() >= 32 * 1024),
        body_start(buf) matches Some(p) ==> match announced_length(
            text::lines(utf8_lossy(buf.take(p))),
        ) {
            Some(n) => enough(buf) <==> buf.len() - p >= n || buf.len() - p >= 64 * 1024,
            None => enough(buf) <==> buf.len() - p >= 64 * 1024,
        },
{
}

/// The body that is kept is the start of what came behind the head: all of it, up to 64 KiB.
pub proof fn law_kept_body(buf: Seq<u8>, p: int)
    requires
        0 <= p <= buf.len(),
    ensures
        kept_body(buf, p).len() == (if buf.len() - p <= 64 * 1024 {
            buf.len() - p
        } else {
            65536int
        }),
        forall|i: int| 0 <= i < kept_body(buf, p).len() ==> #[trigger] kept_body(buf, p)[i] == buf[p
            + i],
{
}

/// How reading goes on. Bytes are added to what came, and nothing else changes it. The end of
/// the stream always ends the response. Silence ends one whose head is complete, however much
/// of the body is missing, and is a failure before that. A failure stays one, and its cause
/// is told.
pub proof fn law_reading<'a>(before: Seq<u8>, chunk: &'a [u8], cause: &'a str)
    ensures
        received_after(before, ReadEvent::Data(chunk)) == before + chunk@,
        received_after(before, ReadEvent::TimedOut(cause)) == before,
        received_after(before, ReadEvent::Failed(cause)) == before,
        chunk@.len() == 0 ==> next_step(before, ReadEvent::Data(chunk)) is Finished,
        chunk@.len() > 0 ==> (next_step(before, ReadEvent::Data(chunk)) is Finished <==> enough(
            before + chunk@,
        )),
        !(next_step(before, ReadEvent::Data(chunk)) is Failed),
        text::occurs(before, seq![13u8, 10u8, 13u8, 10u8]) ==> next_step(
            before,
            ReadEvent::TimedOut(cause),
        ) is Finished,
        !text::occurs(before, seq![13u8, 10u8, 13u8, 10u8]) ==> next_step(
            before,
            ReadEvent::TimedOut(cause),
        ) == next_step(before, ReadEvent::Failed(cause)),
        next_step(before, ReadEvent::Failed(cause)) matches StepView::Failed(m) && m
            == "读取响应失败: "@ + cause@,
{
}

/// A response whose head and body are UTF-8 says what they say: the status in the first line,
/// the headers in the lines after it, and the body in full, where it is not longer than what
/// is kept. Without an empty line, or without a status, there is no response.
pub proof fn law_response(
    head: Seq<char>,
    head_bytes: Seq<u8>,
    body_bytes: Seq<u8>,
    part: Seq<u8>,
)
    requires
        !text::occurs(head_bytes + seq![13u8, 10u8, 13u8], seq![13u8, 10u8, 13u8, 10u8]),
        !text::occurs(part, seq![13u8, 10u8, 13u8, 10u8]),
        utf8_lossy(head_bytes + seq![13u8, 10u8, 13u8, 10u8]) == head,
        body_bytes.len() <= 64 * 1024,
    ensures
        ({
            let r = response_of(head_bytes + seq![13u8, 10u8, 13u8, 10u8] + body_bytes);
            match status_code(head) {
                Some(code) => r matches Ok(resp) && resp.status == code && resp.headers
                    == head_headers(head) && resp.body == utf8_lossy(body_bytes),
                None => r is Err,
            }
        }),
        response_of(part) is Err,
{
    law_body_start(head_bytes, body_bytes, part);
    let buf = head_bytes + seq![13u8, 10u8, 13u8, 10u8] + body_bytes;
    let p = head_bytes.len() as int + 4;
    assert(buf.take(p) =~= head_bytes + seq![13u8, 10u8, 13u8, 10u8]);
    assert(kept_body(buf, p) =~= body_bytes);
}

/// An `http` address is fetched from the host and the port that it names, by its path, with or
/// without TLS; an `https` address is fetched exactly where there is TLS.
pub proof fn law_fetch(host: Seq<char>, port: int, path: Seq<char>, tls: bool)
    requires
        host.len() > 0,
        forall|i: int| 0 <= i < host.len() ==> #[trigger] host[i] != '/',
        1 <= port <= 65535,
        path.len() > 0 && path[0] == '/',
    ensures
        fetch_of("http://"@ + (host + ":"@ + digits::decimal(port as nat) + path), tls) == (
        FetchView::Plain {
            address: host + ":"@ + digits::decimal(port as nat),
            request: request_text(host, path),
        }),
        fetch_of("https://"@ + (host + ":"@ + digits::decimal(port as nat) + path), true)
            == FetchView::Tls,
        fetch_of("https://"@ + (host + ":"@ + digits::decimal(port as nat) + path), false)
            == FetchView::TlsNotBuilt,
{
    law_address_with_port(Scheme::Http, host, port, path);
    law_address_with_port(Scheme::Https, host, port, path);
}

/// A failure says which address was tried, first, and what was met there, last and in full.
pub proof fn law_failure_text(address: Seq<char>, cause: Seq<char>)
    ensures
        no_address_text(address).take(address.len() as int) == address,
        connect_text(address, Some(cause)) == address + ": "@ + cause,
        connect_text(address, None).take(address.len() as int) == address,
        connect_text(address, None) != connect_text(address, Some(Seq::empty())),
        text::occurs(send_text(cause), cause),
        send_text(cause).skip(send_text(cause).len() - cause.len()) == cause,
{
    reveal_strlit("无可用地址");
    assert(no_address_text(address).take(address.len() as int) =~= address);
    assert(connect_text(address, None).take(address.len() as int) =~= address);
    assert(connect_text(address, None).len() > connect_text(address, Some(Seq::empty())).len());
    text::law_find("发送请求失败: "@, cause, seq![]);
    assert("发送请求失败: "@ + cause + seq![] =~= send_text(cause));
    assert(send_text(cause).skip(send_text(cause).len() - cause.len()) =~= cause);
}

}
