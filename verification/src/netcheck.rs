//! Is the network there, and is a captive portal in the way?

use vstd::prelude::*;
use crate::http;
use crate::text;

verus! {

/// What a check of the network found.
#[derive(Debug, PartialEq, Eq)]
pub enum NetStatus {
    /// The network is there.
    Connected,
    /// A portal is in the way. The address it redirects to is empty where it answers in
    /// place of the site instead; then it does not tell the session's address either.
    CaptivePortal { redirect: String },
    /// Names are not resolved yet: common right after a login, and no failure.
    DnsPending,
    /// There is no network.
    Disconnected { reason: String },
}

/// What a [`NetStatus`] says.
pub ghost enum NetView {
    Connected,
    CaptivePortal(Seq<char>),
    DnsPending,
    Disconnected(Seq<char>),
}

impl View for NetStatus {
    type V = NetView;

    open spec fn view(&self) -> NetView {
        match *self {
            NetStatus::Connected => NetView::Connected,
            NetStatus::CaptivePortal { redirect } => NetView::CaptivePortal(redirect@),
            NetStatus::DnsPending => NetView::DnsPending,
            NetStatus::Disconnected { reason } => NetView::Disconnected(reason@),
        }
    }
}

impl Clone for NetStatus {
    fn clone(&self) -> (r: Self)
        ensures
            r == *self,
    {
        match self {
            NetStatus::Connected => NetStatus::Connected,
            NetStatus::CaptivePortal { redirect } => NetStatus::CaptivePortal {
                redirect: redirect.clone(),
            },
            NetStatus::DnsPending => NetStatus::DnsPending,
            NetStatus::Disconnected { reason } => NetStatus::Disconnected {
                reason: reason.clone(),
            },
        }
    }
}

// ---------------------------------------------------------------------------
// The parameters of a redirect
// ---------------------------------------------------------------------------

/// The query of an address: what stands between the first question mark and the next, or
/// the end.
pub open spec fn query(url: Seq<char>) -> Seq<char> {
    let parts = text::split(url, '?');
    if parts.len() > 1 {
        parts[1]
    } else {
        Seq::empty()
    }
}

/// The value of `key` in the first of the parts that is `key=value`; the case of the ASCII
/// letters of a key does not matter.
pub open spec fn first_param(parts: Seq<Seq<char>>, key: Seq<char>) -> Option<Seq<char>>
    decreases parts.len(),
{
    if parts.len() == 0 {
        None
    } else {
        let eq = text::index_of(parts[0], '=');
        if eq < parts[0].len() && text::lower_text(parts[0].take(eq)) == text::lower_text(key) {
            Some(parts[0].skip(eq + 1))
        } else {
            first_param(parts.drop_first(), key)
        }
    }
}

/// The value of a parameter of an address; empty where it has no such parameter.
pub open spec fn param(url: Seq<char>, key: Seq<char>) -> Seq<char> {
    match first_param(text::split(query(url), '&'), key) {
        Some(v) => v,
        None => Seq::empty(),
    }
}

fn param_of(url: &[char], key: &str) -> (r: String)
    ensures
        r@ == param(url@, key@),
{
    let k = text::chars_of(key);
    let parts = text::split_on(url, '?');
    assert(text::texts(parts@).len() == parts@.len());
    let empty: Vec<char> = Vec::new();
    let q: &[char] = if parts.len() > 1 {
        assert(text::texts(parts@)[1] == parts@[1]@);
        parts[1]
    } else {
        empty.as_slice()
    };
    assert(q@ =~= query(url@));
    let items = text::split_on(q, '&');
    let ghost all = text::texts(items@);
    let mut i: usize = 0;
    assert(all.skip(0) =~= all);
    while i < items.len()
        invariant
            i <= items@.len(),
            all == text::texts(items@),
            all == text::split(query(url@), '&'),
            k@ == key@,
            first_param(all, key@) == first_param(all.skip(i as int), key@),
        decreases items@.len() - i,
    {
        let item = items[i];
        assert(all.skip(i as int)[0] == item@);
        let eq = text::find_char(item, '=');
        if eq < item.len() && text::same_ignoring_case(text::head(item, eq), k.as_slice()) {
            return text::string_of(text::tail(item, eq + 1));
        }
        assert(all.skip(i as int).drop_first() =~= all.skip(i + 1));
        i += 1;
    }
    String::new()
}

/// What a portal's redirect says of the access controller and the session: `wlanacip`,
/// `wlanacname` and `wlanuserip`.
pub fn extract_ac_params(redirect: &str) -> (r: (String, String, String))
    ensures
        r.0@ == param(redirect@, "wlanacip"@),
        r.1@ == param(redirect@, "wlanacname"@),
        r.2@ == param(redirect@, "wlanuserip"@),
{
    let v = text::chars_of(redirect);
    (
        param_of(v.as_slice(), "wlanacip"),
        param_of(v.as_slice(), "wlanacname"),
        param_of(v.as_slice(), "wlanuserip"),
    )
}

proof fn lemma_split_at(a: Seq<char>, rest: Seq<char>, c: char)
    requires
        forall|i: int| 0 <= i < a.len() ==> #[trigger] a[i] != c,
        rest.len() == 0 || rest[0] == c,
    ensures
        text::split(a + rest, c)[0] == a,
        rest.len() > 0 ==> text::split(a + rest, c) == seq![a] + text::split(rest.skip(1), c),
{
    let s = a + rest;
    let n = a.len() as int;
    assert forall|i: int| 0 <= i < n implies #[trigger] s[i] != c by {
        assert(s[i] == a[i]);
    }
    text::lemma_index_of_is(s, c, n);
    assert(s.take(n) =~= a);
    if rest.len() > 0 {
        assert(s.skip(n + 1) =~= rest.skip(1));
    } else {
        assert(s =~= a);
    }
}

/// A parameter that a redirect tells first is read as it was written, whatever the case of its
/// name and whatever follows it in the query.
pub proof fn law_param_reads_back(
    page: Seq<char>,
    name: Seq<char>,
    key: Seq<char>,
    value: Seq<char>,
    rest: Seq<char>,
)
    requires
        forall|i: int| 0 <= i < page.len() ==> #[trigger] page[i] != '?',
        forall|i: int|
            0 <= i < name.len() ==> #[trigger] name[i] != '=' && name[i] != '&' && name[i] != '?',
        forall|i: int| 0 <= i < value.len() ==> #[trigger] value[i] != '&' && value[i] != '?',
        forall|i: int| 0 <= i < rest.len() ==> #[trigger] rest[i] != '?',
        rest.len() == 0 || rest[0] == '&',
        text::lower_text(name) == text::lower_text(key),
    ensures
        param(page + ("?"@ + (name + "="@ + value + rest)), key) == value,
{
    reveal_strlit("?");
    reveal_strlit("=");
    let item = name + "="@ + value;
    let q = item + rest;
    let n = name.len() as int;
    assert(name + "="@ + value + rest =~= q);
    assert forall|i: int| 0 <= i < item.len() implies #[trigger] item[i] != '&' && item[i] != '?' by {
        if i < n {
            assert(item[i] == name[i]);
        } else if i > n {
            assert(item[i] == value[i - n - 1]);
        }
    }
    assert forall|i: int| 0 <= i < q.len() implies #[trigger] q[i] != '?' by {
        if i < item.len() {
            assert(q[i] == item[i]);
        } else {
            assert(q[i] == rest[i - item.len()]);
        }
    }
    lemma_split_at(page, "?"@ + q, '?');
    assert(("?"@ + q).skip(1) =~= q);
    lemma_split_at(q, seq![], '?');
    assert(q + seq![] =~= q);
    assert(query(page + ("?"@ + q)) == q);
    lemma_split_at(item, rest, '&');
    assert forall|i: int| 0 <= i < n implies #[trigger] item[i] != '=' by {
        assert(item[i] == name[i]);
    }
    text::lemma_index_of_is(item, '=', n);
    assert(item.take(n) =~= name);
    assert(item.skip(n + 1) =~= value);
    assert(text::split(q, '&').len() > 0);
}

// ---------------------------------------------------------------------------
// Judging a response
// ---------------------------------------------------------------------------

/// Whether a body is that of a portal's login page.
pub open spec fn portal_page(body: Seq<char>) -> bool {
    ||| text::occurs(body, "wlanuserip="@)
    ||| text::occurs(body, "srun_portal"@)
    ||| text::occurs(body, "eportal"@)
    ||| text::occurs(body, "ac_id="@)
}

/// Whether `body` is that of a portal's login page: some portals answer with it in place of
/// the site and do not redirect.
pub fn looks_like_portal(body: &str) -> (r: bool)
    ensures
        r == portal_page(body@),
{
    let b = text::chars_of(body);
    text::find_lit(b.as_slice(), "wlanuserip=").is_some() || text::find_lit(
        b.as_slice(),
        "srun_portal",
    ).is_some() || text::find_lit(b.as_slice(), "eportal").is_some() || text::find_lit(
        b.as_slice(),
        "ac_id=",
    ).is_some()
}

/// What the outcome of fetching the check address says of the network. A name that is not
/// resolved is a case of its own: taken for a lost network, it would bring on another login
/// right after one.
pub open spec fn net_status(fetched: Result<http::Response, http::Error>) -> NetView {
    match fetched {
        Ok(resp) => {
            let location = http::header_value(http::pairs(resp.headers@), "location"@);
            if 300 <= resp.status < 400 && location is Some {
                NetView::CaptivePortal(location->0)
            } else if (resp.status == 200 || resp.status == 204) && portal_page(resp.body@) {
                NetView::CaptivePortal(""@)
            } else if resp.status == 0 {
                NetView::Disconnected("无有效 HTTP 响应"@)
            } else {
                NetView::Connected
            }
        },
        Err(http::Error::Dns(m)) => NetView::DnsPending,
        Err(e) => NetView::Disconnected(http::error_text(e)),
    }
}

/// What the outcome of fetching the check address says of the network.
pub fn check(fetched: &Result<http::Response, http::Error>) -> (r: NetStatus)
    ensures
        r@ == net_status(*fetched),
{
    match fetched {
        Ok(resp) => {
            if 300 <= resp.status && resp.status < 400 {
                if let Some(location) = resp.header("location") {
                    return NetStatus::CaptivePortal { redirect: location.to_owned() };
                }
            }
            if (resp.status == 200 || resp.status == 204) && looks_like_portal(resp.body.as_str()) {
                return NetStatus::CaptivePortal { redirect: "".to_owned() };
            }
            if resp.status == 0 {
                return NetStatus::Disconnected { reason: "无有效 HTTP 响应".to_owned() };
            }
            NetStatus::Connected
        },
        Err(e) => match e {
            http::Error::Dns(_) => NetStatus::DnsPending,
            _ => NetStatus::Disconnected { reason: e.message() },
        },
    }
}

/// Why an address cannot be fetched; `tls` says whether `https` can be.
pub open spec fn unsupported(url: Seq<char>, tls: bool) -> Option<Seq<char>> {
    match http::split_url(url) {
        None => Some("无法解析: "@ + url),
        Some((http::Scheme::Https, host, port, path)) => if tls {
            None
        } else {
            Some(url + " 是 https，但当前二进制未编译 TLS 支持"@)
        },
        Some((http::Scheme::Http, host, port, path)) => None,
    }
}

/// Whether `url` can be fetched, told before it is tried; `tls` says whether `https` can be.
pub fn check_url_supported(url: &str, tls: bool) -> (r: Result<(), String>)
    ensures
        match r {
            Ok(_) => unsupported(url@, tls) is None,
            Err(m) => unsupported(url@, tls) == Some(m@),
        },
{
    match http::parse_url(url) {
        None => Err("无法解析: ".to_owned().concat(url)),
        Some((scheme, _, _, _)) => if scheme == http::Scheme::Https && !tls {
            Err(url.to_owned().concat(" 是 https，但当前二进制未编译 TLS 支持"))
        } else {
            Ok(())
        },
    }
}

// ---------------------------------------------------------------------------
// What can be relied on
// ---------------------------------------------------------------------------

/// Whether a part of a query is `name=value` with that name, whatever the case of its letters.
pub open spec fn bears(item: Seq<char>, key: Seq<char>) -> bool {
    exists|name: Seq<char>, value: Seq<char>|
        item == #[trigger] named_value(name, value) && !name.contains('=') && text::lower_text(name)
            == text::lower_text(key)
}

/// A part of a query.
pub open spec fn named_value(name: Seq<char>, value: Seq<char>) -> Seq<char> {
    name + seq!['='] + value
}

proof fn lemma_item(item: Seq<char>, key: Seq<char>)
    ensures
        bears(item, key) <==> text::index_of(item, '=') < item.len() && text::lower_text(
            item.take(text::index_of(item, '=')),
        ) == text::lower_text(key),
        forall|name: Seq<char>, value: Seq<char>|
            item == #[trigger] named_value(name, value) && !name.contains('=') ==> text::index_of(
                item,
                '=',
            ) == name.len() && item.take(name.len() as int) == name && item.skip(name.len() as int + 1)
                == value,
{
    assert forall|name: Seq<char>, value: Seq<char>|
        item == #[trigger] named_value(name, value) && !name.contains('=') implies text::index_of(
        item,
        '=',
    ) == name.len() && item.take(name.len() as int) == name && item.skip(name.len() as int + 1)
        == value by {
        let n = name.len() as int;
        assert forall|j: int| 0 <= j < n implies #[trigger] item[j] != '=' by {
            assert(item[j] == name[j]);
            assert(name.contains(name[j]));
        }
        assert(item[n] == '=');
        text::lemma_index_of_is(item, '=', n);
        assert(item.take(n) =~= name);
        assert(item.skip(n + 1) =~= value);
    }
    text::lemma_index_of(item, '=');
    let k = text::index_of(item, '=');
    if k < item.len() && text::lower_text(item.take(k)) == text::lower_text(key) {
        let name = item.take(k);
        let value = item.skip(k + 1);
        assert(item =~= named_value(name, value));
        assert(!name.contains('='));
    }
}

proof fn lemma_first_param(items: Seq<Seq<char>>, key: Seq<char>, k: int)
    requires
        0 <= k <= items.len(),
        forall|i: int| 0 <= i < k ==> !bears(#[trigger] items[i], key),
        k < items.len() ==> bears(items[k], key),
    ensures
        first_param(items, key) == (if k < items.len() {
            Some(items[k].skip(text::index_of(items[k], '=') + 1))
        } else {
            None
        }),
    decreases items.len(),
{
    if items.len() > 0 {
        lemma_item(items[0], key);
        if k > 0 {
            assert(!bears(items[0], key));
            let rest = items.drop_first();
            assert forall|i: int| 0 <= i < k - 1 implies !bears(#[trigger] rest[i], key) by {
                assert(rest[i] == items[i + 1]);
            }
            lemma_first_param(rest, key, k - 1);
        }
    }
}

/// A redirect tells its parameters behind the question mark, with ampersands between them. The
/// value of a parameter is that of the first part that bears its name, wherever that stands;
/// one that no part bears is empty. What follows a second question mark does not count.
pub proof fn law_params(
    page: Seq<char>,
    extra: Seq<char>,
    items: Seq<Seq<char>>,
    k: int,
    name: Seq<char>,
    value: Seq<char>,
    key: Seq<char>,
)
    requires
        !page.contains('?'),
        items.len() > 0,
        forall|i: int, j: int|
            0 <= i < items.len() && 0 <= j < items[i].len() ==> #[trigger] items[i][j] != '&'
                && items[i][j] != '?',
        0 <= k <= items.len(),
        forall|i: int| 0 <= i < k ==> !bears(#[trigger] items[i], key),
        k < items.len() ==> items[k] == named_value(name, value) && !name.contains('=')
            && text::lower_text(name) == text::lower_text(key),
    ensures
        param(page + seq!['?'] + text::joined(items, '&'), key) == (if k < items.len() {
            value
        } else {
            Seq::empty()
        }),
        param(page + seq!['?'] + text::joined(items, '&') + seq!['?'] + extra, key) == (if k
            < items.len() {
            value
        } else {
            Seq::empty()
        }),
        param(page, key) == Seq::<char>::empty(),
{
    let q = text::joined(items, '&');
    let url = page + seq!['?'] + q;
    assert forall|j: int| 0 <= j < q.len() implies #[trigger] q[j] != '?' by {
        lemma_joined_lacks(items, '&', '?');
    }
    assert forall|j: int| 0 <= j < page.len() implies #[trigger] page[j] != '?' by {
        assert(page.contains(page[j]));
    }
    let parts = seq![page, q];
    assert(text::joined(parts.skip(1), '?') == q);
    assert(url =~= text::joined(parts, '?'));
    text::law_split_joined(parts, '?');
    assert(query(url) == q);
    lemma_second_mark(page, q, extra);
    text::law_split_joined(items, '&');
    if k < items.len() {
        lemma_item(items[k], key);
    }
    lemma_first_param(items, key, k);
    let alone = seq![page];
    assert(text::joined(alone, '?') == page);
    text::law_split_joined(alone, '?');
    let none = Seq::<char>::empty();
    text::law_split_joined(seq![none], '&');
    assert(text::joined(seq![none], '&') == none);
    lemma_item(none, key);
    lemma_first_param(seq![none], key, 1);
}

proof fn lemma_second_mark(page: Seq<char>, q: Seq<char>, extra: Seq<char>)
    requires
        forall|j: int| 0 <= j < page.len() ==> #[trigger] page[j] != '?',
        forall|j: int| 0 <= j < q.len() ==> #[trigger] q[j] != '?',
    ensures
        query(page + seq!['?'] + q + seq!['?'] + extra) == q,
{
    lemma_split_at(page, seq!['?'] + (q + (seq!['?'] + extra)), '?');
    lemma_split_at(q, seq!['?'] + extra, '?');
    let url = page + seq!['?'] + q + seq!['?'] + extra;
    assert(url =~= page + (seq!['?'] + (q + (seq!['?'] + extra))));
    assert((seq!['?'] + (q + (seq!['?'] + extra))).skip(1) =~= q + (seq!['?'] + extra));
    let rest = text::split(q + (seq!['?'] + extra), '?');
    text::law_split(q + (seq!['?'] + extra), '?');
    assert(text::split(url, '?') == seq![page] + rest);
    assert(text::split(url, '?')[1] == rest[0]);
}

proof fn lemma_joined_lacks(parts: Seq<Seq<char>>, c: char, lacking: char)
    requires
        c != lacking,
        forall|i: int, j: int|
            0 <= i < parts.len() && 0 <= j < parts[i].len() ==> #[trigger] parts[i][j] != lacking,
    ensures
        forall|j: int|
            0 <= j < text::joined(parts, c).len() ==> #[trigger] text::joined(parts, c)[j]
                != lacking,
    decreases parts.len(),
{
    let s = text::joined(parts, c);
    if parts.len() == 1 {
        assert forall|j: int| 0 <= j < s.len() implies #[trigger] s[j] != lacking by {
            assert(parts[0][j] != lacking);
        }
    } else if parts.len() > 1 {
        let rest = parts.skip(1);
        assert forall|i: int, j: int| 0 <= i < rest.len() && 0 <= j < rest[i].len() implies
            #[trigger] rest[i][j] != lacking by {
            assert(parts[i + 1][j] != lacking);
        }
        lemma_joined_lacks(rest, c, lacking);
        let n = parts[0].len() as int;
        assert forall|j: int| 0 <= j < s.len() implies #[trigger] s[j] != lacking by {
            if j < n {
                assert(s[j] == parts[0][j]);
            } else if j > n {
                assert(s[j] == text::joined(rest, c)[j - n - 1]);
            }
        }
    }
}

/// A redirect, with whatever status from 300 to 399, is that of a portal, and tells where it
/// leads; a redirect that leads nowhere is none.
pub proof fn law_redirect_is_a_portal(resp: http::Response)
    requires
        300 <= resp.status <= 399,
    ensures
        forall|location: Seq<char>|
            http::header_value(http::pairs(resp.headers@), "location"@) == Some(location)
                ==> #[trigger] net_status(Ok(resp)) == NetView::CaptivePortal(location),
        http::header_value(http::pairs(resp.headers@), "location"@) is None ==> net_status(Ok(resp))
            == NetView::Connected,
{
}

/// A page with a mark of a login page anywhere in it, in place of the site, is that of a
/// portal, which does not tell where it leads.
pub proof fn law_login_page_is_a_portal(
    resp: http::Response,
    before: Seq<char>,
    mark: Seq<char>,
    after: Seq<char>,
)
    requires
        resp.status == 200 || resp.status == 204,
        mark == "wlanuserip="@ || mark == "srun_portal"@ || mark == "eportal"@ || mark == "ac_id="@,
        resp.body@ == before + mark + after,
    ensures
        net_status(Ok(resp)) == NetView::CaptivePortal(""@),
{
    text::law_find(before, mark, after);
}

/// Every other answer means that the network is there: without any of the marks in it, or with
/// a status that is neither a redirect nor that of a page. Only a status of 0 is no answer.
pub proof fn law_connected(resp: http::Response)
    requires
        !(300 <= resp.status <= 399),
        resp.status == 200 || resp.status == 204 ==> forall|before: Seq<char>, after: Seq<char>|
            #![trigger before + "eportal"@ + after]
            #![trigger before + "wlanuserip="@ + after]
            #![trigger before + "srun_portal"@ + after]
            #![trigger before + "ac_id="@ + after]
            resp.body@ != before + "eportal"@ + after && resp.body@ != before + "wlanuserip="@
                + after && resp.body@ != before + "srun_portal"@ + after && resp.body@ != before
                + "ac_id="@ + after,
    ensures
        resp.status != 0 ==> net_status(Ok(resp)) == NetView::Connected,
        resp.status == 0 ==> net_status(Ok(resp)) is Disconnected,
{
    let b = resp.body@;
    text::law_found(b, "eportal"@);
    text::law_found(b, "wlanuserip="@);
    text::law_found(b, "srun_portal"@);
    text::law_found(b, "ac_id="@);
}

/// A name that is not resolved is no lost network; every other error is, and is told in words.
pub proof fn law_error_is_a_lost_network(m: String, e: http::Error)
    requires
        !(e is Dns),
    ensures
        net_status(Err(http::Error::Dns(m))) == NetView::DnsPending,
        net_status(Err(e)) == NetView::Disconnected(http::error_text(e)),
{
}

/// Exactly the addresses that can be taken apart can be fetched, of the `https` ones only with
/// TLS; what is said of any other names it.
pub proof fn law_supported(url: Seq<char>, tls: bool)
    ensures
        unsupported(url, tls) is None <==> (http::split_url(url) matches Some((scheme, _, _, _)) && (
        scheme is Http || tls)),
        unsupported(url, tls) matches Some(m) ==> text::occurs(m, url),
{
    if http::split_url(url) is None {
        text::law_find("无法解析: "@, url, seq![]);
        assert("无法解析: "@ + url + seq![] =~= "无法解析: "@ + url);
    } else {
        text::law_find(seq![], url, " 是 https，但当前二进制未编译 TLS 支持"@);
        assert(seq![] + url =~= url);
    }
}

}
