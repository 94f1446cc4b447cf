//! The login of an ePortal: a `GET` whose answer is JSONP.
//!
//! `result` 1 is success; `result` 0 with `ret_code` 2 says that the machine is online
//! already, which is as good; everything else is a failure.

use vstd::prelude::*;
use vstd::slice::slice_subrange;
use crate::config;
use crate::config::Config;
use crate::digits;
use crate::http;
use crate::ipdetect;
use crate::json;
use crate::text;

verus! {

/// How a login ended.
#[derive(Debug, PartialEq, Eq)]
pub enum AuthOutcome {
    Success,
    AlreadyOnline,
    Failed { msg: String },
    NetworkError { msg: String },
}

/// What an [`AuthOutcome`] says.
pub ghost enum AuthView {
    Success,
    AlreadyOnline,
    Failed(Seq<char>),
    NetworkError(Seq<char>),
}

impl View for AuthOutcome {
    type V = AuthView;

    open spec fn view(&self) -> AuthView {
        match *self {
            AuthOutcome::Success => AuthView::Success,
            AuthOutcome::AlreadyOnline => AuthView::AlreadyOnline,
            AuthOutcome::Failed { msg } => AuthView::Failed(msg@),
            AuthOutcome::NetworkError { msg } => AuthView::NetworkError(msg@),
        }
    }
}

impl Clone for AuthOutcome {
    fn clone(&self) -> (r: Self)
        ensures
            r == *self,
    {
        match self {
            AuthOutcome::Success => AuthOutcome::Success,
            AuthOutcome::AlreadyOnline => AuthOutcome::AlreadyOnline,
            AuthOutcome::Failed { msg } => AuthOutcome::Failed { msg: msg.clone() },
            AuthOutcome::NetworkError { msg } => AuthOutcome::NetworkError { msg: msg.clone() },
        }
    }
}

/// Whether the machine is online after a login that ended so.
pub open spec fn online(o: AuthView) -> bool {
    o is Success || o is AlreadyOnline
}

/// An outcome in words.
pub open spec fn outcome_text(o: AuthView) -> Seq<char> {
    match o {
        AuthView::Success => "成功"@,
        AuthView::AlreadyOnline => "已在线"@,
        AuthView::Failed(m) => "失败("@ + m + ")"@,
        AuthView::NetworkError(m) => "网络错误("@ + m + ")"@,
    }
}

impl AuthOutcome {
    /// Whether the machine is online now.
    pub fn is_ok(&self) -> (r: bool)
        ensures
            r == online(self@),
    {
        match self {
            AuthOutcome::Success => true,
            AuthOutcome::AlreadyOnline => true,
            AuthOutcome::Failed { .. } => false,
            AuthOutcome::NetworkError { .. } => false,
        }
    }

    /// The outcome in words.
    pub fn describe(&self) -> (r: String)
        ensures
            r@ == outcome_text(self@),
    {
        match self {
            AuthOutcome::Success => "成功".to_owned(),
            AuthOutcome::AlreadyOnline => "已在线".to_owned(),
            AuthOutcome::Failed { msg } => "失败(".to_owned().concat(msg.as_str()).concat(")"),
            AuthOutcome::NetworkError { msg } => "网络错误(".to_owned().concat(
                msg.as_str(),
            ).concat(")"),
        }
    }
}

// ---------------------------------------------------------------------------
// The address of a login
// ---------------------------------------------------------------------------

/// Whether a byte stands for itself in an encoded text: the unreserved characters of
/// RFC 3986.
pub open spec fn unreserved(b: u8) -> bool {
    ||| 65 <= b <= 90
    ||| 97 <= b <= 122
    ||| 48 <= b <= 57
    ||| b == 45
    ||| b == 95
    ||| b == 46
    ||| b == 126
}

/// A byte in an encoded text: itself, or a percent sign and its value.
pub open spec fn percent_byte(b: u8) -> Seq<char> {
    if unreserved(b) {
        seq![b as char]
    } else {
        "%"@ + digits::hex_byte(b)
    }
}

/// Bytes, percent-encoded.
pub open spec fn percent(b: Seq<u8>) -> Seq<char>
    decreases b.len(),
{
    if b.len() == 0 {
        seq![]
    } else {
        percent(b.drop_last()) + percent_byte(b.last())
    }
}

/// A text, percent-encoded by its UTF-8 bytes.
pub open spec fn encoded(s: Seq<char>) -> Seq<char> {
    percent(vstd::utf8::encode_utf8(s))
}

/// Percent-encodes `s`: everything but the unreserved characters is escaped.
pub fn urlencode(s: &str) -> (r: String)
    ensures
        r@ == encoded(s@),
{
    let b = s.as_bytes();
    let mut out = String::new();
    let mut i: usize = 0;
    assert(out@ =~= percent(b@.take(0)));
    while i < b.len()
        invariant
            i <= b@.len(),
            out@ == percent(b@.take(i as int)),
        decreases b@.len() - i,
    {
        let x: u8 = b[i];
        let ghost next = b@.take(i + 1);
        let ghost before = out@;
        assert(next.drop_last() =~= b@.take(i as int));
        assert(next.last() == x);
        if (65 <= x && x <= 90) || (97 <= x && x <= 122) || (48 <= x && x <= 57) || x == 45 || x
            == 95 || x == 46 || x == 126 {
            out.push(x as char);
            assert(out@ =~= before + seq![x as char]);
        } else {
            out.append("%");
            digits::push_hex_byte(&mut out, x);
            assert(out@ =~= before + ("%"@ + digits::hex_byte(x)));
        }
        i += 1;
    }
    assert(b@.take(b@.len() as int) =~= b@);
    out
}

/// The account of a login: the student number, and the operator unless it is the campus
/// network itself.
pub open spec fn account(c: config::Settings) -> Seq<char> {
    match c.operator {
        config::Operator::Campus => ",0,"@ + c.student_id,
        _ => ",0,"@ + c.student_id + "@"@ + config::operator_name(c.operator),
    }
}

/// The part of a login address before the password.
pub open spec fn before_password(c: config::Settings, callback: Seq<char>) -> Seq<char> {
    c.auth_url + "?callback="@ + encoded(callback) + "&login_method=1&user_account="@ + encoded(
        account(c),
    ) + "&user_password="@
}

/// The part of a login address after the password.
pub open spec fn after_password(ip: Seq<char>, ac_ip: Seq<char>, ac_name: Seq<char>) -> Seq<char> {
    "&wlan_user_ip="@ + encoded(ip) + "&wlan_user_ipv6=&wlan_user_mac=000000000000&wlan_ac_ip="@
        + encoded(ac_ip) + "&wlan_ac_name="@ + encoded(ac_name)
        + "&jsVersion=4.1.3&terminal_type=1&lang=zh-cn&v=3015&lang=zh"@
}

/// The address of a login from `ip`.
pub open spec fn login_url(
    c: config::Settings,
    ip: Seq<char>,
    callback: Seq<char>,
    ac_ip: Seq<char>,
    ac_name: Seq<char>,
) -> Seq<char> {
    before_password(c, callback) + encoded(c.password) + after_password(ip, ac_ip, ac_name)
}

/// The address of a login from `ip`; what a redirect did not tell of the access controller is
/// left empty.
pub open spec fn login_url_with(
    c: config::Settings,
    ip: Seq<char>,
    callback: Seq<char>,
    ac: Option<(Seq<char>, Seq<char>)>,
) -> Seq<char> {
    match ac {
        Some((ac_ip, ac_name)) => login_url(c, ip, callback, ac_ip, ac_name),
        None => login_url(c, ip, callback, ""@, ""@),
    }
}

fn account_of(cfg: &Config) -> (r: String)
    ensures
        r@ == account(cfg@),
{
    let mut out = ",0,".to_owned().concat(cfg.student_id.as_str());
    if cfg.operator != config::Operator::Campus {
        out.append("@");
        out.append(cfg.operator.as_str());
    }
    out
}

/// The address of a login from `ip`. `ac` is the address and the name of the access
/// controller, as far as a redirect told them.
pub fn build_login_url(cfg: &Config, ip: &str, callback: &str, ac: Option<(&str, &str)>) -> (r:
    String)
    ensures
        r@ == login_url_with(
            cfg@,
            ip@,
            callback@,
            match ac {
                Some((a, n)) => Some((a@, n@)),
                None => None,
            },
        ),
{
    let (ac_ip, ac_name): (&str, &str) = match ac {
        Some((a, n)) => (a, n),
        None => ("", ""),
    };
    let mut end = "&wlan_user_ip=".to_owned();
    end.append(urlencode(ip).as_str());
    end.append("&wlan_user_ipv6=&wlan_user_mac=000000000000&wlan_ac_ip=");
    end.append(urlencode(ac_ip).as_str());
    end.append("&wlan_ac_name=");
    end.append(urlencode(ac_name).as_str());
    end.append("&jsVersion=4.1.3&terminal_type=1&lang=zh-cn&v=3015&lang=zh");
    let mut out = cfg.auth_url.as_str().to_owned();
    out.append("?callback=");
    out.append(urlencode(callback).as_str());
    out.append("&login_method=1&user_account=");
    out.append(urlencode(account_of(cfg).as_str()).as_str());
    out.append("&user_password=");
    out.append(urlencode(cfg.password.as_str()).as_str());
    out.append(end.as_str());
    out
}

/// An address with the value of `user_password` blotted out.
pub open spec fn redacted(url: Seq<char>) -> Seq<char> {
    if text::occurs(url, "user_password="@) {
        let start = text::find(url, "user_password="@) + "user_password="@.len();
        let rest = url.skip(start);
        url.take(start) + "***"@ + rest.skip(text::index_of(rest, '&'))
    } else {
        url
    }
}

/// `url` with the value of `user_password` blotted out, for the log: that goes to the system
/// log and from there into bug reports.
pub fn redact_password(url: &str) -> (r: String)
    ensures
        r@ == redacted(url@),
{
    let u = text::chars_of(url);
    let key = text::chars_of("user_password=");
    match text::find_text(u.as_slice(), key.as_slice()) {
        None => url.to_owned(),
        Some(k) => {
            assert(k + key@.len() <= u.len());
            let start = k + key.len();
            let rest = text::tail(u.as_slice(), start);
            let mut out = text::string_of(text::head(u.as_slice(), start));
            out.append("***");
            text::push_chars(&mut out, text::tail(rest, text::find_char(rest, '&')));
            out
        },
    }
}

/// Whether a character can stand in an encoded text.
pub open spec fn url_safe(c: char) -> bool {
    ||| c == '%'
    ||| 'A' <= c <= 'Z'
    ||| 'a' <= c <= 'z'
    ||| '0' <= c <= '9'
    ||| c == '-'
    ||| c == '_'
    ||| c == '.'
    ||| c == '~'
}

proof fn lemma_percent_byte(b: u8)
    ensures
        forall|i: int| 0 <= i < percent_byte(b).len() ==> url_safe(#[trigger] percent_byte(b)[i]),
        unreserved(b) ==> percent_byte(b).len() == 1 && percent_byte(b)[0] == b as char && b as char
            != '%',
        !unreserved(b) ==> percent_byte(b).len() == 3 && percent_byte(b)[0] == '%'
            && percent_byte(b)[1] == digits::hex_digit(b as int / 16) && percent_byte(b)[2]
            == digits::hex_digit(b as int % 16) && percent_byte(b)[1] != '%' && percent_byte(b)[2]
            != '%',
{
    reveal_strlit("%");
}

proof fn lemma_percent_is_safe(b: Seq<u8>)
    ensures
        forall|i: int| 0 <= i < percent(b).len() ==> url_safe(#[trigger] percent(b)[i]),
    decreases b.len(),
{
    if b.len() > 0 {
        let head = percent(b.drop_last());
        let last = percent_byte(b.last());
        lemma_percent_is_safe(b.drop_last());
        lemma_percent_byte(b.last());
        assert forall|i: int| 0 <= i < percent(b).len() implies url_safe(
            #[trigger] percent(b)[i],
        ) by {
            if i < head.len() {
                assert(percent(b)[i] == head[i]);
            } else {
                assert(percent(b)[i] == last[i - head.len()]);
            }
        }
    }
}

/// An encoded text holds nothing but unreserved characters and percent signs; so it ends no
/// parameter and starts none.
pub proof fn law_encoded_is_safe(s: Seq<char>)
    ensures
        forall|i: int| 0 <= i < encoded(s).len() ==> url_safe(#[trigger] encoded(s)[i]),
{
    lemma_percent_is_safe(vstd::utf8::encode_utf8(s));
}

/// Neither the last nor the second last character of encoded bytes is a percent sign.
proof fn lemma_percent_end(b: Seq<u8>)
    ensures
        percent(b).len() >= 1 ==> percent(b).last() != '%',
        percent(b).len() >= 2 ==> percent(b)[percent(b).len() - 2] != '%',
    decreases b.len(),
{
    if b.len() > 0 {
        lemma_percent_end(b.drop_last());
        lemma_percent_byte(b.last());
    }
}

proof fn lemma_hex_digit_injective(a: int, b: int)
    requires
        0 <= a < 16,
        0 <= b < 16,
        digits::hex_digit(a) == digits::hex_digit(b),
    ensures
        a == b,
{
}

proof fn lemma_percent_injective(a: Seq<u8>, b: Seq<u8>)
    requires
        percent(a) == percent(b),
    ensures
        a == b,
    decreases a.len(),
{
    if a.len() == 0 || b.len() == 0 {
        if a.len() > 0 {
            lemma_percent_byte(a.last());
            assert(percent(a).len() >= percent_byte(a.last()).len());
            assert(percent(b).len() == 0);
        }
        if b.len() > 0 {
            lemma_percent_byte(b.last());
            assert(percent(b).len() >= percent_byte(b.last()).len());
            assert(percent(a).len() == 0);
        }
        assert(a =~= b);
    } else {
        let p = percent(a);
        let n = p.len() as int;
        let x = percent(a.drop_last());
        let y = percent(b.drop_last());
        lemma_percent_byte(a.last());
        lemma_percent_byte(b.last());
        lemma_percent_end(a.drop_last());
        lemma_percent_end(b.drop_last());
        assert(p.subrange(0, x.len() as int) =~= x);
        assert(p.subrange(0, y.len() as int) =~= y);
        assert(p.last() == percent_byte(a.last()).last());
        assert(p.last() == percent_byte(b.last()).last());
        if unreserved(a.last()) && !unreserved(b.last()) {
            assert(p[n - 3] == '%');
            assert(x[x.len() - 2] == '%');
        }
        if !unreserved(a.last()) && unreserved(b.last()) {
            assert(p[n - 3] == '%');
            assert(y[y.len() - 2] == '%');
        }
        if !unreserved(a.last()) && !unreserved(b.last()) {
            assert(p[n - 2] == percent_byte(a.last())[1]);
            assert(p[n - 2] == percent_byte(b.last())[1]);
            lemma_hex_digit_injective(a.last() as int / 16, b.last() as int / 16);
            lemma_hex_digit_injective(a.last() as int % 16, b.last() as int % 16);
        }
        assert(a.last() == b.last());
        lemma_percent_injective(a.drop_last(), b.drop_last());
        assert(a =~= a.drop_last().push(a.last()));
        assert(b =~= b.drop_last().push(b.last()));
    }
}

/// Nothing is lost by encoding: different texts are encoded differently.
pub proof fn law_encoded_is_injective(s: Seq<char>, t: Seq<char>)
    requires
        encoded(s) == encoded(t),
    ensures
        s == t,
{
    lemma_percent_injective(vstd::utf8::encode_utf8(s), vstd::utf8::encode_utf8(t));
    vstd::utf8::encode_utf8_decode_utf8(s);
    vstd::utf8::encode_utf8_decode_utf8(t);
}

/// The part of a login address behind the address of the portal.
pub open spec fn login_query(
    c: config::Settings,
    ip: Seq<char>,
    callback: Seq<char>,
    ac_ip: Seq<char>,
    ac_name: Seq<char>,
) -> Seq<char> {
    login_url(c, ip, callback, ac_ip, ac_name).skip(c.auth_url.len() as int)
}

/// Whether a character can stand in the query of a login: in an encoded text, or between two.
pub open spec fn query_char(c: char) -> bool {
    url_safe(c) || c == '?' || c == '&' || c == '='
}

/// How often a text holds the three characters that structure a query.
spec fn separators(s: Seq<char>) -> (int, int, int) {
    (text::count(s, '?'), text::count(s, '&'), text::count(s, '='))
}

spec fn plus(a: (int, int, int), b: (int, int, int)) -> (int, int, int) {
    (a.0 + b.0, a.1 + b.1, a.2 + b.2)
}

proof fn lemma_separators_add(a: Seq<char>, b: Seq<char>)
    ensures
        separators(a + b) == plus(separators(a), separators(b)),
{
    text::lemma_count_concat(a, b, '?');
    text::lemma_count_concat(a, b, '&');
    text::lemma_count_concat(a, b, '=');
}

/// An encoded text goes into a query without adding to its structure.
proof fn lemma_encoded_part(s: Seq<char>)
    ensures
        separators(encoded(s)) == (0int, 0int, 0int),
        all_query_chars(encoded(s)),
{
    law_encoded_is_safe(s);
    text::lemma_count_none(encoded(s), '?');
    text::lemma_count_none(encoded(s), '&');
    text::lemma_count_none(encoded(s), '=');
}

spec fn all_query_chars(s: Seq<char>) -> bool {
    forall|i: int| 0 <= i < s.len() ==> query_char(#[trigger] s[i])
}

proof fn lemma_query_chars_add(a: Seq<char>, b: Seq<char>)
    requires
        all_query_chars(a),
        all_query_chars(b),
    ensures
        all_query_chars(a + b),
{
    assert forall|i: int| 0 <= i < (a + b).len() implies query_char(#[trigger] (a + b)[i]) by {
        if i < a.len() {
            assert((a + b)[i] == a[i]);
        } else {
            assert((a + b)[i] == b[i - a.len()]);
        }
    }
}

/// A query grows by a fixed text and an encoded one.
proof fn lemma_query_grows(q: Seq<char>, fixed: Seq<char>, s: Seq<char>)
    requires
        all_query_chars(q),
        all_query_chars(fixed),
    ensures
        all_query_chars(q + fixed + encoded(s)),
        separators(q + fixed + encoded(s)) == plus(separators(q), separators(fixed)),
{
    lemma_encoded_part(s);
    lemma_separators_add(q, fixed);
    lemma_separators_add(q + fixed, encoded(s));
    lemma_query_chars_add(q, fixed);
    lemma_query_chars_add(q + fixed, encoded(s));
}

proof fn lemma_fixed_callback()
    ensures
        separators("?callback="@) == (1int, 0int, 1int),
        all_query_chars("?callback="@),
{
    reveal_with_fuel(text::count_in, 12);
    reveal_strlit("?callback=");
}

proof fn lemma_fixed_account()
    ensures
        separators("&login_method=1&user_account="@) == (0int, 2int, 2int),
        all_query_chars("&login_method=1&user_account="@),
{
    reveal_with_fuel(text::count_in, 31);
    reveal_strlit("&login_method=1&user_account=");
}

proof fn lemma_fixed_password()
    ensures
        separators("&user_password="@) == (0int, 1int, 1int),
        all_query_chars("&user_password="@),
{
    reveal_with_fuel(text::count_in, 17);
    reveal_strlit("&user_password=");
}

proof fn lemma_fixed_user_ip()
    ensures
        separators("&wlan_user_ip="@) == (0int, 1int, 1int),
        all_query_chars("&wlan_user_ip="@),
{
    reveal_with_fuel(text::count_in, 16);
    reveal_strlit("&wlan_user_ip=");
}

proof fn lemma_fixed_ac_ip()
    ensures
        separators("&wlan_user_ipv6=&wlan_user_mac=000000000000&wlan_ac_ip="@) == (0int, 3int, 3int),
        all_query_chars("&wlan_user_ipv6=&wlan_user_mac=000000000000&wlan_ac_ip="@),
{
    reveal_with_fuel(text::count_in, 57);
    reveal_strlit("&wlan_user_ipv6=&wlan_user_mac=000000000000&wlan_ac_ip=");
}

proof fn lemma_fixed_ac_name()
    ensures
        separators("&wlan_ac_name="@) == (0int, 1int, 1int),
        all_query_chars("&wlan_ac_name="@),
{
    reveal_with_fuel(text::count_in, 16);
    reveal_strlit("&wlan_ac_name=");
}

proof fn lemma_fixed_end()
    ensures
        separators("&jsVersion=4.1.3&terminal_type=1&lang=zh-cn&v=3015&lang=zh"@) == (0int, 5int, 5int),
        all_query_chars("&jsVersion=4.1.3&terminal_type=1&lang=zh-cn&v=3015&lang=zh"@),
{
    reveal_with_fuel(text::count_in, 60);
    reveal_strlit("&jsVersion=4.1.3&terminal_type=1&lang=zh-cn&v=3015&lang=zh");
}

/// A login address is the address of the portal, followed by exactly the fixed parameters: one
/// question mark, thirteen ampersands, fourteen equals signs, and else nothing but what an
/// encoded text holds. No value adds or changes a parameter, whatever it holds. What a
/// redirect did not tell of the access controller is empty, and on the campus network itself
/// the account has no operator.
pub proof fn law_login_parameters(
    c: config::Settings,
    ip: Seq<char>,
    callback: Seq<char>,
    ac_ip: Seq<char>,
    ac_name: Seq<char>,
)
    ensures
        login_url(c, ip, callback, ac_ip, ac_name) == c.auth_url + login_query(
            c,
            ip,
            callback,
            ac_ip,
            ac_name,
        ),
        text::count(login_query(c, ip, callback, ac_ip, ac_name), '?') == 1,
        text::count(login_query(c, ip, callback, ac_ip, ac_name), '&') == 13,
        text::count(login_query(c, ip, callback, ac_ip, ac_name), '=') == 14,
        forall|i: int|
            0 <= i < login_query(c, ip, callback, ac_ip, ac_name).len() ==> query_char(
                #[trigger] login_query(c, ip, callback, ac_ip, ac_name)[i],
            ),
        login_url_with(c, ip, callback, None) == login_url_with(
            c,
            ip,
            callback,
            Some((""@, ""@)),
        ),
        c.operator is Campus ==> account(c) == ",0,"@ + c.student_id,
{
    lemma_fixed_callback();
    lemma_fixed_account();
    lemma_fixed_password();
    lemma_fixed_user_ip();
    lemma_fixed_ac_ip();
    lemma_fixed_ac_name();
    lemma_fixed_end();
    let none = Seq::<char>::empty();
    let q1 = none + "?callback="@ + encoded(callback);
    let q2 = q1 + "&login_method=1&user_account="@ + encoded(account(c));
    let q3 = q2 + "&user_password="@ + encoded(c.password);
    let q4 = q3 + "&wlan_user_ip="@ + encoded(ip);
    let q5 = q4 + "&wlan_user_ipv6=&wlan_user_mac=000000000000&wlan_ac_ip="@ + encoded(ac_ip);
    let q6 = q5 + "&wlan_ac_name="@ + encoded(ac_name);
    let last = "&jsVersion=4.1.3&terminal_type=1&lang=zh-cn&v=3015&lang=zh"@;
    text::lemma_count_none(none, '?');
    text::lemma_count_none(none, '&');
    text::lemma_count_none(none, '=');
    lemma_query_grows(none, "?callback="@, callback);
    lemma_query_grows(q1, "&login_method=1&user_account="@, account(c));
    lemma_query_grows(q2, "&user_password="@, c.password);
    lemma_query_grows(q3, "&wlan_user_ip="@, ip);
    lemma_query_grows(
        q4,
        "&wlan_user_ipv6=&wlan_user_mac=000000000000&wlan_ac_ip="@,
        ac_ip,
    );
    lemma_query_grows(q5, "&wlan_ac_name="@, ac_name);
    lemma_separators_add(q6, last);
    lemma_query_chars_add(q6, last);
    let url = login_url(c, ip, callback, ac_ip, ac_name);
    assert(url =~= c.auth_url + (q6 + last));
    assert(login_query(c, ip, callback, ac_ip, ac_name) =~= q6 + last);
}

/// The key of the password comes up in a login address where it is meant to, and not before.
proof fn lemma_key_place(c: config::Settings, callback: Seq<char>, rest: Seq<char>)
    requires
        !text::occurs(c.auth_url, "user_password="@),
    ensures
        "user_password="@.len() <= before_password(c, callback).len(),
        text::first_at(
            before_password(c, callback) + rest,
            "user_password="@,
            before_password(c, callback).len() - "user_password="@.len(),
        ),
{
    let key = "user_password="@;
    let p1 = "?callback="@;
    let p2 = "&login_method=1&user_account="@;
    let p3 = "&user_password="@;
    reveal_strlit("user_password=");
    reveal_strlit("?callback=");
    reveal_strlit("&login_method=1&user_account=");
    reveal_strlit("&user_password=");
    law_encoded_is_safe(callback);
    law_encoded_is_safe(account(c));
    let b = before_password(c, callback);
    let s = b + rest;
    let a = c.auth_url.len() as int;
    let cb = encoded(callback);
    let acc = encoded(account(c));
    let o2 = a + p1.len() + cb.len();
    let o3 = o2 + p2.len() + acc.len();
    let k = b.len() - key.len();
    assert(b.len() == o3 + p3.len());
    assert(s.subrange(k, k + key.len()) =~= key);
    assert forall|j: int| 0 <= j < k implies !#[trigger] text::occurs_at(s, key, j) by {
        if text::occurs_at(s, key, j) {
            let w = s.subrange(j, j + key.len());
            let e = j + 13;
            assert(w[13] == '=' && w[12] == 'd' && w[11] == 'r');
            assert(s[e] == w[13] && s[e - 1] == w[12] && s[e - 2] == w[11]);
            if e < a {
                assert(c.auth_url.subrange(j, j + key.len()) =~= w);
                assert(text::occurs_at(c.auth_url, key, j));
            } else if e < a + p1.len() {
                assert(s[e] == p1[e - a]);
                if e > a {
                    assert(s[e - 1] == p1[e - a - 1]);
                }
            } else if e < o2 {
                assert(s[e] == cb[e - a - p1.len()]);
            } else if e < o2 + p2.len() {
                assert(s[e] == p2[e - o2]);
                if e - o2 >= 2 {
                    assert(s[e - 1] == p2[e - o2 - 1]);
                    assert(s[e - 2] == p2[e - o2 - 2]);
                }
            } else if e < o3 {
                assert(s[e] == acc[e - o2 - p2.len()]);
            } else {
                assert(s[e] == p3[e - o3]);
            }
        }
    }
}

/// Of a login address the log shows everything but the password, in whose place it shows
/// three asterisks: also where the password holds the characters that end a parameter. The
/// address of the portal must not have a password parameter of its own.
pub proof fn law_redacted_login(
    c: config::Settings,
    ip: Seq<char>,
    callback: Seq<char>,
    ac_ip: Seq<char>,
    ac_name: Seq<char>,
)
    requires
        !text::occurs(c.auth_url, "user_password="@),
    ensures
        redacted(login_url(c, ip, callback, ac_ip, ac_name)) == before_password(c, callback)
            + "***"@ + after_password(ip, ac_ip, ac_name),
{
    let url = login_url(c, ip, callback, ac_ip, ac_name);
    let b = before_password(c, callback);
    let pw = encoded(c.password);
    let end = after_password(ip, ac_ip, ac_name);
    lemma_key_place(c, callback, pw + end);
    assert(url =~= b + (pw + end));
    text::lemma_find_is(url, "user_password="@, b.len() - "user_password="@.len());
    law_encoded_is_safe(c.password);
    reveal_strlit("&wlan_user_ip=");
    assert(end[0] == '&');
    assert(url.skip(b.len() as int) =~= pw + end);
    text::lemma_index_of_is(pw + end, '&', pw.len() as int);
    assert((pw + end).skip(pw.len() as int) =~= end);
    assert(url.take(b.len() as int) =~= b);
}

// ---------------------------------------------------------------------------
// The answer
// ---------------------------------------------------------------------------

/// What stands between the first opening and the last closing parenthesis.
pub open spec fn jsonp_body(s: Seq<char>) -> Option<Seq<char>> {
    let open = text::index_of(s, '(');
    let close = text::after_last(s, ')') - 1;
    if open < close {
        Some(s.subrange(open + 1, close))
    } else {
        None
    }
}

/// What an answer says: `result`, `ret_code` where it is an integer, and `msg`, empty where
/// it is no text. There is nothing to it without an integer `result`.
pub open spec fn reply_of(j: json::Json) -> Option<(int, Option<int>, Seq<char>)> {
    let result = match json::member(j, "result"@) {
        Some(x) => json::integer(x, i64::MIN as int, i64::MAX as int),
        None => None,
    };
    let ret_code = match json::member(j, "ret_code"@) {
        Some(x) => json::integer(x, i64::MIN as int, i64::MAX as int),
        None => None,
    };
    let msg = match json::member(j, "msg"@) {
        Some(x) => json::string(x),
        None => None,
    };
    match result {
        Some(n) => Some(
            (
                n,
                ret_code,
                match msg {
                    Some(m) => m,
                    None => ""@,
                },
            ),
        ),
        None => None,
    }
}

/// What a JSONP answer says.
pub open spec fn jsonp_reply(s: Seq<char>) -> Option<(int, Option<int>, Seq<char>)> {
    match jsonp_body(s) {
        Some(b) => match json::json_parse(b) {
            Ok(j) => reply_of(j),
            Err(e) => None,
        },
        None => None,
    }
}

/// The outcome that an answer stands for.
pub open spec fn judged(reply: Option<(int, Option<int>, Seq<char>)>) -> AuthView {
    match reply {
        None => AuthView::Failed("响应非 JSONP"@),
        Some((result, ret_code, msg)) => if result == 1 {
            AuthView::Success
        } else if result == 0 && ret_code == Some(2int) {
            AuthView::AlreadyOnline
        } else if result == 0 {
            AuthView::Failed(msg)
        } else {
            AuthView::Failed("未知 result="@ + digits::signed_decimal(result))
        },
    }
}

/// What a reply says, as numbers and text without machine limits.
pub open spec fn reply_view(reply: Option<(i64, Option<i64>, String)>) -> Option<
    (int, Option<int>, Seq<char>),
> {
    match reply {
        Some((result, ret_code, msg)) => Some(
            (
                result as int,
                match ret_code {
                    Some(c) => Some(c as int),
                    None => None,
                },
                msg@,
            ),
        ),
        None => None,
    }
}

fn parse_jsonp(s: &str) -> (r: Option<(i64, Option<i64>, String)>)
    ensures
        reply_view(r) == jsonp_reply(s@),
{
    let v = text::chars_of(s);
    let open = text::find_char(v.as_slice(), '(');
    let close = text::find_after_last(v.as_slice(), ')');
    if close == 0 || open >= close - 1 {
        return None;
    }
    let body = text::string_of(slice_subrange(v.as_slice(), open + 1, close - 1));
    let value = match json::from_text(body.as_str()) {
        Ok(x) => x,
        Err(_) => {
            return None;
        },
    };
    let result = match json::get(&value, "result") {
        Some(x) => match x.as_i64() {
            Some(n) => n,
            None => {
                return None;
            },
        },
        None => {
            return None;
        },
    };
    let ret_code = match json::get(&value, "ret_code") {
        Some(x) => x.as_i64(),
        None => None,
    };
    let msg = match json::get(&value, "msg") {
        Some(x) => match x.as_str() {
            Some(m) => m.to_owned(),
            None => "".to_owned(),
        },
        None => "".to_owned(),
    };
    Some((result, ret_code, msg))
}

/// The outcome that a reply stands for; none stands for an answer that is no JSONP.
pub fn judge(reply: Option<(i64, Option<i64>, String)>) -> (r: AuthOutcome)
    ensures
        r@ == judged(reply_view(reply)),
{
    match reply {
        None => AuthOutcome::Failed { msg: "响应非 JSONP".to_owned() },
        Some((result, ret_code, msg)) => {
            if result == 1 {
                AuthOutcome::Success
            } else if result == 0 {
                match ret_code {
                    Some(2) => AuthOutcome::AlreadyOnline,
                    _ => AuthOutcome::Failed { msg },
                }
            } else {
                let mut m = "未知 result=".to_owned();
                digits::push_signed_decimal(&mut m, result);
                AuthOutcome::Failed { msg: m }
            }
        },
    }
}

/// The outcome that the answer `jsonp` stands for.
pub fn interpret(jsonp: &str) -> (r: AuthOutcome)
    ensures
        r@ == judged(jsonp_reply(jsonp@)),
{
    judge(parse_jsonp(jsonp))
}

// ---------------------------------------------------------------------------
// One attempt
// ---------------------------------------------------------------------------

/// The outcome that a reply stands for, with the status code of the answer. An answer that is
/// no JSONP and whose status is not in the 200s was most likely a gateway in the way, so it
/// counts as a failure of the network.
pub open spec fn judged_with_status(
    reply: Option<(int, Option<int>, Seq<char>)>,
    status: int,
) -> AuthView {
    if reply is None && !(200 <= status < 300) {
        AuthView::NetworkError("HTTP "@ + digits::decimal(status as nat) + " - 响应非 JSONP"@)
    } else {
        judged(reply)
    }
}

/// What is told of an error. An address that cannot be taken apart is that of the login, whose
/// query holds the account and the password; it is told without the query.
pub open spec fn told(e: http::Error) -> Seq<char> {
    match e {
        http::Error::BadUrl(u) => "非法地址: "@ + u@.take(text::index_of(u@, '?')),
        _ => http::error_text(e),
    }
}

/// The outcome of an attempt whose request ended so.
pub open spec fn attempt_view(fetched: Result<http::Response, http::Error>) -> AuthView {
    match fetched {
        Ok(resp) => judged_with_status(jsonp_reply(resp.body@), resp.status as int),
        Err(e) => AuthView::NetworkError(told(e)),
    }
}

/// The outcome that a reply stands for, with the status code of the answer.
pub fn judge_status(reply: Option<(i64, Option<i64>, String)>, status: u16) -> (r: AuthOutcome)
    ensures
        r@ == judged_with_status(reply_view(reply), status as int),
{
    if reply.is_none() && !(200 <= status && status < 300) {
        let mut m = "HTTP ".to_owned();
        digits::push_decimal(&mut m, status as u64);
        m.append(" - 响应非 JSONP");
        return AuthOutcome::NetworkError { msg: m };
    }
    judge(reply)
}

/// The outcome of an attempt whose request ended so.
pub fn attempt_outcome(fetched: &Result<http::Response, http::Error>) -> (r: AuthOutcome)
    ensures
        r@ == attempt_view(*fetched),
{
    match fetched {
        Ok(resp) => judge_status(parse_jsonp(resp.body.as_str()), resp.status),
        Err(http::Error::BadUrl(u)) => {
            let v = text::chars_of(u.as_str());
            let shown = text::string_of(
                text::head(v.as_slice(), text::find_char(v.as_slice(), '?')),
            );
            AuthOutcome::NetworkError { msg: http::Error::BadUrl(shown).message() }
        },
        Err(e) => AuthOutcome::NetworkError { msg: e.message() },
    }
}

/// At most the first `n` characters.
pub open spec fn clipped(s: Seq<char>, n: int) -> Seq<char> {
    if s.len() <= n {
        s
    } else {
        s.take(n)
    }
}

/// At most the first `n` characters of `s`, for the log.
pub fn truncate(s: &str, n: usize) -> (r: &str)
    ensures
        r@ == clipped(s@, n as int),
{
    if s.unicode_len() <= n {
        s
    } else {
        assert(s@.subrange(0, n as int) =~= s@.take(n as int));
        s.substring_char(0, n)
    }
}

// ---------------------------------------------------------------------------
// The addresses to log in with
// ---------------------------------------------------------------------------

/// The candidates with one more, unless it is blank or among them already.
pub open spec fn with_candidate(out: Seq<Seq<char>>, ip: Option<Seq<char>>) -> Seq<Seq<char>> {
    if ip is Some && !text::is_blank(ip->0) && !out.contains(text::trim(ip->0)) {
        out.push(text::trim(ip->0))
    } else {
        out
    }
}

/// The addresses to log in with, the best first: the configured one; the source address
/// towards the portal, which is what the portal sees; the address that the portal named,
/// which may be that of an old session; the fallback.
pub open spec fn candidates(
    fixed: Option<Seq<char>>,
    kernel: Option<Seq<char>>,
    portal: Option<Seq<char>>,
    local: Option<Seq<char>>,
) -> Seq<Seq<char>> {
    with_candidate(
        with_candidate(with_candidate(with_candidate(seq![], fixed), kernel), portal),
        local,
    )
}

/// The text of an optional string slice.
pub open spec fn opt_str(s: Option<&str>) -> Option<Seq<char>> {
    match s {
        Some(t) => Some(t@),
        None => None,
    }
}

fn push_unique(out: &mut Vec<String>, ip: &str)
    ensures
        config::string_texts(final(out)@) == with_candidate(
            config::string_texts(old(out)@),
            Some(ip@),
        ),
{
    let v = text::chars_of(ip);
    let t = text::trimmed(v.as_slice());
    let ghost before = config::string_texts(out@);
    if t.len() == 0 {
        return;
    }
    let mut i: usize = 0;
    while i < out.len()
        invariant
            i <= out@.len(),
            out@ == old(out)@,
            t@ == text::trim(ip@),
            t@.len() > 0,
            before == config::string_texts(out@),
            forall|j: int| 0 <= j < i ==> #[trigger] before[j] != t@,
        decreases out@.len() - i,
    {
        if text::is_text(t, out[i].as_str()) {
            assert(before[i as int] == t@);
            return;
        }
        i += 1;
    }
    assert(!before.contains(t@));
    let s = text::string_of(t);
    out.push(s);
    assert(config::string_texts(out@) =~= before.push(s@));
}

/// The addresses to log in with, the best first. `kernel` is the source address towards the
/// portal, `portal` the address that the portal named, and `local` the fallback.
pub fn candidate_ips(
    cfg: &Config,
    kernel: Option<&str>,
    portal: Option<&str>,
    local: Option<&str>,
) -> (r: Vec<String>)
    ensures
        config::string_texts(r@) == candidates(
            cfg@.fixed_ip,
            opt_str(kernel),
            opt_str(portal),
            opt_str(local),
        ),
{
    let mut out: Vec<String> = Vec::new();
    assert(config::string_texts(out@) =~= Seq::<Seq<char>>::empty());
    if let Some(ip) = &cfg.fixed_ip {
        push_unique(&mut out, ip.as_str());
    }
    if let Some(ip) = kernel {
        push_unique(&mut out, ip);
    }
    if let Some(ip) = portal {
        push_unique(&mut out, ip);
    }
    if let Some(ip) = local {
        push_unique(&mut out, ip);
    }
    out
}

/// Whether the portal names another address than the one that the kernel picks.
pub open spec fn differing(kernel: Option<Seq<char>>, portal: Option<Seq<char>>) -> bool {
    match (kernel, portal) {
        (Some(k), Some(p)) => !text::is_blank(p) && k != text::trim(p),
        _ => false,
    }
}

/// Whether the portal names another address than the one that the kernel picks: DHCP has
/// just changed it, or there are several ways out.
pub fn sources_differ(kernel: Option<&str>, portal: Option<&str>) -> (r: bool)
    ensures
        r == differing(opt_str(kernel), opt_str(portal)),
{
    match (kernel, portal) {
        (Some(k), Some(p)) => {
            let v = text::chars_of(p);
            let t = text::trimmed(v.as_slice());
            t.len() > 0 && !text::is_text(t, k)
        },
        _ => false,
    }
}

/// Host and port of the portal at an address.
pub open spec fn endpoint(auth_url: Seq<char>) -> Option<(Seq<char>, int)> {
    match http::split_url(auth_url) {
        Some((scheme, host, port, path)) => Some((host, port)),
        None => None,
    }
}

/// Host and port of the portal, towards which the source address is asked for.
pub fn portal_endpoint(cfg: &Config) -> (r: Option<(String, u16)>)
    ensures
        match r {
            Some((h, p)) => endpoint(cfg@.auth_url) == Some((h@, p as int)),
            None => endpoint(cfg@.auth_url) is None,
        },
{
    match http::parse_url(cfg.auth_url.as_str()) {
        Some((_, host, port, _)) => Some((host, port)),
        None => None,
    }
}

// ---------------------------------------------------------------------------
// A login
// ---------------------------------------------------------------------------

/// A login that is under way: the candidates are tried in turn until one is online.
pub struct Login {
    candidates: Vec<String>,
    ac_ip: String,
    ac_name: String,
    tried: usize,
    last: Option<AuthOutcome>,
}

/// What a login does next.
pub enum LoginStep {
    /// Fetch `page_url`, whatever comes of it, and then `login_url`, which is
    /// `logged_url` in the log. Some portals take note of who looks at the login page.
    Try { ip: String, page_url: String, login_url: String, logged_url: String },
    /// The login ended so.
    Done(AuthOutcome),
}

/// The state of a login.
#[verifier::ext_equal]
pub ghost struct LoginView {
    pub candidates: Seq<Seq<char>>,
    pub ac_ip: Seq<char>,
    pub ac_name: Seq<char>,
    /// How many attempts were made.
    pub tried: int,
    /// The outcome of the last of them.
    pub last: Option<AuthView>,
}

impl View for Login {
    type V = LoginView;

    closed spec fn view(&self) -> LoginView {
        LoginView {
            candidates: config::string_texts(self.candidates@),
            ac_ip: self.ac_ip@,
            ac_name: self.ac_name@,
            tried: self.tried as int,
            last: match self.last {
                Some(o) => Some(o@),
                None => None,
            },
        }
    }
}

/// An attempt: the address to log in with, and the addresses to fetch.
pub ghost struct AttemptView {
    pub ip: Seq<char>,
    pub page_url: Seq<char>,
    pub login_url: Seq<char>,
    pub logged_url: Seq<char>,
}

/// How a login without any attempt to make ended.
pub open spec fn no_candidates() -> AuthView {
    AuthView::NetworkError("未探测到可用于认证的本机 IP"@)
}

impl LoginView {
    /// No more attempts than candidates, and an outcome if and only if there was one.
    pub open spec fn wf(self) -> bool {
        &&& 0 <= self.tried <= self.candidates.len()
        &&& self.last is Some <==> self.tried > 0
    }

    /// The outcome, where the login has ended: online, or no candidate left.
    pub open spec fn outcome(self) -> Option<AuthView> {
        if self.last is Some && online(self.last->0) {
            self.last
        } else if self.tried < self.candidates.len() {
            None
        } else if self.last is Some {
            self.last
        } else {
            Some(no_candidates())
        }
    }

    /// The next attempt, where there is one to make.
    pub open spec fn next(self, c: config::Settings) -> AttemptView {
        let ip = self.candidates[self.tried];
        let url = login_url(c, ip, "dr1005"@, self.ac_ip, self.ac_name);
        AttemptView {
            ip,
            page_url: config::base_of(c.auth_url) + "/srun_portal_pc.php?ac_id=1&"@,
            login_url: url,
            logged_url: redacted(url),
        }
    }

    /// The login after one more attempt.
    pub open spec fn after(self, o: AuthView) -> LoginView {
        LoginView { tried: self.tried + 1, last: Some(o), ..self }
    }
}

impl Login {
    /// What to do next.
    pub fn step(&self, cfg: &Config) -> (r: LoginStep)
        requires
            self@.wf(),
        ensures
            match self@.outcome() {
                Some(o) => r matches LoginStep::Done(x) && x@ == o,
                None => r matches LoginStep::Try { ip, page_url, login_url, logged_url } && ip@
                    == self@.next(cfg@).ip && page_url@ == self@.next(cfg@).page_url && login_url@
                    == self@.next(cfg@).login_url && logged_url@ == self@.next(cfg@).logged_url,
            },
    {
        if let Some(o) = &self.last {
            if o.is_ok() {
                return LoginStep::Done(o.clone());
            }
        }
        if self.tried < self.candidates.len() {
            let ip = self.candidates[self.tried].clone();
            assert(ip@ == self@.candidates[self@.tried]);
            let url = build_login_url(
                cfg,
                ip.as_str(),
                "dr1005",
                Some((self.ac_ip.as_str(), self.ac_name.as_str())),
            );
            let logged_url = redact_password(url.as_str());
            return LoginStep::Try { ip, page_url: cfg.login_page_url(), login_url: url, logged_url };
        }
        match &self.last {
            Some(o) => LoginStep::Done(o.clone()),
            None => LoginStep::Done(
                AuthOutcome::NetworkError { msg: "未探测到可用于认证的本机 IP".to_owned() },
            ),
        }
    }

    /// Takes in how the attempt that [`step`](Login::step) asked for ended.
    pub fn record(&mut self, outcome: AuthOutcome)
        requires
            old(self)@.wf(),
            old(self)@.outcome() is None,
        ensures
            final(self)@ == old(self)@.after(outcome@),
            final(self)@.wf(),
    {
        assert(self.tried < self.candidates.len());
        self.tried = self.tried + 1;
        self.last = Some(outcome);
        assert(self@ =~= old(self)@.after(outcome@));
    }
}

/// The state of a login that begins.
pub open spec fn begun(
    c: config::Settings,
    ac: Option<(Seq<char>, Seq<char>, Seq<char>)>,
    kernel: Option<Seq<char>>,
    local: Option<Seq<char>>,
) -> LoginView {
    LoginView {
        candidates: candidates(
            c.fixed_ip,
            kernel,
            match ac {
                Some((a, n, u)) => Some(u),
                None => None,
            },
            local,
        ),
        ac_ip: match ac {
            Some((a, n, u)) => a,
            None => ""@,
        },
        ac_name: match ac {
            Some((a, n, u)) => n,
            None => ""@,
        },
        tried: 0,
        last: None,
    }
}

/// Begins a login of its own accord. `kernel` is the source address towards the portal and
/// `local` the fallback.
pub fn authenticate(cfg: &Config, kernel: Option<&str>, local: Option<&str>) -> (r: Login)
    ensures
        r@ == begun(cfg@, None, opt_str(kernel), opt_str(local)),
        r@.wf(),
{
    authenticate_with_ac(cfg, None, kernel, local)
}

/// Begins a login after a portal's redirect; `ac` holds the address and the name of the
/// access controller and the address of the session, as the redirect told them.
pub fn authenticate_with_ac(
    cfg: &Config,
    ac: Option<(&str, &str, &str)>,
    kernel: Option<&str>,
    local: Option<&str>,
) -> (r: Login)
    ensures
        r@ == begun(
            cfg@,
            match ac {
                Some((a, n, u)) => Some((a@, n@, u@)),
                None => None,
            },
            opt_str(kernel),
            opt_str(local),
        ),
        r@.wf(),
{
    let (ac_ip, ac_name, portal): (&str, &str, Option<&str>) = match ac {
        Some((a, n, u)) => (a, n, Some(u)),
        None => ("", "", None),
    };
    let r = Login {
        candidates: candidate_ips(cfg, kernel, portal, local),
        ac_ip: ac_ip.to_owned(),
        ac_name: ac_name.to_owned(),
        tried: 0,
        last: None,
    };
    assert(r@ =~= begun(
        cfg@,
        match ac {
            Some((a, n, u)) => Some((a@, n@, u@)),
            None => None,
        },
        opt_str(kernel),
        opt_str(local),
    ));
    r
}

// ---------------------------------------------------------------------------
// What can be relied on
// ---------------------------------------------------------------------------

/// What is told of a login whose address cannot be taken apart depends neither on the account
/// nor on the password: two logins at the same portal are told alike, by the address of the
/// portal.
pub proof fn law_outcome_holds_no_credentials(
    c: config::Settings,
    d: config::Settings,
    ip: Seq<char>,
    ac_ip: Seq<char>,
    ac_name: Seq<char>,
    one: String,
    other: String,
)
    requires
        c.auth_url == d.auth_url,
        one@ == login_url(c, ip, "dr1005"@, ac_ip, ac_name),
        other@ == login_url(d, ip, "dr1005"@, ac_ip, ac_name),
    ensures
        attempt_view(Err(http::Error::BadUrl(one))) == attempt_view(
            Err(http::Error::BadUrl(other)),
        ),
        !c.auth_url.contains('?') ==> attempt_view(Err(http::Error::BadUrl(one)))
            == AuthView::NetworkError("非法地址: "@ + c.auth_url),
{
    lemma_before_query(c, ip, ac_ip, ac_name);
    lemma_before_query(d, ip, ac_ip, ac_name);
    if !c.auth_url.contains('?') {
        assert forall|i: int| 0 <= i < c.auth_url.len() implies #[trigger] c.auth_url[i] != '?' by {
            assert(c.auth_url.contains(c.auth_url[i]));
        }
        text::lemma_index_of_is(c.auth_url, '?', c.auth_url.len() as int);
        assert(c.auth_url.take(c.auth_url.len() as int) =~= c.auth_url);
    }
}

proof fn lemma_before_query(
    c: config::Settings,
    ip: Seq<char>,
    ac_ip: Seq<char>,
    ac_name: Seq<char>,
)
    ensures
        ({
            let url = login_url(c, ip, "dr1005"@, ac_ip, ac_name);
            url.take(text::index_of(url, '?')) == c.auth_url.take(text::index_of(c.auth_url, '?'))
        }),
{
    reveal_strlit("?callback=");
    let url = login_url(c, ip, "dr1005"@, ac_ip, ac_name);
    let n = text::index_of(c.auth_url, '?');
    text::lemma_index_of(c.auth_url, '?');
    assert forall|j: int| 0 <= j < n implies #[trigger] url[j] != '?' by {
        assert(url[j] == c.auth_url[j]);
    }
    assert(url[n] == '?') by {
        if n < c.auth_url.len() {
            assert(url[n] == c.auth_url[n]);
        } else {
            assert(url[n] == "?callback="@[0]);
        }
    }
    text::lemma_index_of_is(url, '?', n);
    assert(url.take(n) =~= c.auth_url.take(n));
}

proof fn lemma_with_candidate(out: Seq<Seq<char>>, ip: Option<Seq<char>>)
    requires
        out.no_duplicates(),
        forall|i: int| 0 <= i < out.len() ==> (#[trigger] out[i]).len() > 0,
    ensures
        with_candidate(out, ip).no_duplicates(),
        forall|i: int|
            0 <= i < with_candidate(out, ip).len() ==> (#[trigger] with_candidate(out, ip)[i]).len()
                > 0,
        out.len() <= with_candidate(out, ip).len() <= out.len() + 1,
        forall|i: int| 0 <= i < out.len() ==> with_candidate(out, ip)[i] == #[trigger] out[i],
        ip is Some && !text::is_blank(ip->0) ==> with_candidate(out, ip).contains(
            text::trim(ip->0),
        ),
{
    if ip is Some && !text::is_blank(ip->0) && !out.contains(text::trim(ip->0)) {
        let w = with_candidate(out, ip);
        assert(w[out.len() as int] == text::trim(ip->0));
    }
}

/// The addresses to log in with: none twice, none blank, at most four; every source that
/// names one has its say; and the configured address, where there is one, comes first, then
/// the source address towards the portal.
pub proof fn law_candidates(
    fixed: Option<Seq<char>>,
    kernel: Option<Seq<char>>,
    portal: Option<Seq<char>>,
    local: Option<Seq<char>>,
)
    ensures
        ({
            let all = candidates(fixed, kernel, portal, local);
            &&& all.no_duplicates()
            &&& all.len() <= 4
            &&& forall|i: int| 0 <= i < all.len() ==> (#[trigger] all[i]).len() > 0
            &&& forall|ip: Seq<char>|
                (fixed == Some(ip) || kernel == Some(ip) || portal == Some(ip) || local == Some(ip))
                    && !text::is_blank(ip) ==> all.contains(#[trigger] text::trim(ip))
            &&& fixed is Some && !text::is_blank(fixed->0) ==> all.len() > 0 && all[0]
                == text::trim(fixed->0)
            &&& (fixed is None || text::is_blank(fixed->0)) && kernel is Some && !text::is_blank(
                kernel->0,
            ) ==> all.len() > 0 && all[0] == text::trim(kernel->0)
        }),
{
    let none = Seq::<Seq<char>>::empty();
    let a = with_candidate(none, fixed);
    let b = with_candidate(a, kernel);
    let c = with_candidate(b, portal);
    let d = with_candidate(c, local);
    lemma_with_candidate(none, fixed);
    lemma_with_candidate(a, kernel);
    lemma_with_candidate(b, portal);
    lemma_with_candidate(c, local);
    assert(seq![] =~= none);
    assert forall|ip: Seq<char>|
        (fixed == Some(ip) || kernel == Some(ip) || portal == Some(ip) || local == Some(ip))
            && !text::is_blank(ip) implies d.contains(#[trigger] text::trim(ip)) by {
        let t = text::trim(ip);
        if fixed == Some(ip) {
            let i = choose|i: int| 0 <= i < a.len() && a[i] == t;
            assert(b[i] == t && c[i] == t && d[i] == t);
        } else if kernel == Some(ip) {
            let i = choose|i: int| 0 <= i < b.len() && b[i] == t;
            assert(c[i] == t && d[i] == t);
        } else if portal == Some(ip) {
            let i = choose|i: int| 0 <= i < c.len() && c[i] == t;
            assert(d[i] == t);
        }
    }
    if fixed is Some && !text::is_blank(fixed->0) {
        assert(a[0] == text::trim(fixed->0));
        assert(b[0] == a[0] && c[0] == a[0] && d[0] == a[0]);
    }
    if (fixed is None || text::is_blank(fixed->0)) && kernel is Some && !text::is_blank(kernel->0) {
        assert(b[0] == text::trim(kernel->0));
        assert(c[0] == b[0] && d[0] == b[0]);
    }
}

/// A login after a row of attempts.
pub open spec fn after_all(l: LoginView, outcomes: Seq<AuthView>) -> LoginView
    decreases outcomes.len(),
{
    if outcomes.len() == 0 {
        l
    } else {
        after_all(l, outcomes.drop_last()).after(outcomes.last())
    }
}

proof fn lemma_after_all(l: LoginView, outcomes: Seq<AuthView>)
    ensures
        after_all(l, outcomes).candidates == l.candidates,
        after_all(l, outcomes).tried == l.tried + outcomes.len(),
        after_all(l, outcomes).last == (if outcomes.len() == 0 {
            l.last
        } else {
            Some(outcomes.last())
        }),
    decreases outcomes.len(),
{
    if outcomes.len() > 0 {
        lemma_after_all(l, outcomes.drop_last());
    }
}

/// A login tries its candidates in turn. The first attempt that gets online ends it with that
/// outcome; while none does it goes on to the next candidate; when all have failed it ends
/// with how the last one failed; and without candidates it ends at once.
pub proof fn law_login(
    c: config::Settings,
    ac: Option<(Seq<char>, Seq<char>, Seq<char>)>,
    kernel: Option<Seq<char>>,
    local: Option<Seq<char>>,
    outcomes: Seq<AuthView>,
)
    requires
        outcomes.len() <= begun(c, ac, kernel, local).candidates.len(),
    ensures
        ({
            let l = begun(c, ac, kernel, local);
            let after = after_all(l, outcomes);
            &&& after.candidates == l.candidates
            &&& after.tried == outcomes.len()
            &&& after.outcome() == (if outcomes.len() > 0 && online(outcomes.last()) {
                Some(outcomes.last())
            } else if outcomes.len() < l.candidates.len() {
                None
            } else if outcomes.len() > 0 {
                Some(outcomes.last())
            } else {
                Some(no_candidates())
            })
        }),
{
    lemma_after_all(begun(c, ac, kernel, local), outcomes);
}

/// Encoding goes byte by byte: a letter, a digit, and each of `-`, `_`, `.` and `~` stands for
/// itself, and every other byte becomes a percent sign and its two hexadecimal digits.
pub proof fn law_encoded_byte(before: Seq<u8>, b: u8)
    ensures
        percent(Seq::<u8>::empty()) == Seq::<char>::empty(),
        percent(before.push(b)) == percent(before) + (if ('A' <= b as char <= 'Z') || ('a'
            <= b as char <= 'z') || ('0' <= b as char <= '9') || b as char == '-' || b as char == '_'
            || b as char == '.' || b as char == '~' {
            seq![b as char]
        } else {
            seq![
                '%',
                "0123456789ABCDEF"@[b as int / 16],
                "0123456789ABCDEF"@[b as int % 16],
            ]
        }),
{
    assert(before.push(b).drop_last() =~= before);
    digits::law_hex_byte(b);
    reveal_strlit("%");
    if !unreserved(b) {
        assert(percent_byte(b) =~= seq![
            '%',
            "0123456789ABCDEF"@[b as int / 16],
            "0123456789ABCDEF"@[b as int % 16],
        ]);
    }
}

/// The account is the student number behind `,0,`. With an operator other than the campus
/// network itself its name follows behind an at sign; so the accounts of one student differ
/// from operator to operator.
pub proof fn law_account(c: config::Settings, d: config::Settings)
    ensures
        c.operator is Campus ==> account(c) == ",0,"@ + c.student_id,
        c.operator is Cmcc ==> account(c) == ",0,"@ + c.student_id + "@cmcc"@,
        c.operator is Unicom ==> account(c) == ",0,"@ + c.student_id + "@unicom"@,
        c.operator is Telecom ==> account(c) == ",0,"@ + c.student_id + "@telecom"@,
        c.student_id == d.student_id && c.operator != d.operator ==> account(c) != account(d),
{
    lemma_suffixes();
    lemma_account(c);
    lemma_account(d);
    if c.student_id == d.student_id && c.operator != d.operator {
        let n = ",0,"@.len() + c.student_id.len();
        assert(account(c).skip(n as int) =~= suffix(c.operator));
        assert(account(d).skip(n as int) =~= suffix(d.operator));
    }
}

/// What stands behind the student number in an account.
pub open spec fn suffix(op: config::Operator) -> Seq<char> {
    match op {
        config::Operator::Campus => ""@,
        config::Operator::Cmcc => "@cmcc"@,
        config::Operator::Unicom => "@unicom"@,
        config::Operator::Telecom => "@telecom"@,
    }
}

proof fn lemma_suffixes()
    ensures
        ""@.len() == 0,
        "@cmcc"@.len() == 5,
        "@unicom"@.len() == 7,
        "@telecom"@.len() == 8,
        "@"@ + "cmcc"@ == "@cmcc"@,
        "@"@ + "unicom"@ == "@unicom"@,
        "@"@ + "telecom"@ == "@telecom"@,
{
    reveal_strlit("");
    reveal_strlit("@");
    reveal_strlit("cmcc");
    reveal_strlit("unicom");
    reveal_strlit("telecom");
    reveal_strlit("@cmcc");
    reveal_strlit("@unicom");
    reveal_strlit("@telecom");
    assert("@"@ + "cmcc"@ =~= "@cmcc"@);
    assert("@"@ + "unicom"@ =~= "@unicom"@);
    assert("@"@ + "telecom"@ =~= "@telecom"@);
}

proof fn lemma_account(c: config::Settings)
    ensures
        account(c) == ",0,"@ + c.student_id + suffix(c.operator),
{
    lemma_suffixes();
    let start = ",0,"@ + c.student_id;
    match c.operator {
        config::Operator::Campus => {
            assert(start + ""@ =~= start);
        },
        config::Operator::Cmcc => {
            assert(start + "@"@ + "cmcc"@ =~= start + ("@"@ + "cmcc"@));
        },
        config::Operator::Unicom => {
            assert(start + "@"@ + "unicom"@ =~= start + ("@"@ + "unicom"@));
        },
        config::Operator::Telecom => {
            assert(start + "@"@ + "telecom"@ =~= start + ("@"@ + "telecom"@));
        },
    }
}

proof fn lemma_join(first: Seq<char>, rest: Seq<Seq<char>>)
    requires
        rest.len() > 0,
    ensures
        text::joined(seq![first] + rest, '&') == first + seq!['&'] + text::joined(rest, '&'),
{
    assert((seq![first] + rest).skip(1) =~= rest);
}

/// Whoever takes the query of a login apart at the ampersands finds fourteen parameters, each
/// under its name and with its value, in this order.
pub proof fn law_login_query(
    c: config::Settings,
    ip: Seq<char>,
    callback: Seq<char>,
    ac_ip: Seq<char>,
    ac_name: Seq<char>,
)
    ensures
        login_query(c, ip, callback, ac_ip, ac_name)[0] == '?',
        text::split(login_query(c, ip, callback, ac_ip, ac_name).skip(1), '&') == seq![
            "callback="@ + encoded(callback),
            "login_method=1"@,
            "user_account="@ + encoded(account(c)),
            "user_password="@ + encoded(c.password),
            "wlan_user_ip="@ + encoded(ip),
            "wlan_user_ipv6="@,
            "wlan_user_mac=000000000000"@,
            "wlan_ac_ip="@ + encoded(ac_ip),
            "wlan_ac_name="@ + encoded(ac_name),
            "jsVersion=4.1.3"@,
            "terminal_type=1"@,
            "lang=zh-cn"@,
            "v=3015"@,
            "lang=zh"@,
        ],
{
    reveal_strlit("callback=");
    reveal_strlit("login_method=1");
    reveal_strlit("user_account=");
    reveal_strlit("user_password=");
    reveal_strlit("wlan_user_ip=");
    reveal_strlit("wlan_user_ipv6=");
    reveal_strlit("wlan_user_mac=000000000000");
    reveal_strlit("wlan_ac_ip=");
    reveal_strlit("wlan_ac_name=");
    reveal_strlit("jsVersion=4.1.3");
    reveal_strlit("terminal_type=1");
    reveal_strlit("lang=zh-cn");
    reveal_strlit("v=3015");
    reveal_strlit("lang=zh");
    let items = seq![
        "callback="@ + encoded(callback),
        "login_method=1"@,
        "user_account="@ + encoded(account(c)),
        "user_password="@ + encoded(c.password),
        "wlan_user_ip="@ + encoded(ip),
        "wlan_user_ipv6="@,
        "wlan_user_mac=000000000000"@,
        "wlan_ac_ip="@ + encoded(ac_ip),
        "wlan_ac_name="@ + encoded(ac_name),
        "jsVersion=4.1.3"@,
        "terminal_type=1"@,
        "lang=zh-cn"@,
        "v=3015"@,
        "lang=zh"@,
    ];
    lemma_lacks("callback="@, callback);
    lemma_lacks("user_account="@, account(c));
    lemma_lacks("user_password="@, c.password);
    lemma_lacks("wlan_user_ip="@, ip);
    lemma_lacks("wlan_ac_ip="@, ac_ip);
    lemma_lacks("wlan_ac_name="@, ac_name);
    assert(lacks("login_method=1"@));
    assert(lacks("wlan_user_ipv6="@));
    assert(lacks("wlan_user_mac=000000000000"@));
    assert(lacks("jsVersion=4.1.3"@));
    assert(lacks("terminal_type=1"@));
    assert(lacks("lang=zh-cn"@));
    assert(lacks("v=3015"@));
    assert(lacks("lang=zh"@));
    assert forall|i: int, j: int| 0 <= i < items.len() && 0 <= j < items[i].len() implies
        #[trigger] items[i][j] != '&' by {
        assert(lacks(items[i]));
    }
    text::law_split_joined(items, '&');
    lemma_joined_query(c, ip, callback, ac_ip, ac_name);
    let q = login_query(c, ip, callback, ac_ip, ac_name);
    assert(q.skip(1) =~= text::joined(items, '&'));
}

spec fn lacks(s: Seq<char>) -> bool {
    forall|j: int| 0 <= j < s.len() ==> #[trigger] s[j] != '&'
}

proof fn lemma_lacks(name: Seq<char>, value: Seq<char>)
    requires
        lacks(name),
    ensures
        lacks(name + encoded(value)),
{
    law_encoded_is_safe(value);
    let s = name + encoded(value);
    assert forall|j: int| 0 <= j < s.len() implies #[trigger] s[j] != '&' by {
        if j < name.len() {
            assert(s[j] == name[j]);
        } else {
            assert(s[j] == encoded(value)[j - name.len()]);
        }
    }
}

proof fn lemma_last_items()
    ensures
        "&jsVersion=4.1.3&terminal_type=1&lang=zh-cn&v=3015&lang=zh"@ == seq!['&'] + text::joined(
            seq![
                "jsVersion=4.1.3"@,
                "terminal_type=1"@,
                "lang=zh-cn"@,
                "v=3015"@,
                "lang=zh"@,
            ],
            '&',
        ),
{
    reveal_strlit("&jsVersion=4.1.3&terminal_type=1&lang=zh-cn&v=3015&lang=zh");
    reveal_strlit("jsVersion=4.1.3");
    reveal_strlit("terminal_type=1");
    reveal_strlit("lang=zh-cn");
    reveal_strlit("v=3015");
    reveal_strlit("lang=zh");
    let l5 = seq!["lang=zh"@];
    let l4 = seq!["v=3015"@] + l5;
    let l3 = seq!["lang=zh-cn"@] + l4;
    let l2 = seq!["terminal_type=1"@] + l3;
    let l1 = seq!["jsVersion=4.1.3"@] + l2;
    lemma_join("v=3015"@, l5);
    lemma_join("lang=zh-cn"@, l4);
    lemma_join("terminal_type=1"@, l3);
    lemma_join("jsVersion=4.1.3"@, l2);
    assert(l1 =~= seq![
        "jsVersion=4.1.3"@,
        "terminal_type=1"@,
        "lang=zh-cn"@,
        "v=3015"@,
        "lang=zh"@,
    ]);
    assert(text::joined(l5, '&') == "lang=zh"@);
    assert("&jsVersion=4.1.3&terminal_type=1&lang=zh-cn&v=3015&lang=zh"@ =~= seq!['&']
        + text::joined(l1, '&'));
}

/// The pieces of the end of a query, put together from the left and from the right.
proof fn lemma_end_pieces(
    amp: Seq<char>,
    n5: Seq<char>,
    e5: Seq<char>,
    n6: Seq<char>,
    n7: Seq<char>,
    n8: Seq<char>,
    e8: Seq<char>,
    n9: Seq<char>,
    e9: Seq<char>,
    last: Seq<char>,
)
    ensures
        ((amp + n5) + e5 + (amp + n6 + amp + n7 + amp + n8) + e8 + (amp + n9) + e9 + (amp + last))
            == amp + ((n5 + e5) + amp + (n6 + amp + (n7 + amp + ((n8 + e8) + amp + ((n9 + e9) + amp
            + last))))),
{
    let j9 = (n9 + e9) + amp + last;
    let j8 = (n8 + e8) + amp + j9;
    let j7 = n7 + amp + j8;
    let j6 = n6 + amp + j7;
    let x = (amp + n9) + e9 + (amp + last);
    assert(amp + j9 =~= x);
    assert(j8 =~= n8 + e8 + x);
    assert(amp + n6 + amp + n7 + amp + n8 + e8 + x =~= amp + j6) by {
        assert(j7 =~= n7 + amp + n8 + e8 + x);
        assert(j6 =~= n6 + amp + n7 + amp + n8 + e8 + x);
    }
    let mid = amp + n6 + amp + n7 + amp + n8;
    let head = (amp + n5) + e5;
    let left = head + mid + e8 + (amp + n9) + e9 + (amp + last);
    assert(left =~= head + (mid + e8 + x));
    assert(head + (amp + j6) =~= amp + ((n5 + e5) + amp + j6));
}

/// The pieces of the start of a query, put together from the left and from the right.
proof fn lemma_start_pieces(
    url: Seq<char>,
    mark: Seq<char>,
    amp: Seq<char>,
    n1: Seq<char>,
    e1: Seq<char>,
    n2: Seq<char>,
    n3: Seq<char>,
    e3: Seq<char>,
    n4: Seq<char>,
    e4: Seq<char>,
    rest: Seq<char>,
)
    ensures
        (url + (mark + n1) + e1 + (amp + n2 + amp + n3) + e3 + (amp + n4)) + e4 + (amp + rest) == url
            + (mark + ((n1 + e1) + amp + (n2 + amp + ((n3 + e3) + amp + ((n4 + e4) + amp + rest))))),
{
    let j4 = (n4 + e4) + amp + rest;
    let j3 = (n3 + e3) + amp + j4;
    let j2 = n2 + amp + j3;
    let x = (amp + n4) + e4 + (amp + rest);
    assert(amp + j4 =~= x);
    assert(j3 =~= n3 + e3 + x);
    assert(j2 =~= n2 + amp + n3 + e3 + x);
    let start = url + (mark + n1) + e1;
    let mid = amp + n2 + amp + n3;
    assert((start + mid + e3 + (amp + n4)) + e4 + (amp + rest) =~= start + (mid + e3 + x));
    assert(mid + e3 + x =~= amp + j2);
    assert(start + (amp + j2) =~= url + (mark + ((n1 + e1) + amp + j2)));
}

/// The parameters of a login, in order.
spec fn login_items(
    c: config::Settings,
    ip: Seq<char>,
    callback: Seq<char>,
    ac_ip: Seq<char>,
    ac_name: Seq<char>,
) -> Seq<Seq<char>> {
    seq![
            "callback="@ + encoded(callback),
            "login_method=1"@,
            "user_account="@ + encoded(account(c)),
            "user_password="@ + encoded(c.password),
            "wlan_user_ip="@ + encoded(ip),
            "wlan_user_ipv6="@,
            "wlan_user_mac=000000000000"@,
            "wlan_ac_ip="@ + encoded(ac_ip),
            "wlan_ac_name="@ + encoded(ac_name),
            "jsVersion=4.1.3"@,
            "terminal_type=1"@,
            "lang=zh-cn"@,
            "v=3015"@,
            "lang=zh"@,
    ]
}

proof fn lemma_joined_query(
    c: config::Settings,
    ip: Seq<char>,
    callback: Seq<char>,
    ac_ip: Seq<char>,
    ac_name: Seq<char>,
)
    ensures
        login_query(c, ip, callback, ac_ip, ac_name) == seq!['?'] + text::joined(
            login_items(c, ip, callback, ac_ip, ac_name),
            '&',
        ),
{
    let last = seq![
        "jsVersion=4.1.3"@,
        "terminal_type=1"@,
        "lang=zh-cn"@,
        "v=3015"@,
        "lang=zh"@,
    ];
    let l9 = seq!["wlan_ac_name="@ + encoded(ac_name)] + last;
    let l8 = seq!["wlan_ac_ip="@ + encoded(ac_ip)] + l9;
    let l7 = seq!["wlan_user_mac=000000000000"@] + l8;
    let l6 = seq!["wlan_user_ipv6="@] + l7;
    let l5 = seq!["wlan_user_ip="@ + encoded(ip)] + l6;
    let l4 = seq!["user_password="@ + encoded(c.password)] + l5;
    let l3 = seq!["user_account="@ + encoded(account(c))] + l4;
    let l2 = seq!["login_method=1"@] + l3;
    let l1 = seq!["callback="@ + encoded(callback)] + l2;
    assert(l1 =~= login_items(c, ip, callback, ac_ip, ac_name));
    lemma_join("wlan_ac_name="@ + encoded(ac_name), last);
    lemma_join("wlan_ac_ip="@ + encoded(ac_ip), l9);
    lemma_join("wlan_user_mac=000000000000"@, l8);
    lemma_join("wlan_user_ipv6="@, l7);
    lemma_join("wlan_user_ip="@ + encoded(ip), l6);
    lemma_join("user_password="@ + encoded(c.password), l5);
    lemma_join("user_account="@ + encoded(account(c)), l4);
    lemma_join("login_method=1"@, l3);
    lemma_join("callback="@ + encoded(callback), l2);
    lemma_last_items();
    lemma_fixed_pieces();
    lemma_end_pieces(
        seq!['&'],
        "wlan_user_ip="@,
        encoded(ip),
        "wlan_user_ipv6="@,
        "wlan_user_mac=000000000000"@,
        "wlan_ac_ip="@,
        encoded(ac_ip),
        "wlan_ac_name="@,
        encoded(ac_name),
        text::joined(last, '&'),
    );
    assert(after_password(ip, ac_ip, ac_name) == seq!['&'] + text::joined(l5, '&'));
    lemma_start_pieces(
        c.auth_url,
        seq!['?'],
        seq!['&'],
        "callback="@,
        encoded(callback),
        "login_method=1"@,
        "user_account="@,
        encoded(account(c)),
        "user_password="@,
        encoded(c.password),
        text::joined(l5, '&'),
    );
    let q = seq!['?'] + text::joined(l1, '&');
    assert(login_url(c, ip, callback, ac_ip, ac_name) == c.auth_url + q);
    assert((c.auth_url + q).skip(c.auth_url.len() as int) =~= q);
}

proof fn lemma_fixed_pieces()
    ensures
        "?callback="@ == seq!['?'] + "callback="@,
        "&login_method=1&user_account="@ == seq!['&'] + "login_method=1"@ + seq!['&']
            + "user_account="@,
        "&user_password="@ == seq!['&'] + "user_password="@,
        "&wlan_user_ip="@ == seq!['&'] + "wlan_user_ip="@,
        "&wlan_user_ipv6=&wlan_user_mac=000000000000&wlan_ac_ip="@ == seq!['&'] + "wlan_user_ipv6="@
            + seq!['&'] + "wlan_user_mac=000000000000"@ + seq!['&'] + "wlan_ac_ip="@,
        "&wlan_ac_name="@ == seq!['&'] + "wlan_ac_name="@,
{
    reveal_strlit("?callback=");
    reveal_strlit("callback=");
    reveal_strlit("&login_method=1&user_account=");
    reveal_strlit("login_method=1");
    reveal_strlit("user_account=");
    reveal_strlit("&user_password=");
    reveal_strlit("user_password=");
    reveal_strlit("&wlan_user_ip=");
    reveal_strlit("wlan_user_ip=");
    reveal_strlit("&wlan_user_ipv6=&wlan_user_mac=000000000000&wlan_ac_ip=");
    reveal_strlit("wlan_user_ipv6=");
    reveal_strlit("wlan_user_mac=000000000000");
    reveal_strlit("wlan_ac_ip=");
    reveal_strlit("&wlan_ac_name=");
    reveal_strlit("wlan_ac_name=");
    assert("?callback="@ =~= seq!['?'] + "callback="@);
    assert("&login_method=1&user_account="@ =~= seq!['&'] + "login_method=1"@ + seq!['&']
        + "user_account="@);
    assert("&user_password="@ =~= seq!['&'] + "user_password="@);
    assert("&wlan_user_ip="@ =~= seq!['&'] + "wlan_user_ip="@);
    assert("&wlan_user_ipv6=&wlan_user_mac=000000000000&wlan_ac_ip="@ =~= seq!['&']
        + "wlan_user_ipv6="@ + seq!['&'] + "wlan_user_mac=000000000000"@ + seq!['&']
        + "wlan_ac_ip="@);
    assert("&wlan_ac_name="@ =~= seq!['&'] + "wlan_ac_name="@);
}

/// Of any address the log shows everything but the first password in it, and of one without a
/// password everything.
pub proof fn law_redacted(before: Seq<char>, value: Seq<char>, rest: Seq<char>, url: Seq<char>)
    requires
        !text::occurs(before + "user_password="@.drop_last(), "user_password="@),
        !value.contains('&'),
        rest.len() > 0 ==> rest[0] == '&',
        !text::occurs(url, "user_password="@),
    ensures
        redacted(before + "user_password="@ + (value + rest)) == before + "user_password="@ + "***"@
            + rest,
        redacted(url) == url,
{
    let key = "user_password="@;
    reveal_strlit("user_password=");
    let s = before + key + (value + rest);
    let n = (before.len() + key.len()) as int;
    text::law_find_behind(before, key, value + rest);
    assert(s.take(n) =~= before + key);
    assert(s.skip(n) =~= value + rest);
    assert forall|j: int| 0 <= j < value.len() implies #[trigger] (value + rest)[j] != '&' by {
        assert((value + rest)[j] == value[j]);
        assert(value.contains(value[j]));
    }
    text::lemma_index_of_is(value + rest, '&', value.len() as int);
    assert((value + rest).skip(value.len() as int) =~= rest);
}

/// A reply means that the machine is online if and only if `result` is 1, or 0 with a
/// `ret_code` of exactly 2. Every other reply with `result` 0 is a failure that says what the
/// portal says; any other `result` is a failure that names it, and so is an answer that is
/// none.
pub proof fn law_judged(result: int, ret_code: Option<int>, msg: Seq<char>)
    ensures
        online(judged(Some((result, ret_code, msg)))) <==> result == 1 || (result == 0 && ret_code
            == Some(2int)),
        result == 1 ==> judged(Some((result, ret_code, msg))) is Success,
        result == 0 && ret_code == Some(2int) ==> judged(Some((result, ret_code, msg)))
            is AlreadyOnline,
        result == 0 && ret_code != Some(2int) ==> judged(Some((result, ret_code, msg)))
            == AuthView::Failed(msg),
        result != 0 && result != 1 ==> judged(Some((result, ret_code, msg))) == AuthView::Failed(
            "未知 result="@ + digits::signed_decimal(result),
        ),
        judged(None) == AuthView::Failed("响应非 JSONP"@),
{
}

/// Only a success and an online machine are as good as each other; both kinds of failure are
/// told with what they say.
pub proof fn law_outcome(msg: Seq<char>)
    ensures
        online(AuthView::Success) && online(AuthView::AlreadyOnline),
        !online(AuthView::Failed(msg)) && !online(AuthView::NetworkError(msg)),
        text::occurs(outcome_text(AuthView::Failed(msg)), msg),
        text::occurs(outcome_text(AuthView::NetworkError(msg)), msg),
        outcome_text(AuthView::Failed(msg)) == "失败("@ + msg + ")"@,
        outcome_text(AuthView::NetworkError(msg)) == "网络错误("@ + msg + ")"@,
{
    text::law_find("失败("@, msg, ")"@);
    text::law_find("网络错误("@, msg, ")"@);
}

/// A JSONP answer holds what stands between its first opening and its last closing
/// parenthesis, whatever stands around them and whatever parentheses stand between; without
/// the two in that order it holds nothing.
pub proof fn law_jsonp(before: Seq<char>, body: Seq<char>, after: Seq<char>, a: Seq<char>, b: Seq<char>)
    requires
        !before.contains('('),
        !after.contains(')'),
        !a.contains('('),
        !b.contains(')'),
    ensures
        jsonp_body(before + seq!['('] + body + seq![')'] + after) == Some(body),
        jsonp_body(a + b) is None,
{
    let s = before + seq!['('] + body + seq![')'] + after;
    let n = before.len() as int;
    let m = n + 1 + body.len();
    assert forall|j: int| 0 <= j < n implies #[trigger] s[j] != '(' by {
        assert(s[j] == before[j]);
        assert(before.contains(before[j]));
    }
    assert(s[n] == '(');
    text::lemma_index_of_is(s, '(', n);
    assert forall|j: int| m + 1 <= j < s.len() implies #[trigger] s[j] != ')' by {
        assert(s[j] == after[j - m - 1]);
        assert(after.contains(after[j - m - 1]));
    }
    assert(s[m] == ')');
    text::lemma_after_last_is(s, ')', m + 1);
    assert(s.subrange(n + 1, m) =~= body);
    let t = a + b;
    text::lemma_index_of(t, '(');
    assert(text::index_of(t, '(') >= a.len()) by {
        if text::index_of(t, '(') < a.len() {
            assert(t[text::index_of(t, '(')] == a[text::index_of(t, '(')]);
            assert(a.contains(a[text::index_of(t, '(')]));
        }
    }
    lemma_last_before(a, b);
}

proof fn lemma_last_before(a: Seq<char>, b: Seq<char>)
    requires
        !b.contains(')'),
    ensures
        text::after_last(a + b, ')') <= a.len(),
    decreases b.len(),
{
    let t = a + b;
    if b.len() > 0 {
        assert(t.last() == b.last());
        assert(b.contains(b[b.len() - 1]));
        assert(t.drop_last() =~= a + b.drop_last());
        assert forall|i: int| 0 <= i < b.drop_last().len() implies b.drop_last()[i] != ')' by {
            assert(b.contains(b[i]));
        }
        lemma_last_before(a, b.drop_last());
    } else {
        assert(t =~= a);
        lemma_after_last_bound(a);
    }
}

proof fn lemma_after_last_bound(a: Seq<char>)
    ensures
        text::after_last(a, ')') <= a.len(),
    decreases a.len(),
{
    if a.len() > 0 && a.last() != ')' {
        lemma_after_last_bound(a.drop_last());
    }
}

/// What an answer says: there is a reply exactly where `result` is an integer; `ret_code` counts
/// where it is one too, and `msg` where it is a text.
pub proof fn law_reply(
    m: Map<Seq<char>, json::Json>,
    result: int,
    code: int,
    msg: Seq<char>,
)
    requires
        i64::MIN <= result <= i64::MAX,
        i64::MIN <= code <= i64::MAX,
        m.dom().contains("result"@) && m["result"@] == json::Json::Int(result),
    ensures
        reply_of(json::Json::Object(m)) matches Some((r, c, t)) && r == result && (c == Some(code)
            <==> m.dom().contains("ret_code"@) && m["ret_code"@] == json::Json::Int(code)) && (
        m.dom().contains("msg"@) && m["msg"@] == json::Json::Str(msg) ==> t == msg) && (!(
        m.dom().contains("msg"@) && m["msg"@] is Str) ==> t == ""@),
        reply_of(json::Json::Object(m.remove("result"@))) is None,
{
}

/// An answer without an integer `result`, and one that is no object, says nothing.
pub proof fn law_no_reply(j: json::Json)
    requires
        !(json::member(j, "result"@) matches Some(x) && x is Int),
    ensures
        reply_of(j) is None,
{
}

/// What an answer says is what the JSON in its parentheses says.
pub proof fn law_answer(s: Seq<char>, body: Seq<char>, j: json::Json, e: Seq<char>)
    ensures
        jsonp_body(s) is None ==> jsonp_reply(s) is None,
        jsonp_body(s) == Some(body) && json::json_parse(body) == Ok::<json::Json, Seq<char>>(j)
            ==> jsonp_reply(s) == reply_of(j),
        jsonp_body(s) == Some(body) && json::json_parse(body) == Err::<json::Json, Seq<char>>(e)
            ==> jsonp_reply(s) is None,
{
}

/// The status of an answer matters only where it is no JSONP: with any status outside the 200s
/// that is a failure of the network, which names the status.
pub proof fn law_status_of_an_answer(
    reply: Option<(int, Option<int>, Seq<char>)>,
    status: int,
    e: http::Error,
    resp: http::Response,
)
    requires
        status >= 0,
        !(e is BadUrl),
    ensures
        reply is Some || status / 100 == 2 ==> judged_with_status(reply, status) == judged(reply),
        reply is None && status / 100 != 2 ==> judged_with_status(reply, status)
            == AuthView::NetworkError("HTTP "@ + digits::decimal(status as nat) + " - 响应非 JSONP"@),
        attempt_view(Ok(resp)) == judged_with_status(jsonp_reply(resp.body@), resp.status as int),
        attempt_view(Err(e)) == AuthView::NetworkError(http::error_text(e)),
{
}

/// A clipped text is the start of the text, and no longer than asked for; it is all of it
/// where that is no longer.
pub proof fn law_clipped(s: Seq<char>, n: int)
    requires
        n >= 0,
    ensures
        clipped(s, n).len() == (if s.len() <= n {
            s.len() as int
        } else {
            n
        }),
        forall|i: int| 0 <= i < clipped(s, n).len() ==> #[trigger] clipped(s, n)[i] == s[i],
{
}

/// Where an address comes from: the first source that names it.
pub open spec fn source_rank(
    ip: Seq<char>,
    fixed: Option<Seq<char>>,
    kernel: Option<Seq<char>>,
    portal: Option<Seq<char>>,
    local: Option<Seq<char>>,
) -> int {
    if fixed is Some && text::trim(fixed->0) == ip {
        0
    } else if kernel is Some && text::trim(kernel->0) == ip {
        1
    } else if portal is Some && text::trim(portal->0) == ip {
        2
    } else if local is Some && text::trim(local->0) == ip {
        3
    } else {
        4
    }
}

/// The candidates come in the order of their sources: the configured address, the source
/// address towards the portal, the address that the portal named, the fallback; and each of
/// them has a source.
pub proof fn law_candidates_are_ranked(
    fixed: Option<Seq<char>>,
    kernel: Option<Seq<char>>,
    portal: Option<Seq<char>>,
    local: Option<Seq<char>>,
)
    ensures
        ({
            let all = candidates(fixed, kernel, portal, local);
            &&& forall|i: int|
                0 <= i < all.len() ==> source_rank(#[trigger] all[i], fixed, kernel, portal, local)
                    < 4
            &&& forall|i: int, j: int|
                0 <= i < j < all.len() ==> source_rank(#[trigger] all[i], fixed, kernel, portal, local)
                    < source_rank(#[trigger] all[j], fixed, kernel, portal, local)
        }),
{
    let none = Seq::<Seq<char>>::empty();
    assert(seq![] =~= none);
    let a = with_candidate(none, fixed);
    let b = with_candidate(a, kernel);
    let c = with_candidate(b, portal);
    let d = with_candidate(c, local);
    lemma_with_candidate(none, fixed);
    lemma_with_candidate(a, kernel);
    lemma_with_candidate(b, portal);
    lemma_with_candidate(c, local);
    assert forall|i: int| 0 <= i < a.len() implies source_rank(
        #[trigger] a[i],
        fixed,
        kernel,
        portal,
        local,
    ) == 0 by {}
    assert forall|i: int| 0 <= i < b.len() implies (if i < a.len() {
        b[i] == a[i]
    } else {
        source_rank(#[trigger] b[i], fixed, kernel, portal, local) == 1
    }) by {
        if i >= a.len() {
            lemma_rank_is_not(b[i], a, fixed);
        }
    }
    assert forall|i: int| 0 <= i < c.len() implies (if i < b.len() {
        c[i] == b[i]
    } else {
        source_rank(#[trigger] c[i], fixed, kernel, portal, local) == 2
    }) by {
        if i >= b.len() {
            lemma_rank_is_not(c[i], a, fixed);
            lemma_rank_is_not(c[i], b, kernel);
        }
    }
    assert forall|i: int| 0 <= i < d.len() implies (if i < c.len() {
        d[i] == c[i]
    } else {
        source_rank(#[trigger] d[i], fixed, kernel, portal, local) == 3
    }) by {
        if i >= c.len() {
            lemma_rank_is_not(d[i], a, fixed);
            lemma_rank_is_not(d[i], b, kernel);
            lemma_rank_is_not(d[i], c, portal);
        }
    }
}

/// An address that is not among those with a source, and not blank, is not that of the source.
proof fn lemma_rank_is_not(ip: Seq<char>, with: Seq<Seq<char>>, source: Option<Seq<char>>)
    requires
        ip.len() > 0,
        !with.contains(ip),
        source is Some && !text::is_blank(source->0) ==> with.contains(text::trim(source->0)),
    ensures
        !(source is Some && text::trim(source->0) == ip),
{
}

/// The kernel and the portal differ where both name an address and these are not the same;
/// white space around what the portal names does not matter, and naming nothing is no
/// difference.
pub proof fn law_differing(kernel: Seq<char>, before: Seq<char>, ip: Seq<char>, after: Seq<char>)
    requires
        text::all_space(before) && text::all_space(after),
        text::is_trimmed(ip),
    ensures
        differing(Some(kernel), Some(before + ip + after)) <==> ip.len() > 0 && kernel != ip,
        !differing(None, Some(before + ip + after)),
        !differing(Some(kernel), None),
{
    text::law_trim(before, ip, after);
}

/// An attempt is made with the next candidate and with what was told of the access controller:
/// first the login page of the portal is fetched, and then the login address; the log shows
/// the latter without the password.
pub proof fn law_attempt(l: LoginView, c: config::Settings)
    requires
        l.wf(),
        l.outcome() is None,
    ensures
        l.next(c).ip == l.candidates[l.tried],
        l.next(c).page_url == config::base_of(c.auth_url) + "/srun_portal_pc.php?ac_id=1&"@,
        l.next(c).login_url == login_url(
            c,
            l.candidates[l.tried],
            "dr1005"@,
            l.ac_ip,
            l.ac_name,
        ),
        !text::occurs(c.auth_url, "user_password="@) ==> l.next(c).logged_url == before_password(
            c,
            "dr1005"@,
        ) + "***"@ + after_password(l.candidates[l.tried], l.ac_ip, l.ac_name),
{
    if !text::occurs(c.auth_url, "user_password="@) {
        law_redacted_login(c, l.candidates[l.tried], "dr1005"@, l.ac_ip, l.ac_name);
    }
}

/// A login begins with what the redirect told: the address and the name of the access
/// controller go into every attempt, and the address of the session is a candidate. Without a
/// redirect these are empty, and no such candidate is there.
pub proof fn law_begun(
    c: config::Settings,
    ac_ip: Seq<char>,
    ac_name: Seq<char>,
    user: Seq<char>,
    kernel: Option<Seq<char>>,
    local: Option<Seq<char>>,
)
    ensures
        ({
            let l = begun(c, Some((ac_ip, ac_name, user)), kernel, local);
            &&& l.ac_ip == ac_ip && l.ac_name == ac_name
            &&& l.candidates == candidates(c.fixed_ip, kernel, Some(user), local)
            &&& l.tried == 0 && l.last is None
        }),
        ({
            let l = begun(c, None, kernel, local);
            &&& l.ac_ip == ""@ && l.ac_name == ""@
            &&& l.candidates == candidates(c.fixed_ip, kernel, None, local)
            &&& l.tried == 0 && l.last is None
        }),
{
}

/// The source address is asked for towards the host and the port that the address of the
/// portal names, whatever its path.
pub proof fn law_endpoint(scheme: http::Scheme, host: Seq<char>, port: int, path: Seq<char>)
    requires
        host.len() > 0,
        forall|i: int| 0 <= i < host.len() ==> #[trigger] host[i] != '/',
        1 <= port <= 65535,
        path.len() > 0 && path[0] == '/',
    ensures
        endpoint(http::scheme_text(scheme) + (host + ":"@ + digits::decimal(port as nat) + path))
            == Some((host, port)),
        endpoint(Seq::<char>::empty()) is None,
{
    http::law_address_with_port(scheme, host, port, path);
    reveal_strlit("http://");
    reveal_strlit("https://");
    http::law_address_is_exact(Seq::<char>::empty());
}

}
