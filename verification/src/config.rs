//! The configuration: its model, how it is read from UCI text, and what is wrong with it.

use vstd::prelude::*;
use std::time::Duration;
use vstd::slice::slice_subrange;
use crate::digits;
use crate::http;
use crate::ipdetect;
use crate::text;
use crate::time;

verus! {

/// Where the configuration file is.
pub const UCI_PATH: &'static str = "/etc/config/campus-auth-guardian";

// ---------------------------------------------------------------------------
// Operators
// ---------------------------------------------------------------------------

/// The network operator; it is the suffix of the account name.
#[derive(Debug, Clone, Copy, PartialEq, Eq, Structural, Default)]
pub enum Operator {
    /// The campus network itself.
    #[default]
    Campus,
    /// China Mobile.
    Cmcc,
    /// China Unicom.
    Unicom,
    /// China Telecom.
    Telecom,
}

/// The name of an operator in the configuration and in account names.
pub open spec fn operator_name(op: Operator) -> Seq<char> {
    match op {
        Operator::Campus => "campus"@,
        Operator::Cmcc => "cmcc"@,
        Operator::Unicom => "unicom"@,
        Operator::Telecom => "telecom"@,
    }
}

/// The name of an operator for people.
pub open spec fn operator_label(op: Operator) -> Seq<char> {
    match op {
        Operator::Campus => "校园网"@,
        Operator::Cmcc => "中国移动"@,
        Operator::Unicom => "中国联通"@,
        Operator::Telecom => "中国电信"@,
    }
}

/// The operator that a text names; white space around it and the case of its ASCII letters
/// do not matter.
pub open spec fn operator_of(s: Seq<char>) -> Option<Operator> {
    let t = text::lower_text(text::trim(s));
    if t == "campus"@ {
        Some(Operator::Campus)
    } else if t == "cmcc"@ {
        Some(Operator::Cmcc)
    } else if t == "unicom"@ {
        Some(Operator::Unicom)
    } else if t == "telecom"@ {
        Some(Operator::Telecom)
    } else {
        None
    }
}

impl Operator {
    /// All operators, in the order in which they are offered.
    pub const ALL: [Operator; 4] = [
        Operator::Campus,
        Operator::Cmcc,
        Operator::Unicom,
        Operator::Telecom,
    ];

    /// The name of the operator in the configuration and in account names.
    pub fn as_str(self) -> (r: &'static str)
        ensures
            r@ == operator_name(self),
    {
        match self {
            Operator::Campus => "campus",
            Operator::Cmcc => "cmcc",
            Operator::Unicom => "unicom",
            Operator::Telecom => "telecom",
        }
    }

    /// The name of the operator for people.
    pub fn display(self) -> (r: &'static str)
        ensures
            r@ == operator_label(self),
    {
        match self {
            Operator::Campus => "校园网",
            Operator::Cmcc => "中国移动",
            Operator::Unicom => "中国联通",
            Operator::Telecom => "中国电信",
        }
    }

    /// The operator that `s` names.
    pub fn parse(s: &str) -> (r: Option<Self>)
        ensures
            r == operator_of(s@),
    {
        let v = text::chars_of(s);
        let t = text::lowered(text::trimmed(v.as_slice()));
        if text::is_text(t.as_slice(), "campus") {
            Some(Operator::Campus)
        } else if text::is_text(t.as_slice(), "cmcc") {
            Some(Operator::Cmcc)
        } else if text::is_text(t.as_slice(), "unicom") {
            Some(Operator::Unicom)
        } else if text::is_text(t.as_slice(), "telecom") {
            Some(Operator::Telecom)
        } else {
            None
        }
    }
}

// ---------------------------------------------------------------------------
// UCI text
// ---------------------------------------------------------------------------

/// A section of UCI text.
#[derive(Debug)]
pub struct Section {
    pub kind: String,
    pub name: Option<String>,
    pub options: Vec<(String, String)>,
}

/// What a [`Section`] says.
#[verifier::ext_equal]
pub ghost struct SectionView {
    pub kind: Seq<char>,
    pub name: Option<Seq<char>>,
    pub options: Seq<(Seq<char>, Seq<char>)>,
}

impl View for Section {
    type V = SectionView;

    open spec fn view(&self) -> SectionView {
        SectionView {
            kind: self.kind@,
            name: ipdetect::opt_text(self.name),
            options: http::pairs(self.options@),
        }
    }
}

/// What the sections of a list say.
pub open spec fn section_views(v: Seq<Section>) -> Seq<SectionView> {
    v.map_values(|s: Section| s@)
}

/// Whether a text stands between two characters `q`.
pub open spec fn quoted(s: Seq<char>, q: char) -> bool {
    s.len() >= 2 && s[0] == q && s.last() == q
}

/// A single-quoted text without its escapes: a backslash before a quote or a backslash
/// goes away; before anything else, and at the end, it stays.
pub open spec fn unescape(s: Seq<char>) -> Seq<char>
    decreases s.len(),
{
    if s.len() == 0 {
        seq![]
    } else if s[0] != '\\' {
        seq![s[0]] + unescape(s.skip(1))
    } else if s.len() == 1 {
        seq!['\\']
    } else if s[1] == '\'' || s[1] == '\\' {
        seq![s[1]] + unescape(s.skip(2))
    } else {
        seq!['\\', s[1]] + unescape(s.skip(2))
    }
}

/// The value that a UCI text stands for: in single quotes with escapes, in double quotes
/// without, or bare.
pub open spec fn uci_value(raw: Seq<char>) -> Seq<char> {
    let s = text::trim(raw);
    if quoted(s, '\'') {
        unescape(s.subrange(1, s.len() - 1))
    } else if quoted(s, '"') {
        s.subrange(1, s.len() - 1)
    } else {
        s
    }
}

/// What follows the first word and the white space after it.
pub open spec fn after_word(s: Seq<char>) -> Seq<char> {
    if text::word_len(s) < s.len() {
        s.skip(text::word_len(s) + 1)
    } else {
        Seq::empty()
    }
}

/// `key value`, taken apart; `None` where there is no white space after the key.
pub open spec fn key_value(rest: Seq<char>) -> Option<(Seq<char>, Seq<char>)> {
    let s = text::trim_start(rest);
    let n = text::word_len(s);
    if 0 < n < s.len() {
        Some((s.take(n), uci_value(text::trim(s.skip(n)))))
    } else {
        None
    }
}

/// The section that a `config` line with this rest opens.
pub open spec fn opened(rest: Seq<char>) -> SectionView {
    let n = text::word_len(rest);
    let name = uci_value(text::trim(rest.skip(n + 1)));
    SectionView {
        kind: rest.take(n),
        name: if n < rest.len() && name.len() > 0 {
            Some(name)
        } else {
            None
        },
        options: seq![],
    }
}

/// The sections after one more line. Blank lines, comments and unknown keywords change
/// nothing; `list` counts as `option`; an option before any section is dropped.
pub open spec fn with_line(secs: Seq<SectionView>, raw: Seq<char>) -> Seq<SectionView> {
    let line = text::trim(raw);
    let keyword = line.take(text::word_len(line));
    let rest = text::trim(after_word(line));
    if line.len() == 0 || line[0] == '#' {
        secs
    } else if keyword == "config"@ {
        secs.push(opened(rest))
    } else if (keyword == "option"@ || keyword == "list"@) && secs.len() > 0 && key_value(
        rest,
    ) is Some {
        let last = secs.last();
        secs.drop_last().push(
            SectionView { options: last.options.push(key_value(rest)->0), ..last },
        )
    } else {
        secs
    }
}

/// The sections that lines hold.
pub open spec fn sections_of(ls: Seq<Seq<char>>) -> Seq<SectionView>
    decreases ls.len(),
{
    if ls.len() == 0 {
        seq![]
    } else {
        with_line(sections_of(ls.drop_last()), ls.last())
    }
}

/// The value of an option: the last one of that name, whatever the case of its ASCII
/// letters.
pub open spec fn option_value(o: Seq<(Seq<char>, Seq<char>)>, key: Seq<char>) -> Option<Seq<char>>
    decreases o.len(),
{
    if o.len() == 0 {
        None
    } else if text::lower_text(o.last().0) == text::lower_text(key) {
        Some(o.last().1)
    } else {
        option_value(o.drop_last(), key)
    }
}

impl Section {
    /// The value of the option `key`, if it is set; the last one written wins.
    pub fn get(&self, key: &str) -> (r: Option<&str>)
        ensures
            match r {
                Some(v) => option_value(self@.options, key@) == Some(v@),
                None => option_value(self@.options, key@) is None,
            },
    {
        let k = text::chars_of(key);
        let ghost all = self@.options;
        let mut n: usize = self.options.len();
        assert(all.take(n as int) =~= all);
        while n > 0
            invariant
                n <= self.options@.len(),
                all == self@.options,
                k@ == key@,
                option_value(all, key@) == option_value(all.take(n as int), key@),
            decreases n,
        {
            let name = text::chars_of(self.options[n - 1].0.as_str());
            assert(all.take(n as int).last() == all[n - 1]);
            if text::same_ignoring_case(name.as_slice(), k.as_slice()) {
                return Some(self.options[n - 1].1.as_str());
            }
            assert(all.take(n as int).drop_last() =~= all.take(n - 1));
            n -= 1;
        }
        None
    }
}

fn unescaped(s: &[char]) -> (r: String)
    ensures
        r@ == unescape(s@),
{
    let mut out = String::new();
    let mut i: usize = 0;
    assert(s@.skip(0) =~= s@);
    assert(out@ + unescape(s@) =~= unescape(s@));
    while i < s.len()
        invariant
            i <= s@.len(),
            out@ + unescape(s@.skip(i as int)) == unescape(s@),
        decreases s@.len() - i,
    {
        let c = s[i];
        let ghost rest = s@.skip(i as int);
        let ghost before = out@;
        assert(rest[0] == c);
        if c != '\\' {
            out.push(c);
            assert(rest.skip(1) =~= s@.skip(i + 1));
            assert(before + (seq![c] + unescape(s@.skip(i + 1))) =~= out@ + unescape(
                s@.skip(i + 1),
            ));
            i += 1;
        } else if i + 1 == s.len() {
            out.push('\\');
            assert(before + seq!['\\'] =~= out@);
            assert(out@ + unescape(s@.skip(i + 1)) =~= out@);
            i += 1;
        } else {
            let d = s[i + 1];
            assert(rest[1] == d);
            assert(rest.skip(2) =~= s@.skip(i + 2));
            if d == '\'' || d == '\\' {
                out.push(d);
                assert(before + (seq![d] + unescape(s@.skip(i + 2))) =~= out@ + unescape(
                    s@.skip(i + 2),
                ));
            } else {
                out.push('\\');
                out.push(d);
                assert(before + (seq!['\\', d] + unescape(s@.skip(i + 2))) =~= out@ + unescape(
                    s@.skip(i + 2),
                ));
            }
            i += 2;
        }
    }
    assert(out@ + unescape(s@.skip(i as int)) =~= out@);
    out
}

fn value_of(raw: &[char]) -> (r: String)
    ensures
        r@ == uci_value(raw@),
{
    let s = text::trimmed(raw);
    let n = s.len();
    if n >= 2 && s[0] == '\'' && s[n - 1] == '\'' {
        return unescaped(slice_subrange(s, 1, n - 1));
    }
    if n >= 2 && s[0] == '"' && s[n - 1] == '"' {
        return text::string_of(slice_subrange(s, 1, n - 1));
    }
    text::string_of(s)
}

/// The value that `raw` stands for: quotes and escapes are taken away.
pub fn parse_uci_value(raw: &str) -> (r: String)
    ensures
        r@ == uci_value(raw@),
{
    let v = text::chars_of(raw);
    value_of(v.as_slice())
}

fn split_key_value(rest: &[char]) -> (r: Option<(String, String)>)
    ensures
        match r {
            Some((k, v)) => key_value(rest@) == Some((k@, v@)),
            None => key_value(rest@) is None,
        },
{
    let s = text::trimmed_start(rest);
    let n = text::first_word_len(s);
    if n >= s.len() || n == 0 {
        return None;
    }
    let k = text::string_of(text::head(s, n));
    let v = value_of(text::trimmed(text::tail(s, n)));
    Some((k, v))
}

fn open_section(rest: &[char]) -> (r: Section)
    ensures
        r@ == opened(rest@),
{
    let n = text::first_word_len(rest);
    let kind = text::string_of(text::head(rest, n));
    let mut name: Option<String> = None;
    if n < rest.len() {
        let v = value_of(text::trimmed(text::tail(rest, n + 1)));
        if !v.as_str().is_empty() {
            name = Some(v);
        }
    }
    let r = Section { kind, name, options: Vec::new() };
    assert(r@ =~= opened(rest@));
    r
}

fn take_line(secs: &mut Vec<Section>, raw: &[char])
    ensures
        section_views(final(secs)@) == with_line(section_views(old(secs)@), raw@),
{
    let ghost before = section_views(secs@);
    let line = text::trimmed(raw);
    if line.len() == 0 || line[0] == '#' {
        return;
    }
    let n = text::first_word_len(line);
    let keyword = text::head(line, n);
    let empty: Vec<char> = Vec::new();
    let after: &[char] = if n < line.len() {
        text::tail(line, n + 1)
    } else {
        empty.as_slice()
    };
    assert(after@ =~= after_word(line@));
    let rest = text::trimmed(after);
    if text::is_text(keyword, "config") {
        let s = open_section(rest);
        secs.push(s);
        assert(section_views(secs@) =~= before.push(s@));
    } else if text::is_text(keyword, "option") || text::is_text(keyword, "list") {
        match secs.pop() {
            Some(mut last) => {
                let ghost old_last = last;
                assert(before.last() == last@);
                match split_key_value(rest) {
                    Some((k, v)) => {
                        let ghost done = last@.options;
                        last.options.push((k, v));
                        assert(last@.options =~= done.push((k@, v@)));
                    },
                    None => {},
                }
                let ghost now = last@;
                secs.push(last);
                assert(section_views(secs@) =~= before.drop_last().push(now));
                assert(key_value(rest@) is None ==> before.drop_last().push(now) =~= before);
            },
            None => {
                assert(section_views(secs@) =~= before);
            },
        }
    }
}

/// The sections that UCI text holds.
pub fn parse_uci(s: &str) -> (r: Vec<Section>)
    ensures
        section_views(r@) == sections_of(text::lines(s@)),
{
    let v = text::chars_of(s);
    let ls = text::lines_of(v.as_slice());
    let ghost all = text::texts(ls@);
    let mut secs: Vec<Section> = Vec::new();
    let mut i: usize = 0;
    assert(section_views(secs@) =~= sections_of(all.take(0)));
    while i < ls.len()
        invariant
            i <= ls@.len(),
            all == text::texts(ls@),
            section_views(secs@) == sections_of(all.take(i as int)),
        decreases ls@.len() - i,
    {
        let ghost next = all.take(i + 1);
        assert(next.drop_last() =~= all.take(i as int));
        assert(next.last() == ls@[i as int]@);
        take_line(&mut secs, ls[i]);
        i += 1;
    }
    assert(all.take(ls@.len() as int) =~= all);
    secs
}

// ---------------------------------------------------------------------------
// Single values
// ---------------------------------------------------------------------------

/// A text without the white space around it, or nothing where no more is left.
pub open spec fn non_blank(v: Seq<char>) -> Option<Seq<char>> {
    if text::is_blank(v) {
        None
    } else {
        Some(text::trim(v))
    }
}

/// The switch position that a text names.
pub open spec fn switch_of(v: Seq<char>) -> Option<bool> {
    let t = text::trim(v);
    if t == "1"@ || t == "true"@ || t == "yes"@ || t == "on"@ || t == "enabled"@ {
        Some(true)
    } else if t == "0"@ || t == "false"@ || t == "no"@ || t == "off"@ || t == "disabled"@ {
        Some(false)
    } else {
        None
    }
}

/// The number that a text names, where it lies between `lo` and `hi`.
pub open spec fn bounded(v: Seq<char>, lo: int, hi: int) -> Option<int> {
    match digits::read_uint(text::trim(v), u64::MAX as int) {
        Some(n) => if lo <= n <= hi {
            Some(n)
        } else {
            None
        },
        None => None,
    }
}

fn non_empty(v: &str) -> (r: Option<String>)
    ensures
        ipdetect::opt_text(r) == non_blank(v@),
{
    let s = text::chars_of(v);
    let t = text::trimmed(s.as_slice());
    if t.len() == 0 {
        None
    } else {
        Some(text::string_of(t))
    }
}

fn parse_bool(v: &str) -> (r: Option<bool>)
    ensures
        r == switch_of(v@),
{
    let s = text::chars_of(v);
    let t = text::trimmed(s.as_slice());
    if text::is_text(t, "1") || text::is_text(t, "true") || text::is_text(t, "yes")
        || text::is_text(t, "on") || text::is_text(t, "enabled") {
        Some(true)
    } else if text::is_text(t, "0") || text::is_text(t, "false") || text::is_text(t, "no")
        || text::is_text(t, "off") || text::is_text(t, "disabled") {
        Some(false)
    } else {
        None
    }
}

fn parse_bounded_u64(v: &str, lo: u64, hi: u64) -> (r: Option<u64>)
    ensures
        match r {
            Some(n) => bounded(v@, lo as int, hi as int) == Some(n as int),
            None => bounded(v@, lo as int, hi as int) is None,
        },
{
    let s = text::chars_of(v);
    match digits::parse_uint(text::trimmed(s.as_slice()), u64::MAX) {
        Some(n) => if lo <= n && n <= hi {
            Some(n)
        } else {
            None
        },
        None => None,
    }
}

// ---------------------------------------------------------------------------
// The configuration
// ---------------------------------------------------------------------------

/// The configuration of the guardian.
#[derive(Debug, PartialEq)]
pub struct Config {
    /// Whether the guardian logs in by itself. Where not, it still watches the network.
    pub enabled: bool,
    /// Where the portal takes logins; empty where it was not set.
    pub auth_url: String,
    /// What is fetched to see whether the network is there.
    pub check_url: String,
    /// The time between two checks of a network that is there.
    pub check_interval: Duration,
    /// The interface towards the campus network, for the fallback address.
    pub wan_iface: Option<String>,
    /// The address to log in with; found out where it is not set.
    pub fixed_ip: Option<String>,
    pub student_id: String,
    pub operator: Operator,
    pub password: String,
    /// The time between two attempts, and the first step of the backoff.
    pub retry_interval: Duration,
    /// How many attempts make up one burst.
    pub max_retries: u32,
}

/// What a [`Config`] says.
#[verifier::ext_equal]
pub ghost struct Settings {
    pub enabled: bool,
    pub auth_url: Seq<char>,
    pub check_url: Seq<char>,
    /// In nanoseconds.
    pub check_interval: int,
    pub wan_iface: Option<Seq<char>>,
    pub fixed_ip: Option<Seq<char>>,
    pub student_id: Seq<char>,
    pub operator: Operator,
    pub password: Seq<char>,
    /// In nanoseconds.
    pub retry_interval: int,
    pub max_retries: int,
}

impl View for Config {
    type V = Settings;

    open spec fn view(&self) -> Settings {
        Settings {
            enabled: self.enabled,
            auth_url: self.auth_url@,
            check_url: self.check_url@,
            check_interval: time::nanos(self.check_interval) as int,
            wan_iface: ipdetect::opt_text(self.wan_iface),
            fixed_ip: ipdetect::opt_text(self.fixed_ip),
            student_id: self.student_id@,
            operator: self.operator,
            password: self.password@,
            retry_interval: time::nanos(self.retry_interval) as int,
            max_retries: self.max_retries as int,
        }
    }
}

/// The settings where nothing is configured: switched on, and no portal, so that an
/// unconfigured machine logs in nowhere.
pub open spec fn default_settings() -> Settings {
    Settings {
        enabled: true,
        auth_url: ""@,
        check_url: "http://www.baidu.com"@,
        check_interval: time::seconds(30),
        wan_iface: Some("wan"@),
        fixed_ip: None,
        student_id: ""@,
        operator: Operator::Campus,
        password: ""@,
        retry_interval: time::seconds(10),
        max_retries: 3,
    }
}

impl Default for Config {
    fn default() -> (r: Self)
        ensures
            r@ == default_settings(),
    {
        Config {
            enabled: true,
            auth_url: "".to_owned(),
            check_url: "http://www.baidu.com".to_owned(),
            check_interval: Duration::from_secs(30),
            wan_iface: Some("wan".to_owned()),
            fixed_ip: None,
            student_id: "".to_owned(),
            operator: Operator::Campus,
            password: "".to_owned(),
            retry_interval: Duration::from_secs(10),
            max_retries: 3,
        }
    }
}

impl Clone for Config {
    fn clone(&self) -> (r: Self)
        ensures
            r == *self,
    {
        Config {
            enabled: self.enabled,
            auth_url: self.auth_url.clone(),
            check_url: self.check_url.clone(),
            check_interval: self.check_interval,
            wan_iface: clone_opt(&self.wan_iface),
            fixed_ip: clone_opt(&self.fixed_ip),
            student_id: self.student_id.clone(),
            operator: self.operator,
            password: self.password.clone(),
            retry_interval: self.retry_interval,
            max_retries: self.max_retries,
        }
    }
}

fn clone_opt(s: &Option<String>) -> (r: Option<String>)
    ensures
        r == *s,
{
    match s {
        Some(t) => Some(t.clone()),
        None => None,
    }
}

/// A setting that an option gives a number of seconds, from one second to an hour; the
/// default where it gives none.
pub open spec fn seconds_setting(v: Option<Seq<char>>, default: int) -> int {
    if v is Some && bounded(v->0, 1, 3600) is Some {
        time::seconds(bounded(v->0, 1, 3600)->0)
    } else {
        default
    }
}

/// What the options of a section set; what they do not set, or not to a value that makes
/// sense, stays at its default.
pub open spec fn settings_of(o: Seq<(Seq<char>, Seq<char>)>) -> Settings {
    let d = default_settings();
    let enabled = option_value(o, "enabled"@);
    let auth_url = option_value(o, "auth_url"@);
    let check_url = option_value(o, "check_url"@);
    let wan_iface = option_value(o, "wan_iface"@);
    let fixed_ip = option_value(o, "fixed_ip"@);
    let student_id = option_value(o, "student_id"@);
    let operator = option_value(o, "operator"@);
    let password = option_value(o, "password"@);
    let max_retries = option_value(o, "max_retries"@);
    Settings {
        enabled: if enabled is Some && switch_of(enabled->0) is Some {
            switch_of(enabled->0)->0
        } else {
            d.enabled
        },
        auth_url: if auth_url is Some {
            normalized(auth_url->0)
        } else {
            d.auth_url
        },
        check_url: if check_url is Some && !text::is_blank(check_url->0) {
            text::trim(check_url->0)
        } else {
            d.check_url
        },
        check_interval: seconds_setting(option_value(o, "check_interval"@), d.check_interval),
        wan_iface: if wan_iface is Some {
            non_blank(wan_iface->0)
        } else {
            d.wan_iface
        },
        fixed_ip: if fixed_ip is Some {
            non_blank(fixed_ip->0)
        } else {
            d.fixed_ip
        },
        student_id: if student_id is Some {
            text::trim(student_id->0)
        } else {
            d.student_id
        },
        operator: if operator is Some && operator_of(operator->0) is Some {
            operator_of(operator->0)->0
        } else {
            d.operator
        },
        password: if password is Some {
            password->0
        } else {
            d.password
        },
        retry_interval: seconds_setting(option_value(o, "retry_interval"@), d.retry_interval),
        max_retries: if max_retries is Some && bounded(max_retries->0, 1, 100) is Some {
            bounded(max_retries->0, 1, 100)->0
        } else {
            d.max_retries
        },
    }
}

/// The options that count: those of the first section named `main`, or of the first
/// section where none is named so.
pub open spec fn chosen_options(secs: Seq<SectionView>) -> Option<Seq<(Seq<char>, Seq<char>)>> {
    if main_index(secs) < secs.len() {
        Some(secs[main_index(secs)].options)
    } else if secs.len() > 0 {
        Some(secs[0].options)
    } else {
        None
    }
}

/// The index of the first section named `main`; the number of sections where there is none.
pub open spec fn main_index(secs: Seq<SectionView>) -> int
    decreases secs.len(),
{
    if secs.len() == 0 || secs[0].name == Some("main"@) {
        0
    } else {
        1 + main_index(secs.drop_first())
    }
}

proof fn lemma_main_index_is(secs: Seq<SectionView>, k: int)
    requires
        0 <= k <= secs.len(),
        forall|j: int| 0 <= j < k ==> (#[trigger] secs[j]).name != Some("main"@),
        k < secs.len() ==> secs[k].name == Some("main"@),
    ensures
        main_index(secs) == k,
    decreases secs.len(),
{
    if k > 0 {
        assert(secs[0].name != Some("main"@));
        lemma_main_index_is(secs.drop_first(), k - 1);
    }
}

/// The settings that UCI text describes.
pub open spec fn parsed(s: Seq<char>) -> Settings {
    match chosen_options(sections_of(text::lines(s))) {
        Some(o) => settings_of(o),
        None => default_settings(),
    }
}

/// Where the first character stands that ends the server of an address: a slash, a question
/// mark or a number sign; the length where there is none.
pub open spec fn server_end(s: Seq<char>) -> int {
    let slash = text::index_of(s, '/');
    let mark = text::index_of(s, '?');
    let hash = text::index_of(s, '#');
    if slash <= mark && slash <= hash {
        slash
    } else if mark <= hash {
        mark
    } else {
        hash
    }
}

/// The length of the scheme of an address, with the `://` behind it; 0 where it has none.
pub open spec fn scheme_len(s: Seq<char>) -> int {
    if text::occurs(s, "://"@) && text::find(s, "://"@) < server_end(s) {
        text::find(s, "://"@) + "://"@.len()
    } else {
        0
    }
}

/// Where the host and the port of an address end.
pub open spec fn authority_end(s: Seq<char>) -> int {
    scheme_len(s) + server_end(s.skip(scheme_len(s)))
}

/// Whether an address holds the path of the login already, behind the host and the port: these
/// have no slash in them.
pub open spec fn is_complete(s: Seq<char>) -> bool {
    text::occurs(s.skip(scheme_len(s)), "/eportal"@)
}

/// Whether a host names a port: whether it has a colon, the colons within the brackets of an
/// IPv6 address aside.
pub open spec fn names_port(authority: Seq<char>) -> bool {
    authority.skip(text::after_last(authority, ']')).contains(':')
}

/// The port that is put behind a host: 801 where it names none.
pub open spec fn added_port(authority: Seq<char>) -> Seq<char> {
    if names_port(authority) {
        ""@
    } else {
        ":801"@
    }
}

/// Where the host of an address to complete starts: behind the first `://`, if there is one.
pub open spec fn host_start(base: Seq<char>) -> int {
    if text::occurs(base, "://"@) {
        text::find(base, "://"@) + "://"@.len()
    } else {
        0
    }
}

/// The host of an address to complete, with its port: what stands before the next `://` and the
/// next slash.
pub open spec fn host_of(base: Seq<char>) -> Seq<char> {
    let rest = base.skip(host_start(base));
    let part = rest.take(text::find(rest, "://"@));
    part.take(text::index_of(part, '/'))
}

/// A login address, completed: a bare server gets `http://`, the port 801 behind the host and
/// the path of the login; an address that holds that path already stays as it is, but for
/// white space.
pub open spec fn normalized(raw: Seq<char>) -> Seq<char> {
    let s = text::trim(raw);
    if s.len() == 0 || is_complete(s) {
        s
    } else {
        let url = if text::occurs(s, "://"@) {
            s
        } else {
            "http://"@ + s
        };
        let base = server_part(url);
        let end = host_start(base) + host_of(base).len();
        base.take(end) + added_port(host_of(base)) + base.skip(end)
            + "/eportal/portal/login"@
    }
}

/// An address without fragment and query, and without slashes at its end.
pub open spec fn server_part(url: Seq<char>) -> Seq<char> {
    let hash = text::index_of(url, '#');
    let mark = text::index_of(url, '?');
    text::trim_end_char(
        url.take(
            if hash < mark {
                hash
            } else {
                mark
            },
        ),
        '/',
    )
}

/// The server of a login address: its scheme, host and port.
pub open spec fn base_of(auth_url: Seq<char>) -> Seq<char> {
    text::trim_end_char(auth_url.take(authority_end(auth_url)), '/')
}

/// What is wrong with settings, in the order in which it is told.
pub open spec fn problems(c: Settings) -> Seq<Seq<char>> {
    let student = if text::is_blank(c.student_id) {
        seq!["学号未填写（student_id）"@]
    } else {
        seq![]
    };
    let password = if c.password.len() == 0 {
        seq!["密码未填写（password）"@]
    } else {
        seq![]
    };
    let auth = if text::is_blank(c.auth_url) {
        seq!["认证服务器地址未填写（auth_url）"@]
    } else if http::split_url(c.auth_url) is None {
        seq!["认证服务器地址无法解析："@ + c.auth_url]
    } else {
        seq![]
    };
    let check = if http::split_url(c.check_url) is None {
        seq!["连通性检测地址无法解析："@ + c.check_url]
    } else {
        seq![]
    };
    let fixed = if c.fixed_ip is Some && !ipdetect::usable(ipdetect::octets(c.fixed_ip->0)) {
        seq!["fixed_ip 不是可用的 IPv4 地址："@ + c.fixed_ip->0]
    } else {
        seq![]
    };
    student + password + auth + check + fixed
}

/// The texts of a list of strings.
pub open spec fn string_texts(v: Seq<String>) -> Seq<Seq<char>> {
    v.map_values(|s: String| s@)
}

fn server_part_of(url: &[char]) -> (r: &[char])
    ensures
        r@ == server_part(url@),
{
    let hash = text::find_char(url, '#');
    let mark = text::find_char(url, '?');
    let n: usize = if hash < mark {
        hash
    } else {
        mark
    };
    text::trimmed_end_char(text::head(url, n), '/')
}

fn find_server_end(s: &[char]) -> (r: usize)
    ensures
        r == server_end(s@),
        r <= s@.len(),
{
    let slash = text::find_char(s, '/');
    let mark = text::find_char(s, '?');
    let hash = text::find_char(s, '#');
    proof {
        text::lemma_index_of(s@, '/');
        text::lemma_index_of(s@, '?');
        text::lemma_index_of(s@, '#');
    }
    if slash <= mark && slash <= hash {
        slash
    } else if mark <= hash {
        mark
    } else {
        hash
    }
}

fn find_scheme_len(s: &[char]) -> (r: usize)
    ensures
        r == scheme_len(s@),
        r <= s@.len(),
{
    let sep = text::chars_of("://");
    match text::find_text(s, sep.as_slice()) {
        Some(k) => {
            assert(k + sep@.len() <= s.len());
            if k < find_server_end(s) {
                k + sep.len()
            } else {
                0
            }
        },
        None => 0,
    }
}

fn find_authority_end(s: &[char]) -> (r: usize)
    ensures
        r == authority_end(s@),
        scheme_len(s@) <= r <= s@.len(),
{
    let n = find_scheme_len(s);
    let rest = text::tail(s, n);
    let k = find_server_end(rest);
    assert(n + k <= s.len());
    n + k
}

fn find_host(base: &[char]) -> (r: (usize, usize))
    ensures
        r.0 == host_start(base@),
        r.0 <= r.1 <= base@.len(),
        base@.subrange(r.0 as int, r.1 as int) == host_of(base@),
        r.1 == host_start(base@) + host_of(base@).len(),
{
    let sep = text::chars_of("://");
    let start: usize = match text::find_text(base, sep.as_slice()) {
        Some(k) => {
            assert(k + sep@.len() <= base.len());
            k + sep.len()
        },
        None => 0,
    };
    let rest = text::tail(base, start);
    let n: usize = match text::find_text(rest, sep.as_slice()) {
        Some(k) => k,
        None => rest.len(),
    };
    proof {
        text::lemma_find(rest@, "://"@);
    }
    let part = text::head(rest, n);
    let k = text::find_char(part, '/');
    proof {
        text::lemma_index_of(part@, '/');
        assert(base@.subrange(start as int, start + k) =~= host_of(base@));
    }
    assert(start + k <= base.len());
    (start, start + k)
}

fn has_port(authority: &[char]) -> (r: bool)
    ensures
        r == names_port(authority@),
{
    let host = text::tail(authority, text::find_after_last(authority, ']'));
    let colon = text::find_char(host, ':');
    assert(host@.contains(':') == (colon < host@.len())) by {
        if colon < host@.len() {
            assert(host@[colon as int] == ':');
        }
    }
    colon < host.len()
}

impl Config {
    /// Completes a login address: `10.0.0.1`, `http://10.0.0.1/` and
    /// `http://10.0.0.1:801/eportal/portal/login` come out the same.
    pub fn normalize_auth_url(raw: &str) -> (r: String)
        ensures
            r@ == normalized(raw@),
    {
        let v = text::chars_of(raw);
        let s = text::trimmed(v.as_slice());
        let scheme = find_scheme_len(s);
        if s.len() == 0 || text::find_lit(text::tail(s, scheme), "/eportal").is_some() {
            return text::string_of(s);
        }
        let mut url = String::new();
        if text::find_lit(s, "://").is_none() {
            url = "http://".to_owned();
        }
        text::push_chars(&mut url, s);
        assert(text::occurs(s@, "://"@) ==> url@ =~= s@);
        let u = text::chars_of(url.as_str());
        let base = server_part_of(u.as_slice());
        let (start, end) = find_host(base);
        let host = slice_subrange(base, start, end);
        let mut out = text::string_of(text::head(base, end));
        out.append(
            if has_port(host) {
                ""
            } else {
                ":801"
            },
        );
        text::push_chars(&mut out, text::tail(base, end));
        out.append("/eportal/portal/login");
        out
    }

    /// The server of the portal, with scheme and port, such as `http://10.0.0.1:801`.
    pub fn portal_base(&self) -> (r: &str)
        ensures
            r@ == base_of(self@.auth_url),
    {
        let v = text::chars_of(self.auth_url.as_str());
        let part = text::head(v.as_slice(), find_authority_end(v.as_slice()));
        let base = text::trimmed_end_char(part, '/');
        proof {
            text::lemma_trim_end_char_is_prefix(part@, '/');
            assert(self.auth_url@.subrange(0, base@.len() as int) =~= part@.take(
                base@.len() as int,
            ));
        }
        self.auth_url.as_str().substring_char(0, base.len())
    }

    /// The login page of the portal.
    pub fn login_page_url(&self) -> (r: String)
        ensures
            r@ == base_of(self@.auth_url) + "/srun_portal_pc.php?ac_id=1&"@,
    {
        self.portal_base().to_owned().concat("/srun_portal_pc.php?ac_id=1&")
    }

    /// The configuration that UCI text describes. What is missing keeps its default.
    pub fn parse(s: &str) -> (r: Self)
        ensures
            r@ == parsed(s@),
    {
        let sections = parse_uci(s);
        let ghost all = section_views(sections@);
        if sections.len() == 0 {
            return Config::default();
        }
        let mut k: usize = 0;
        while k < sections.len() && !is_main(&sections[k])
            invariant
                k <= sections@.len(),
                all == section_views(sections@),
                forall|j: int| 0 <= j < k ==> (#[trigger] all[j]).name != Some("main"@),
            decreases sections@.len() - k,
        {
            k += 1;
        }
        proof {
            lemma_main_index_is(all, k as int);
        }
        if k == sections.len() {
            k = 0;
        }
        assert(all[k as int] == sections@[k as int]@);
        Config::from_section(&sections[k])
    }

    fn from_section(sec: &Section) -> (r: Self)
        ensures
            r@ == settings_of(sec@.options),
    {
        let mut cfg = Config::default();
        if let Some(v) = sec.get("enabled") {
            if let Some(b) = parse_bool(v) {
                cfg.enabled = b;
            }
        }
        if let Some(v) = sec.get("auth_url") {
            cfg.auth_url = Config::normalize_auth_url(v);
        }
        if let Some(v) = sec.get("check_url") {
            if !text::blank(v) {
                cfg.check_url = text::trimmed_string(v);
            }
        }
        if let Some(v) = sec.get("check_interval") {
            if let Some(n) = parse_bounded_u64(v, 1, 3600) {
                cfg.check_interval = Duration::from_secs(n);
            }
        }
        if let Some(v) = sec.get("wan_iface") {
            cfg.wan_iface = non_empty(v);
        }
        if let Some(v) = sec.get("fixed_ip") {
            cfg.fixed_ip = non_empty(v);
        }
        if let Some(v) = sec.get("student_id") {
            cfg.student_id = text::trimmed_string(v);
        }
        if let Some(v) = sec.get("operator") {
            if let Some(op) = Operator::parse(v) {
                cfg.operator = op;
            }
        }
        if let Some(v) = sec.get("password") {
            cfg.password = v.to_owned();
        }
        if let Some(v) = sec.get("retry_interval") {
            if let Some(n) = parse_bounded_u64(v, 1, 3600) {
                cfg.retry_interval = Duration::from_secs(n);
            }
        }
        if let Some(v) = sec.get("max_retries") {
            if let Some(n) = parse_bounded_u64(v, 1, 100) {
                cfg.max_retries = n as u32;
            }
        }
        cfg
    }

    /// The configuration that a read of its file gives: the defaults where there is no file.
    pub fn load(contents: Option<&str>) -> (r: Self)
        ensures
            r@ == (match contents {
                Some(s) => parsed(s@),
                None => default_settings(),
            }),
    {
        match contents {
            Some(s) => Config::parse(s),
            None => Config::default(),
        }
    }

    /// Where the configuration file is.
    pub fn default_path() -> (r: &'static str)
        ensures
            r@ == UCI_PATH@,
    {
        UCI_PATH
    }

    /// What is wrong with the configuration; nothing where it is complete.
    pub fn validate(&self) -> (r: Vec<String>)
        ensures
            string_texts(r@) == problems(self@),
    {
        let mut out: Vec<String> = Vec::new();
        if text::blank(self.student_id.as_str()) {
            tell(&mut out, "学号未填写（student_id）".to_owned());
        }
        if self.password.as_str().is_empty() {
            tell(&mut out, "密码未填写（password）".to_owned());
        }
        if text::blank(self.auth_url.as_str()) {
            tell(&mut out, "认证服务器地址未填写（auth_url）".to_owned());
        } else if http::parse_url(self.auth_url.as_str()).is_none() {
            tell(&mut out, "认证服务器地址无法解析：".to_owned().concat(self.auth_url.as_str()));
        }
        if http::parse_url(self.check_url.as_str()).is_none() {
            tell(&mut out, "连通性检测地址无法解析：".to_owned().concat(self.check_url.as_str()));
        }
        if let Some(ip) = &self.fixed_ip {
            if !ipdetect::is_usable_ipv4(ip.as_str()) {
                tell(&mut out, "fixed_ip 不是可用的 IPv4 地址：".to_owned().concat(ip.as_str()));
            }
        }
        assert(string_texts(out@) =~= problems(self@));
        out
    }
}

fn is_main(s: &Section) -> (r: bool)
    ensures
        r == (s@.name == Some("main"@)),
{
    match &s.name {
        Some(n) => text::same_str(n.as_str(), "main"),
        None => false,
    }
}

fn tell(out: &mut Vec<String>, problem: String)
    ensures
        string_texts(final(out)@) == string_texts(old(out)@).push(problem@),
{
    let ghost before = string_texts(out@);
    out.push(problem);
    assert(string_texts(out@) =~= before.push(problem@));
}

// ---------------------------------------------------------------------------
// What can be relied on
// ---------------------------------------------------------------------------

/// Every operator is read back from its name.
pub proof fn law_operator_name_reads_back(op: Operator)
    ensures
        operator_of(operator_name(op)) == Some(op),
{
    reveal_strlit("campus");
    reveal_strlit("cmcc");
    reveal_strlit("unicom");
    reveal_strlit("telecom");
    let s = operator_name(op);
    text::lemma_trim(s);
    assert(text::lower_text(s) =~= s);
    assert("campus"@[1] == 'a' && "cmcc"@[1] == 'm' && "unicom"@[1] == 'n' && "telecom"@[1]
        == 'e');
}

/// A text as it is written in single quotes: a backslash goes before every quote and every
/// backslash.
pub open spec fn escape(s: Seq<char>) -> Seq<char>
    decreases s.len(),
{
    if s.len() == 0 {
        seq![]
    } else if s[0] == '\'' || s[0] == '\\' {
        seq!['\\', s[0]] + escape(s.skip(1))
    } else {
        seq![s[0]] + escape(s.skip(1))
    }
}

proof fn lemma_unescape_escape(s: Seq<char>)
    ensures
        unescape(escape(s)) == s,
    decreases s.len(),
{
    if s.len() > 0 {
        let rest = escape(s.skip(1));
        lemma_unescape_escape(s.skip(1));
        if s[0] == '\'' || s[0] == '\\' {
            assert(escape(s).skip(2) =~= rest);
        } else {
            assert(escape(s).skip(1) =~= rest);
        }
        assert(unescape(escape(s)) =~= s);
    } else {
        assert(unescape(escape(s)) =~= s);
    }
}

/// Every value can be written in single quotes, and is read back as it was: quotes,
/// backslashes, white space and whatever else it holds.
pub proof fn law_quoted_value_reads_back(v: Seq<char>)
    ensures
        uci_value("'"@ + escape(v) + "'"@) == v,
{
    reveal_strlit("'");
    let s = "'"@ + escape(v) + "'"@;
    text::lemma_trim(s);
    assert(s[0] == '\'' && s.last() == '\'');
    assert(s.subrange(1, s.len() - 1) =~= escape(v));
    lemma_unescape_escape(v);
}

/// Of two options of one name the later one counts, and an option leaves those of other names
/// alone; the case of the letters in a name does not matter.
pub proof fn law_later_option_wins(
    o: Seq<(Seq<char>, Seq<char>)>,
    name: Seq<char>,
    value: Seq<char>,
    key: Seq<char>,
)
    ensures
        option_value(o.push((name, value)), key) == (if text::lower_text(name) == text::lower_text(
            key,
        ) {
            Some(value)
        } else {
            option_value(o, key)
        }),
{
    assert(o.push((name, value)).drop_last() =~= o);
}

/// Whatever the configuration holds, the settings make sense: the intervals lie between a
/// second and an hour, a burst has between one and a hundred attempts, and neither an
/// address nor an interface is set to a blank.
pub proof fn law_parsed_makes_sense(s: Seq<char>)
    ensures
        time::seconds(1) <= parsed(s).check_interval <= time::seconds(3600),
        time::seconds(1) <= parsed(s).retry_interval <= time::seconds(3600),
        1 <= parsed(s).max_retries <= 100,
        parsed(s).fixed_ip matches Some(ip) ==> !text::is_blank(ip),
        parsed(s).wan_iface matches Some(name) ==> !text::is_blank(name),
{
    reveal_strlit("wan");
    text::lemma_trim("wan"@);
    if let Some(o) = chosen_options(sections_of(text::lines(s))) {
        if let Some(v) = option_value(o, "fixed_ip"@) {
            lemma_trim_twice(v);
        }
        if let Some(v) = option_value(o, "wan_iface"@) {
            lemma_trim_twice(v);
        }
    }
}

proof fn lemma_trim_twice(s: Seq<char>)
    ensures
        text::trim(text::trim(s)) == text::trim(s),
{
    text::lemma_trim(s);
    text::lemma_trim(text::trim(s));
}

/// Completing a login address twice changes no more than completing it once.
pub proof fn law_normalized_is_stable(raw: Seq<char>)
    ensures
        normalized(normalized(raw)) == normalized(raw),
{
    let s = text::trim(raw);
    let n = normalized(raw);
    lemma_trim_twice(raw);
    if s.len() > 0 && !is_complete(s) {
        reveal_strlit("/eportal/portal/login");
        reveal_strlit("/eportal");
        reveal_strlit(":801");
        reveal_strlit("");
        reveal_strlit("http://");
        reveal_strlit("://");
        let url = if text::occurs(s, "://"@) {
            s
        } else {
            "http://"@ + s
        };
        let base = server_part(url);
        let end = host_start(base) + host_of(base).len();
        let port = added_port(host_of(base));
        let mid = base.take(end) + port + base.skip(end);
        let path = "/eportal/portal/login"@;
        let k = mid.len() as int;
        text::lemma_trim(raw);
        lemma_server_part_is_prefix(url);
        lemma_host(base);
        assert(n =~= mid + path);
        if base.len() > 0 {
            assert(base[0] == url[0]);
            assert(mid[0] == base[0] || mid[0] == ':') by {
                if end > 0 {
                    assert(mid[0] == base[0]);
                } else if port.len() > 0 {
                    assert(mid[0] == port[0]);
                }
            }
            assert(mid.last() != '/') by {
                if end < base.len() {
                    assert(mid.last() == base.last());
                } else if port.len() > 0 {
                    assert(mid.last() == port[3]);
                } else {
                    assert(mid.last() == base.last());
                }
            }
        } else if mid.len() > 0 {
            assert(mid =~= port);
        }
        assert(n.last() == path.last());
        text::lemma_trim(n);
        text::lemma_find(n, "://"@);
        let f = text::find(n, "://"@);
        if scheme_len(n) > 0 {
            let w = n.subrange(f, f + 3);
            assert(w[1] == '/' && w[2] == '/');
            assert(n[f + 1] == '/' && n[f + 2] == '/');
            assert(f + 3 <= k) by {
                if f + 1 >= k {
                    assert(n[f + 1] == path[f + 1 - k]);
                    assert(n[f + 2] == path[f + 2 - k]);
                } else if f + 2 == k {
                    assert(n[f + 1] == mid.last());
                }
            }
        }
        let rest = n.skip(scheme_len(n));
        let at = k - scheme_len(n);
        assert(rest.subrange(at, at + 8) =~= "/eportal"@) by {
            assert forall|i: int| 0 <= i < 8 implies rest[at + i] == "/eportal"@[i] by {
                assert(rest[at + i] == path[i]);
            }
        }
        assert(text::occurs_at(rest, "/eportal"@, at));
    }
}

proof fn lemma_host(base: Seq<char>)
    ensures
        0 <= host_start(base) <= host_start(base) + host_of(base).len() <= base.len(),
{
    text::lemma_find(base, "://"@);
    let rest = base.skip(host_start(base));
    text::lemma_find(rest, "://"@);
    text::lemma_index_of(rest.take(text::find(rest, "://"@)), '/');
}

proof fn lemma_server_part_is_prefix(url: Seq<char>)
    ensures
        server_part(url).len() <= url.len(),
        server_part(url).len() > 0 ==> server_part(url).last() != '/',
        server_part(url) == url.take(server_part(url).len() as int),
{
    text::lemma_index_of(url, '#');
    text::lemma_index_of(url, '?');
    let hash = text::index_of(url, '#');
    let mark = text::index_of(url, '?');
    let cut = url.take(
        if hash < mark {
            hash
        } else {
            mark
        },
    );
    text::lemma_trim_end_char_is_prefix(cut, '/');
    let n = server_part(url).len() as int;
    assert(cut.take(n) =~= url.take(n));
}

/// Whether a text is a bare server, a host with or without a port: nothing in it ends a server,
/// and there is no white space.
pub open spec fn bare_server(t: Seq<char>) -> bool {
    &&& t.len() > 0
    &&& forall|i: int|
        0 <= i < t.len() ==> {
            let c = #[trigger] t[i];
            c != '/' && c != '?' && c != '#' && !text::is_space(c)
        }
}

/// The address of a bare server, with its port.
pub open spec fn server_address(server: Seq<char>) -> Seq<char> {
    "http://"@ + server + added_port(server)
}

/// The login address on a bare server.
pub open spec fn login_address(server: Seq<char>) -> Seq<char> {
    server_address(server) + "/eportal/portal/login"@
}

proof fn lemma_server_end_is(t: Seq<char>, rest: Seq<char>)
    requires
        forall|i: int| 0 <= i < t.len() ==> #[trigger] t[i] != '/' && t[i] != '?' && t[i] != '#',
        rest.len() == 0 || rest[0] == '/',
    ensures
        server_end(t + rest) == t.len(),
{
    let s = t + rest;
    let n = t.len() as int;
    text::lemma_index_of(s, '?');
    text::lemma_index_of(s, '#');
    assert forall|i: int| 0 <= i < n implies #[trigger] s[i] != '/' && s[i] != '?' && s[i]
        != '#' by {
        assert(s[i] == t[i]);
    }
    text::lemma_index_of_is(s, '/', n);
    assert(text::index_of(s, '?') >= n) by {
        if text::index_of(s, '?') < n {
            assert(s[text::index_of(s, '?')] != '?');
        }
    }
    assert(text::index_of(s, '#') >= n) by {
        if text::index_of(s, '#') < n {
            assert(s[text::index_of(s, '#')] != '#');
        }
    }
}

/// Whether a text can be the scheme of an address.
pub open spec fn is_scheme(w: Seq<char>) -> bool {
    &&& w.len() > 0
    &&& !text::is_space(w[0])
    &&& forall|i: int|
        0 <= i < w.len() ==> {
            let c = #[trigger] w[i];
            c != ':' && c != '/' && c != '?' && c != '#'
        }
}

/// An address of any scheme.
pub open spec fn address_on(w: Seq<char>, rest: Seq<char>) -> Seq<char> {
    w + "://"@ + rest
}

proof fn lemma_address_on(w: Seq<char>, rest: Seq<char>)
    requires
        is_scheme(w),
    ensures
        "://"@.len() == 3,
        text::occurs(address_on(w, rest), "://"@),
        text::find(address_on(w, rest), "://"@) == w.len(),
        scheme_len(address_on(w, rest)) == w.len() + 3,
        address_on(w, rest).skip(w.len() as int + 3) == rest,
        authority_end(address_on(w, rest)) == w.len() + 3 + server_end(rest),
{
    reveal_strlit("://");
    let s = address_on(w, rest);
    let n = w.len() as int;
    let t = w + seq![':'];
    let behind = seq!['/', '/'] + rest;
    assert(s =~= t + behind);
    assert forall|i: int| 0 <= i < t.len() implies #[trigger] t[i] != '/' && t[i] != '?' && t[i]
        != '#' by {
        if i < n {
            assert(t[i] == w[i]);
        }
    }
    lemma_server_end_is(t, behind);
    assert(s.subrange(n, n + 3) =~= "://"@);
    assert forall|j: int| 0 <= j < n implies !#[trigger] text::occurs_at(s, "://"@, j) by {
        if text::occurs_at(s, "://"@, j) {
            assert(s.subrange(j, j + 3)[0] == ':');
            assert(s[j] == w[j]);
        }
    }
    text::lemma_find_is(s, "://"@, n);
    assert(s.skip(n + 3) =~= rest);
}

proof fn lemma_host_on(w: Seq<char>, t: Seq<char>, rest: Seq<char>)
    requires
        is_scheme(w),
        bare_server(t),
        rest.len() > 0 ==> rest[0] == '/' && t.last() != ':',
    ensures
        host_start(address_on(w, t + rest)) == w.len() + 3,
        host_of(address_on(w, t + rest)) == t,
{
    reveal_strlit("://");
    let behind = t + rest;
    let n = t.len() as int;
    lemma_address_on(w, behind);
    text::lemma_find(behind, "://"@);
    let k = text::find(behind, "://"@);
    if k < n {
        let sep = behind.subrange(k, k + 3);
        assert(sep[0] == ':' && sep[1] == '/');
        assert(behind[k] == ':' && behind[k + 1] == '/');
        assert(behind[k] == t[k]);
        if k + 1 < n {
            assert(behind[k + 1] == t[k + 1]);
        }
        assert(false);
    }
    let part = behind.take(k);
    assert forall|i: int| 0 <= i < n implies #[trigger] part[i] != '/' by {
        assert(part[i] == t[i]);
    }
    if k > n {
        assert(part[n] == rest[0]);
    }
    text::lemma_index_of_is(part, '/', n);
    assert(part.take(n) =~= t);
}

/// An address keeps its scheme, whatever that is. Slashes, a query and a fragment behind the
/// server go away, the port 801 is put there where none is named, and the path of the login
/// follows.
pub proof fn law_completed(w: Seq<char>, t: Seq<char>, slashes: Seq<char>, tail: Seq<char>)
    requires
        is_scheme(w),
        bare_server(t),
        forall|i: int| 0 <= i < slashes.len() ==> #[trigger] slashes[i] == '/',
        tail.len() > 0 ==> (tail[0] == '?' || tail[0] == '#') && !text::is_space(tail.last()),
        !text::occurs(tail, "/eportal"@),
    ensures
        normalized(address_on(w, t + slashes + tail)) == address_on(w, t) + added_port(t)
            + "/eportal/portal/login"@,
{
    reveal_strlit("/eportal");
    let rest = t + slashes + tail;
    let s = address_on(w, rest);
    let n = t.len() as int;
    let m = n + slashes.len();
    lemma_address_on(w, rest);
    assert(s[0] == w[0]);
    assert(s.last() == rest.last());
    assert(!text::is_space(s.last())) by {
        if tail.len() > 0 {
            assert(rest.last() == tail.last());
        } else if slashes.len() > 0 {
            assert(rest.last() == slashes[slashes.len() - 1]);
        } else {
            assert(rest.last() == t[n - 1]);
        }
    }
    text::lemma_trim(s);
    assert forall|i: int| !text::occurs_at(rest, "/eportal"@, i) by {
        if text::occurs_at(rest, "/eportal"@, i) {
            let v = rest.subrange(i, i + 8);
            assert(v[0] == '/' && v[1] == 'e');
            assert(rest[i] == v[0] && rest[i + 1] == v[1]);
            if i < n {
                assert(rest[i] == t[i]);
            } else if i < m {
                if i + 1 < m {
                    assert(rest[i + 1] == slashes[i + 1 - n]);
                } else {
                    assert(rest[i + 1] == tail[0]);
                }
            } else {
                assert(tail.subrange(i - m, i - m + 8) =~= v);
                assert(text::occurs_at(tail, "/eportal"@, i - m));
            }
        }
    }
    lemma_server_part_on(w, t, slashes, tail);
    let base = address_on(w, t);
    lemma_host_on(w, t, seq![]);
    assert(t + seq![] =~= t);
    let end = base.len() as int;
    assert(end == w.len() + 3 + n);
    assert(base.take(end) =~= base);
    assert(base.skip(end) =~= Seq::<char>::empty());
    assert(normalized(s) =~= base + added_port(t) + "/eportal/portal/login"@);
}

proof fn lemma_server_part_on(w: Seq<char>, t: Seq<char>, slashes: Seq<char>, tail: Seq<char>)
    requires
        is_scheme(w),
        bare_server(t),
        forall|i: int| 0 <= i < slashes.len() ==> #[trigger] slashes[i] == '/',
        tail.len() > 0 ==> tail[0] == '?' || tail[0] == '#',
    ensures
        server_part(address_on(w, t + slashes + tail)) == address_on(w, t),
{
    reveal_strlit("://");
    let s = address_on(w, t + slashes + tail);
    let n = (w.len() + 3 + t.len()) as int;
    let m = n + slashes.len();
    assert forall|i: int| 0 <= i < m implies #[trigger] s[i] != '#' && s[i] != '?' && (i >= n
        ==> s[i] == '/') by {
        if i < w.len() {
            assert(s[i] == w[i]);
        } else if i < w.len() + 3 {
            assert(s[i] == "://"@[i - w.len()]);
        } else if i < n {
            assert(s[i] == t[i - w.len() - 3]);
        } else {
            assert(s[i] == slashes[i - n]);
        }
    }
    text::lemma_index_of(s, '#');
    text::lemma_index_of(s, '?');
    let hash = text::index_of(s, '#');
    let mark = text::index_of(s, '?');
    assert(hash >= m) by {
        if hash < m {
            assert(s[hash] != '#');
        }
    }
    assert(mark >= m) by {
        if mark < m {
            assert(s[mark] != '?');
        }
    }
    if tail.len() > 0 {
        assert(s[m] == tail[0]);
        if tail[0] == '?' {
            text::lemma_index_of_is(s, '?', m);
        } else {
            text::lemma_index_of_is(s, '#', m);
        }
    } else {
        assert(s.len() == m);
    }
    let cut = s.take(m);
    assert(cut[n - 1] == t[t.len() - 1]);
    assert forall|i: int| n <= i < cut.len() implies #[trigger] cut[i] == '/' by {
        assert(cut[i] == s[i]);
    }
    text::lemma_trim_end_char_is(cut, '/', n);
    assert(cut.take(n) =~= address_on(w, t));
}

/// What follows `http://` in an address.
proof fn lemma_http(rest: Seq<char>)
    ensures
        is_scheme("http"@),
        "http://"@ + rest == address_on("http"@, rest),
        "http"@.len() == 4,
{
    reveal_strlit("http");
    reveal_strlit("http://");
    reveal_strlit("://");
    assert("http"@ + "://"@ =~= "http://"@);
}

proof fn lemma_completed(t: Seq<char>, slashes: Seq<char>)
    requires
        bare_server(t),
        forall|i: int| 0 <= i < slashes.len() ==> #[trigger] slashes[i] == '/',
    ensures
        normalized("http://"@ + t + slashes) == login_address(t),
{
    let none = Seq::<char>::empty();
    reveal_strlit("/eportal");
    lemma_http(t);
    lemma_http(t + slashes);
    assert(t + slashes + none =~= t + slashes);
    assert("http://"@ + t + slashes =~= "http://"@ + (t + slashes));
    law_completed("http"@, t, slashes, none);
}

/// A login address may be given by its server alone, with the scheme, with a slash behind
/// that, or in full: all mean the same address, on port 801 where the server names no port.
/// Its server is found in it again, and the path of the login is all that follows.
pub proof fn law_forms_of_an_address(t: Seq<char>)
    requires
        bare_server(t),
    ensures
        normalized(t) == login_address(t),
        normalized("http://"@ + t) == login_address(t),
        normalized("http://"@ + t + "/"@) == login_address(t),
        normalized(login_address(t)) == login_address(t),
        base_of(login_address(t)) == server_address(t),
        base_of(login_address(t)).last() != '/',
        base_of(login_address(t)) + "/eportal/portal/login"@ == login_address(t),
{
    reveal_strlit("/");
    reveal_strlit("://");
    reveal_strlit("/eportal");
    reveal_strlit("/eportal/portal/login");
    reveal_strlit(":801");
    reveal_strlit("");
    lemma_completed(t, seq![]);
    lemma_completed(t, "/"@);
    assert("http://"@ + t + seq![] =~= "http://"@ + t);
    text::lemma_trim(t);
    assert forall|i: int|
        !text::occurs_at(t, "/eportal"@, i) && !text::occurs_at(t, "://"@, i) by {
        if text::occurs_at(t, "/eportal"@, i) {
            assert(t.subrange(i, i + 8)[0] == '/');
            assert(t[i] == '/');
        }
        if text::occurs_at(t, "://"@, i) {
            assert(t.subrange(i, i + 3)[1] == '/');
            assert(t[i + 1] == '/');
        }
    }
    assert(t.skip(0) =~= t);
    assert(normalized(t) == normalized("http://"@ + t)) by {
        let s = "http://"@ + t;
        reveal_strlit("http://");
        assert(s.last() == t[t.len() - 1]);
        text::lemma_trim(s);
        lemma_http(t);
        lemma_address_on("http"@, t);
    }
    law_normalized_is_stable(t);
    let server = t + added_port(t);
    let path = "/eportal/portal/login"@;
    assert(login_address(t) =~= "http://"@ + (server + path));
    lemma_http(server + path);
    lemma_address_on("http"@, server + path);
    assert forall|i: int| 0 <= i < server.len() implies #[trigger] server[i] != '/' && server[i]
        != '?' && server[i] != '#' by {
        if i < t.len() {
            assert(server[i] == t[i]);
        } else {
            assert(server[i] == added_port(t)[i - t.len()]);
        }
    }
    lemma_server_end_is(server, path);
    let base = server_address(t);
    assert(base =~= "http://"@ + server);
    reveal_strlit("http://");
    assert(login_address(t).take(7 + server.len() as int) =~= base);
    assert(base.last() == server[server.len() - 1]);
    text::lemma_trim_end_char_is(base, '/', base.len() as int);
    assert(base.take(base.len() as int) =~= base);
}

/// The login address on a host is read as that host, the port that was given with it or 801,
/// and the path of the login.
pub proof fn law_parts_of_an_address(host: Seq<char>, port: int)
    requires
        bare_server(host),
        forall|i: int| 0 <= i < host.len() ==> #[trigger] host[i] != ':' && host[i] != ']',
        1 <= port <= 65535,
    ensures
        login_address(host + ":"@ + digits::decimal(port as nat)) == "http://"@ + host + ":"@
            + digits::decimal(port as nat) + "/eportal/portal/login"@,
        login_address(host) == "http://"@ + host + ":801"@ + "/eportal/portal/login"@,
        http::split_url(login_address(host + ":"@ + digits::decimal(port as nat))) == Some(
            (http::Scheme::Http, host, port, "/eportal/portal/login"@),
        ),
        http::split_url(login_address(host)) == Some(
            (http::Scheme::Http, host, 801int, "/eportal/portal/login"@),
        ),
{
    reveal_strlit(":");
    reveal_strlit("");
    reveal_strlit(":801");
    reveal_strlit("/eportal/portal/login");
    let path = "/eportal/portal/login"@;
    let d = digits::decimal(port as nat);
    let server = host + ":"@ + d;
    let n = host.len() as int;
    digits::lemma_decimal(port as nat);
    assert forall|i: int| 0 <= i < server.len() implies #[trigger] server[i] != ']' by {
        if i < n {
            assert(server[i] == host[i]);
        } else if i > n {
            assert(digits::is_digit(d[i - n - 1]));
        }
    }
    text::lemma_after_last_is(server, ']', 0);
    assert(server.skip(0) =~= server);
    assert(server[n] == ':');
    assert(login_address(server) =~= "http://"@ + (host + ":"@ + d + path));
    assert(login_address(server) =~= "http://"@ + host + ":"@ + d + path);
    http::law_address_with_port(http::Scheme::Http, host, port, path);
    text::lemma_after_last_is(host, ']', 0);
    assert(host.skip(0) =~= host);
    assert(!names_port(host));
    reveal_with_fuel(digits::decimal, 4);
    assert(":"@ + digits::decimal(801) =~= ":801"@);
    assert(login_address(host) =~= "http://"@ + (host + ":"@ + digits::decimal(801) + path)) by {
        assert(host + ":"@ + digits::decimal(801) =~= host + ":801"@);
    }
    http::law_address_with_port(http::Scheme::Http, host, 801, path);
}

/// An address with a path of its own and no port gets the port 801 behind the host, where it is
/// read as the port.
pub proof fn law_port_stands_behind_the_host(host: Seq<char>, path: Seq<char>)
    requires
        bare_server(host),
        forall|i: int| 0 <= i < host.len() ==> #[trigger] host[i] != ':' && host[i] != ']',
        path.len() > 0 && path[0] == '/',
        forall|i: int| 0 <= i < path.len() ==> #[trigger] path[i] != '?' && path[i] != '#',
        path.last() != '/' && !text::is_space(path.last()),
        !text::occurs(path, "/eportal"@),
    ensures
        normalized("http://"@ + host + path) == "http://"@ + host + ":801"@ + path
            + "/eportal/portal/login"@,
        http::split_url(normalized("http://"@ + host + path)) == Some(
            (http::Scheme::Http, host, 801int, path + "/eportal/portal/login"@),
        ),
{
    let s = "http://"@ + host + path;
    assert(s =~= "http://"@ + (host + path));
    lemma_http(host + path);
    lemma_http(host);
    lemma_path_is_kept("http"@, host, path);
    let end = path + "/eportal/portal/login"@;
    assert("http://"@ + host + ":801"@ + path + "/eportal/portal/login"@ =~= "http://"@ + (host
        + ":801"@ + end));
    lemma_port_text(host);
    http::law_address_with_port(http::Scheme::Http, host, 801, end);
}

proof fn lemma_port_text(host: Seq<char>)
    ensures
        host + ":"@ + digits::decimal(801) == host + ":801"@,
{
    reveal_strlit(":");
    reveal_strlit(":801");
    reveal_with_fuel(digits::decimal, 4);
    assert(":"@ + digits::decimal(801) =~= ":801"@);
    assert(host + ":"@ + digits::decimal(801) =~= host + (":"@ + digits::decimal(801)));
}

proof fn lemma_path_is_kept(w: Seq<char>, host: Seq<char>, path: Seq<char>)
    requires
        is_scheme(w),
        bare_server(host),
        forall|i: int| 0 <= i < host.len() ==> #[trigger] host[i] != ':' && host[i] != ']',
        path.len() > 0 && path[0] == '/',
        forall|i: int| 0 <= i < path.len() ==> #[trigger] path[i] != '?' && path[i] != '#',
        path.last() != '/' && !text::is_space(path.last()),
        !text::occurs(path, "/eportal"@),
    ensures
        normalized(address_on(w, host + path)) == address_on(w, host) + ":801"@ + path
            + "/eportal/portal/login"@,
{
    let rest = host + path;
    let s = address_on(w, rest);
    let end = (w.len() + 3 + host.len()) as int;
    lemma_address_on(w, rest);
    assert(s[0] == w[0]);
    assert(s.last() == path.last());
    text::lemma_trim(s);
    lemma_path_behind_host(host, path);
    lemma_server_part_same(w, host, path);
    lemma_host_on(w, host, path);
    assert(s.take(end) =~= address_on(w, host));
    assert(s.skip(end) =~= path);
    text::lemma_after_last_is(host, ']', 0);
    assert(host.skip(0) =~= host);
    assert(!names_port(host));
}

proof fn lemma_path_behind_host(host: Seq<char>, path: Seq<char>)
    requires
        bare_server(host),
        !text::occurs(path, "/eportal"@),
    ensures
        !text::occurs(host + path, "/eportal"@),
{
    reveal_strlit("/eportal");
    let rest = host + path;
    let n = host.len() as int;
    assert forall|i: int| !text::occurs_at(rest, "/eportal"@, i) by {
        if text::occurs_at(rest, "/eportal"@, i) {
            let v = rest.subrange(i, i + 8);
            assert(v[0] == '/');
            assert(rest[i] == v[0]);
            if i < n {
                assert(rest[i] == host[i]);
            } else {
                assert(path.subrange(i - n, i - n + 8) =~= v);
                assert(text::occurs_at(path, "/eportal"@, i - n));
            }
        }
    }
}

proof fn lemma_server_part_same(w: Seq<char>, host: Seq<char>, path: Seq<char>)
    requires
        is_scheme(w),
        bare_server(host),
        path.len() > 0 && path.last() != '/',
        forall|i: int| 0 <= i < path.len() ==> #[trigger] path[i] != '?' && path[i] != '#',
    ensures
        server_part(address_on(w, host + path)) == address_on(w, host + path),
{
    reveal_strlit("://");
    let s = address_on(w, host + path);
    let n = (w.len() + 3) as int;
    assert forall|i: int| 0 <= i < s.len() implies #[trigger] s[i] != '#' && s[i] != '?' by {
        if i < w.len() {
            assert(s[i] == w[i]);
        } else if i < n {
            assert(s[i] == "://"@[i - w.len()]);
        } else if i < n + host.len() {
            assert(s[i] == host[i - n]);
        } else {
            assert(s[i] == path[i - n - host.len()]);
        }
    }
    text::lemma_index_of_is(s, '#', s.len() as int);
    text::lemma_index_of_is(s, '?', s.len() as int);
    assert(s.take(s.len() as int) =~= s);
    assert(s.last() == path.last());
    text::lemma_trim_end_char_is(s, '/', s.len() as int);
}

/// A text names an operator exactly where it is its name, whatever the case of the letters and
/// the white space around it.
pub proof fn law_operator_is_named(s: Seq<char>)
    ensures
        operator_of(s) == Some(Operator::Campus) <==> text::lower_text(text::trim(s)) == "campus"@,
        operator_of(s) == Some(Operator::Cmcc) <==> text::lower_text(text::trim(s)) == "cmcc"@,
        operator_of(s) == Some(Operator::Unicom) <==> text::lower_text(text::trim(s)) == "unicom"@,
        operator_of(s) == Some(Operator::Telecom) <==> text::lower_text(text::trim(s))
            == "telecom"@,
        operator_name(Operator::Campus) == "campus"@,
        operator_name(Operator::Cmcc) == "cmcc"@,
        operator_name(Operator::Unicom) == "unicom"@,
        operator_name(Operator::Telecom) == "telecom"@,
{
    reveal_strlit("campus");
    reveal_strlit("cmcc");
    reveal_strlit("unicom");
    reveal_strlit("telecom");
    assert("campus"@[1] == 'a' && "cmcc"@[1] == 'm' && "unicom"@[1] == 'n' && "telecom"@[1]
        == 'e');
}

/// A value in double quotes is what stands between them, as it is; and a bare value, which no
/// quotes stand around, is itself. White space around either does not matter.
pub proof fn law_value_reads_back(v: Seq<char>, bare: Seq<char>, a: Seq<char>, b: Seq<char>)
    requires
        text::all_space(a) && text::all_space(b),
        text::is_trimmed(bare),
        bare.len() < 2 || bare[0] != bare.last() || (bare[0] != '"' && bare[0] != '\''),
    ensures
        uci_value(a + ("\""@ + v + "\""@) + b) == v,
        uci_value(a + bare + b) == bare,
{
    reveal_strlit("\"");
    let s = "\""@ + v + "\""@;
    assert(s[0] == '"' && s.last() == '"');
    text::law_trim(a, s, b);
    assert(s.subrange(1, s.len() - 1) =~= v);
    text::law_trim(a, bare, b);
}

/// In single quotes a backslash goes away before a quote and before a backslash, and stays
/// before anything else.
pub proof fn law_unescape(c: char, rest: Seq<char>)
    ensures
        c != '\\' ==> unescape(seq![c] + rest) == seq![c] + unescape(rest),
        c == '\'' || c == '\\' ==> unescape(seq!['\\', c] + rest) == seq![c] + unescape(rest),
        c != '\'' && c != '\\' ==> unescape(seq!['\\', c] + rest) == seq!['\\', c] + unescape(
            rest,
        ),
        unescape(seq!['\\']) == seq!['\\'],
        unescape(Seq::<char>::empty()) == Seq::<char>::empty(),
{
    assert((seq![c] + rest).skip(1) =~= rest);
    assert((seq!['\\', c] + rest).skip(2) =~= rest);
    assert(seq!['\\'].skip(1) =~= Seq::<char>::empty());
}

/// Whether a text is one word.
pub open spec fn is_word(s: Seq<char>) -> bool {
    s.len() > 0 && forall|i: int| 0 <= i < s.len() ==> !text::is_space(#[trigger] s[i])
}

/// Two things with white space between them and around them.
pub open spec fn spaced(
    a: Seq<char>,
    first: Seq<char>,
    gap: Seq<char>,
    second: Seq<char>,
    b: Seq<char>,
) -> Seq<char> {
    a + (first + gap + second) + b
}

proof fn lemma_word_first(word: Seq<char>, gap: Seq<char>, rest: Seq<char>)
    requires
        is_word(word),
        gap.len() > 0 && text::all_space(gap),
        rest.len() > 0 && text::is_trimmed(rest),
    ensures
        ({
            let line = word + gap + rest;
            &&& text::word_len(line) == word.len()
            &&& line.take(word.len() as int) == word
            &&& text::trim(line.skip(word.len() as int)) == rest
            &&& text::trim(after_word(line)) == rest
            &&& text::is_trimmed(line)
            &&& line.len() > word.len()
        }),
{
    let line = word + gap + rest;
    let n = word.len() as int;
    assert(line =~= word + (gap + rest));
    assert((gap + rest)[0] == gap[0]);
    text::lemma_word(word, gap + rest);
    assert(line.take(n) =~= word);
    let none = Seq::<char>::empty();
    assert(line.skip(n) =~= gap + rest + none);
    text::law_trim(gap, rest, none);
    let short = gap.skip(1);
    assert(text::all_space(short)) by {
        assert forall|i: int| 0 <= i < short.len() implies text::is_space(#[trigger] short[i]) by {
            assert(short[i] == gap[i + 1]);
        }
    }
    assert(line.skip(n + 1) =~= short + rest + none);
    text::law_trim(short, rest, none);
    assert(line[0] == word[0]);
    assert(line.last() == rest.last());
}

/// An option line adds its name and its value to the section that was opened last, and leaves
/// everything else alone; so does a list line. Before any section it is dropped.
pub proof fn law_option_line(
    secs: Seq<SectionView>,
    a: Seq<char>,
    keyword: Seq<char>,
    gap: Seq<char>,
    key: Seq<char>,
    gap2: Seq<char>,
    value: Seq<char>,
    b: Seq<char>,
)
    requires
        text::all_space(a) && text::all_space(b),
        keyword == "option"@ || keyword == "list"@,
        gap.len() > 0 && text::all_space(gap),
        gap2.len() > 0 && text::all_space(gap2),
        is_word(key),
        value.len() > 0 && text::is_trimmed(value),
    ensures
        ({
            let n = with_line(secs, spaced(a, keyword, gap, key + gap2 + value, b));
            if secs.len() == 0 {
                n == secs
            } else {
                &&& n.len() == secs.len()
                &&& n.drop_last() == secs.drop_last()
                &&& n.last().kind == secs.last().kind
                &&& n.last().name == secs.last().name
                &&& n.last().options == secs.last().options.push((key, uci_value(value)))
            }
        }),
{
    reveal_strlit("option");
    reveal_strlit("list");
    reveal_strlit("config");
    assert("option"@[0] == 'o' && "config"@[0] == 'c' && "list"@[0] == 'l');
    let rest = key + gap2 + value;
    lemma_word_first(key, gap2, value);
    let line = keyword + gap + rest;
    assert(is_word(keyword));
    lemma_word_first(keyword, gap, rest);
    text::law_trim(a, line, b);
    let raw = spaced(a, keyword, gap, rest, b);
    assert(text::trim(raw) == line);
    assert(line[0] == keyword[0]);
    assert(text::trim_start(rest) == rest);
    lemma_trim_twice(rest.skip(key.len() as int));
    if secs.len() > 0 {
        let n = with_line(secs, raw);
        assert(n.drop_last() =~= secs.drop_last());
    }
}

/// A section line opens a section, without options, of its kind and under its name; an empty
/// name is none.
pub proof fn law_section_line(
    secs: Seq<SectionView>,
    a: Seq<char>,
    gap: Seq<char>,
    kind: Seq<char>,
    gap2: Seq<char>,
    name: Seq<char>,
    b: Seq<char>,
)
    requires
        text::all_space(a) && text::all_space(b),
        gap.len() > 0 && text::all_space(gap),
        gap2.len() > 0 && text::all_space(gap2),
        is_word(kind),
        name.len() > 0 && text::is_trimmed(name),
    ensures
        with_line(secs, spaced(a, "config"@, gap, kind + gap2 + name, b)) == secs.push(
            SectionView {
                kind,
                name: if uci_value(name).len() > 0 {
                    Some(uci_value(name))
                } else {
                    None
                },
                options: seq![],
            },
        ),
        with_line(secs, spaced(a, "config"@, gap, kind, b)) == secs.push(
            SectionView { kind, name: None, options: seq![] },
        ),
{
    reveal_strlit("config");
    let rest = kind + gap2 + name;
    lemma_word_first(kind, gap2, name);
    lemma_word_first("config"@, gap, rest);
    let line = "config"@ + gap + rest;
    text::law_trim(a, line, b);
    assert(line[0] == 'c');
    assert(rest.skip(kind.len() as int + 1) == after_word(rest));
    lemma_trim_twice(after_word(rest));
    lemma_word_first("config"@, gap, kind);
    let short = "config"@ + gap + kind;
    text::law_trim(a, short, b);
    assert(short[0] == 'c');
    let none = Seq::<char>::empty();
    assert(kind + none =~= kind);
    text::lemma_word(kind, none);
    assert(kind.take(kind.len() as int) =~= kind);
}

/// Blank lines, comments and lines with any other keyword change nothing.
pub proof fn law_other_lines(
    secs: Seq<SectionView>,
    a: Seq<char>,
    comment: Seq<char>,
    keyword: Seq<char>,
    gap: Seq<char>,
    rest: Seq<char>,
    b: Seq<char>,
)
    requires
        text::all_space(a) && text::all_space(b),
        comment.len() > 0 && comment[0] == '#' && !text::is_space(comment.last()),
        is_word(keyword) && keyword != "config"@ && keyword != "option"@ && keyword != "list"@,
        gap.len() > 0 && text::all_space(gap),
        rest.len() > 0 && text::is_trimmed(rest),
    ensures
        with_line(secs, a) == secs,
        with_line(secs, a + comment + b) == secs,
        with_line(secs, spaced(a, keyword, gap, rest, b)) == secs,
{
    let none = Seq::<char>::empty();
    text::law_trim(a, none, none);
    assert(a + none + none =~= a);
    text::law_trim(a, comment, b);
    lemma_word_first(keyword, gap, rest);
    text::law_trim(a, keyword + gap + rest, b);
}

/// The sections of a text come from its lines, one after the other.
pub proof fn law_sections(ls: Seq<Seq<char>>, line: Seq<char>, s: Seq<char>)
    ensures
        sections_of(Seq::<Seq<char>>::empty()).len() == 0,
        sections_of(ls.push(line)) == with_line(sections_of(ls), line),
        sections_of(text::lines(s)).len() == 0 ==> parsed(s) == default_settings(),
{
    assert(ls.push(line).drop_last() =~= ls);
}

/// The section that counts is the first one named `main`, wherever it stands; where none is
/// named so it is the first section.
pub proof fn law_section_that_counts(s: Seq<char>, k: int)
    requires
        0 <= k <= sections_of(text::lines(s)).len(),
        sections_of(text::lines(s)).len() > 0,
        forall|i: int|
            0 <= i < k ==> (#[trigger] sections_of(text::lines(s))[i]).name != Some("main"@),
        k < sections_of(text::lines(s)).len() ==> sections_of(text::lines(s))[k].name == Some(
            "main"@,
        ),
    ensures
        parsed(s) == settings_of(
            sections_of(text::lines(s))[if k < sections_of(text::lines(s)).len() {
                k
            } else {
                0
            }].options,
        ),
{
    lemma_main_index_is(sections_of(text::lines(s)), k);
}

/// What is set where nothing is configured.
pub proof fn law_defaults()
    ensures
        default_settings().enabled,
        default_settings().auth_url == ""@,
        default_settings().check_url == "http://www.baidu.com"@,
        default_settings().check_interval == 30_000_000_000,
        default_settings().wan_iface == Some("wan"@),
        default_settings().fixed_ip is None,
        default_settings().student_id == ""@,
        default_settings().operator is Campus,
        default_settings().password == ""@,
        default_settings().retry_interval == 10_000_000_000,
        default_settings().max_retries == 3,
{
}

/// What an option sets: the switch by its words, the address of the portal completed, an
/// interval in seconds up to an hour, the number of attempts up to a hundred, and texts
/// without the white space around them, but for the password, which is taken as it is. A value
/// that makes no sense sets nothing.
pub proof fn law_options(o: Seq<(Seq<char>, Seq<char>)>, key: Seq<char>, v: Seq<char>)
    requires
        option_value(o, key) == Some(v),
    ensures
        key == "enabled"@ && (text::trim(v) == "1"@ || text::trim(v) == "true"@ || text::trim(v)
            == "yes"@ || text::trim(v) == "on"@ || text::trim(v) == "enabled"@) ==> settings_of(
            o,
        ).enabled,
        key == "enabled"@ ==> (!settings_of(o).enabled <==> text::trim(v) == "0"@ || text::trim(v)
            == "false"@ || text::trim(v) == "no"@ || text::trim(v) == "off"@ || text::trim(v)
            == "disabled"@),
        key == "auth_url"@ ==> settings_of(o).auth_url == normalized(v),
        key == "check_url"@ ==> settings_of(o).check_url == (if text::trim(v).len() > 0 {
            text::trim(v)
        } else {
            "http://www.baidu.com"@
        }),
        key == "check_interval"@ ==> settings_of(o).check_interval == interval_of(v, 30),
        key == "retry_interval"@ ==> settings_of(o).retry_interval == interval_of(v, 10),
        key == "max_retries"@ ==> settings_of(o).max_retries == (match digits::read_uint(
            text::trim(v),
            u64::MAX as int,
        ) {
            Some(k) => if 1 <= k <= 100 {
                k
            } else {
                3
            },
            None => 3,
        }),
        key == "wan_iface"@ ==> settings_of(o).wan_iface == (if text::trim(v).len() > 0 {
            Some(text::trim(v))
        } else {
            None
        }),
        key == "fixed_ip"@ ==> settings_of(o).fixed_ip == (if text::trim(v).len() > 0 {
            Some(text::trim(v))
        } else {
            None
        }),
        key == "student_id"@ ==> settings_of(o).student_id == text::trim(v),
        key == "password"@ ==> settings_of(o).password == v,
        key == "operator"@ ==> settings_of(o).operator == (match operator_of(v) {
            Some(op) => op,
            None => Operator::Campus,
        }),
{
    lemma_switch_words();
}

/// An interval in nanoseconds: the seconds that a text names, from one to an hour, and else
/// those given.
pub open spec fn interval_of(v: Seq<char>, otherwise: int) -> int {
    match digits::read_uint(text::trim(v), u64::MAX as int) {
        Some(n) => if 1 <= n <= 3600 {
            1_000_000_000 * n
        } else {
            1_000_000_000 * otherwise
        },
        None => 1_000_000_000 * otherwise,
    }
}

proof fn lemma_switch_words()
    ensures
        "1"@.len() == 1 && "1"@[0] == '1',
        "0"@.len() == 1 && "0"@[0] == '0',
        "true"@.len() == 4,
        "yes"@.len() == 3 && "yes"@[0] == 'y',
        "on"@.len() == 2 && "on"@[0] == 'o',
        "enabled"@.len() == 7,
        "false"@.len() == 5,
        "no"@.len() == 2 && "no"@[0] == 'n',
        "off"@.len() == 3 && "off"@[0] == 'o',
        "disabled"@.len() == 8,
{
    reveal_strlit("1");
    reveal_strlit("0");
    reveal_strlit("true");
    reveal_strlit("yes");
    reveal_strlit("on");
    reveal_strlit("enabled");
    reveal_strlit("false");
    reveal_strlit("no");
    reveal_strlit("off");
    reveal_strlit("disabled");
}

/// What no option sets stays at its default, whatever other options are set.
pub proof fn law_unset_options(o: Seq<(Seq<char>, Seq<char>)>)
    ensures
        option_value(o, "enabled"@) is None ==> settings_of(o).enabled,
        option_value(o, "auth_url"@) is None ==> settings_of(o).auth_url == ""@,
        option_value(o, "check_url"@) is None ==> settings_of(o).check_url
            == "http://www.baidu.com"@,
        option_value(o, "check_interval"@) is None ==> settings_of(o).check_interval
            == 30_000_000_000,
        option_value(o, "wan_iface"@) is None ==> settings_of(o).wan_iface == Some("wan"@),
        option_value(o, "fixed_ip"@) is None ==> settings_of(o).fixed_ip is None,
        option_value(o, "student_id"@) is None ==> settings_of(o).student_id == ""@,
        option_value(o, "operator"@) is None ==> settings_of(o).operator is Campus,
        option_value(o, "password"@) is None ==> settings_of(o).password == ""@,
        option_value(o, "retry_interval"@) is None ==> settings_of(o).retry_interval
            == 10_000_000_000,
        option_value(o, "max_retries"@) is None ==> settings_of(o).max_retries == 3,
{
}

/// What is told of settings: each problem exactly where there is it, in this order; nothing is
/// told of settings that are complete and make sense.
pub proof fn law_problems(c: Settings)
    ensures
        problems(c) == Seq::<Seq<char>>::empty() + (if text::trim(c.student_id).len() == 0 {
            seq!["学号未填写（student_id）"@]
        } else {
            seq![]
        }) + (if c.password.len() == 0 {
            seq!["密码未填写（password）"@]
        } else {
            seq![]
        }) + (if text::trim(c.auth_url).len() == 0 {
            seq!["认证服务器地址未填写（auth_url）"@]
        } else if http::split_url(c.auth_url) is None {
            seq!["认证服务器地址无法解析："@ + c.auth_url]
        } else {
            seq![]
        }) + (if http::split_url(c.check_url) is None {
            seq!["连通性检测地址无法解析："@ + c.check_url]
        } else {
            seq![]
        }) + (if c.fixed_ip is Some && !ipdetect::usable(ipdetect::octets(c.fixed_ip->0)) {
            seq!["fixed_ip 不是可用的 IPv4 地址："@ + c.fixed_ip->0]
        } else {
            seq![]
        }),
        problems(c).len() == 0 <==> {
            &&& text::trim(c.student_id).len() > 0
            &&& c.password.len() > 0
            &&& text::trim(c.auth_url).len() > 0
            &&& http::split_url(c.auth_url) is Some
            &&& http::split_url(c.check_url) is Some
            &&& c.fixed_ip is Some ==> ipdetect::usable(ipdetect::octets(c.fixed_ip->0))
        },
{
    let student = if text::trim(c.student_id).len() == 0 {
        seq!["学号未填写（student_id）"@]
    } else {
        seq![]
    };
    assert(Seq::<Seq<char>>::empty() + student =~= student);
}

/// An address that holds the path of the login behind its server stays as it is; white space
/// around it goes away.
pub proof fn law_complete_address_stays(
    a: Seq<char>,
    w: Seq<char>,
    t: Seq<char>,
    rest: Seq<char>,
    b: Seq<char>,
)
    requires
        text::all_space(a) && text::all_space(b),
        is_scheme(w),
        bare_server(t),
        rest.len() > 0 ==> !text::is_space(rest.last()),
    ensures
        normalized(a + address_on(w, t + "/eportal"@ + rest) + b) == address_on(
            w,
            t + "/eportal"@ + rest,
        ),
        normalized(a + b) == Seq::<char>::empty(),
{
    reveal_strlit("/eportal");
    let s = address_on(w, t + "/eportal"@ + rest);
    lemma_address_on(w, t + "/eportal"@ + rest);
    text::law_find(t, "/eportal"@, rest);
    assert(s[0] == w[0]);
    assert(s.last() == (t + "/eportal"@ + rest).last());
    if rest.len() == 0 {
        assert((t + "/eportal"@ + rest).last() == "/eportal"@[7]);
    }
    text::law_trim(a, s, b);
    let none = Seq::<char>::empty();
    text::law_trim(a, none, b);
    assert(a + none + b =~= a + b);
}

/// A server names a port where a colon stands in it, the colons within brackets aside.
pub proof fn law_named_port(host: Seq<char>, inner: Seq<char>, port: Seq<char>)
    requires
        !host.contains(':') && !host.contains(']'),
        !port.contains(']'),
    ensures
        added_port(host) == ":801"@,
        added_port(host + ":"@ + port) == ""@,
        added_port("["@ + inner + "]"@) == ":801"@,
        added_port("["@ + inner + "]"@ + ":"@ + port) == ""@,
{
    reveal_strlit(":");
    reveal_strlit("[");
    reveal_strlit("]");
    assert forall|i: int| 0 <= i < host.len() implies #[trigger] host[i] != ']' by {
        assert(host.contains(host[i]));
    }
    text::lemma_after_last_is(host, ']', 0);
    assert(host.skip(0) =~= host);
    let x = host + ":"@ + port;
    assert forall|i: int| 0 <= i < x.len() implies #[trigger] x[i] != ']' by {
        if i < host.len() {
            assert(x[i] == host[i]);
        } else if i > host.len() {
            assert(x[i] == port[i - host.len() - 1]);
            assert(port.contains(port[i - host.len() - 1]));
        }
    }
    text::lemma_after_last_is(x, ']', 0);
    assert(x.skip(0) =~= x);
    assert(x[host.len() as int] == ':');
    let y = "["@ + inner + "]"@;
    let n = y.len() as int;
    assert(y[n - 1] == ']');
    text::lemma_after_last_is(y, ']', n);
    assert(y.skip(n) =~= Seq::<char>::empty());
    let z = y + ":"@ + port;
    assert(z[n - 1] == ']');
    assert forall|i: int| n <= i < z.len() implies #[trigger] z[i] != ']' by {
        if i > n {
            assert(z[i] == port[i - n - 1]);
            assert(port.contains(port[i - n - 1]));
        }
    }
    text::lemma_after_last_is(z, ']', n);
    assert(z.skip(n)[0] == ':');
}

/// The server of an address is its scheme, host and port, whatever follows them.
pub proof fn law_base(w: Seq<char>, t: Seq<char>, rest: Seq<char>)
    requires
        is_scheme(w),
        bare_server(t),
        rest.len() > 0 ==> rest[0] == '/',
    ensures
        base_of(address_on(w, t + rest)) == address_on(w, t),
{
    reveal_strlit("://");
    let s = address_on(w, t + rest);
    lemma_address_on(w, t + rest);
    lemma_server_end_is(t, rest);
    let base = address_on(w, t);
    assert(s.take(base.len() as int) =~= base);
    assert(base.last() == t[t.len() - 1]);
    text::lemma_trim_end_char_is(base, '/', base.len() as int);
    assert(base.take(base.len() as int) =~= base);
}

}
