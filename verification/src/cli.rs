//! The command line: how it is read, what every command prints, and how it exits.
//!
//! | exit code | meaning |
//! |---|---|
//! | 0 | done, online already, nothing wrong |
//! | 1 | the login failed, or something is wrong with the configuration |
//! | 2 | wrong usage, or the network failed |

use vstd::prelude::*;
use serde_json::Value;
use crate::auth;
use crate::auth::AuthOutcome;
use crate::config;
use crate::config::Config;
use crate::digits;
use crate::guardian;
use crate::http;
use crate::ipdetect;
use crate::ipdetect::AdapterIp;
use crate::json;
use crate::netcheck;
use crate::netcheck::NetStatus;
use crate::text;

verus! {

/// The exit code of success.
pub const EXIT_OK: u8 = 0;

/// The exit code of a failed login and of a wrong configuration.
pub const EXIT_FAIL: u8 = 1;

/// The exit code of wrong usage and of a failing network.
pub const EXIT_USAGE: u8 = 2;

// ---------------------------------------------------------------------------
// Arguments
// ---------------------------------------------------------------------------

/// What the arguments ask for.
#[derive(Debug)]
pub struct Args {
    /// The command.
    pub cmd: String,
    /// The path of the configuration file.
    pub config: String,
    /// Whether to print JSON.
    pub json: bool,
}

/// What [`Args`] say.
#[verifier::ext_equal]
pub ghost struct ArgsView {
    pub cmd: Seq<char>,
    pub config: Seq<char>,
    pub json: bool,
}

impl View for Args {
    type V = ArgsView;

    open spec fn view(&self) -> ArgsView {
        ArgsView { cmd: self.cmd@, config: self.config@, json: self.json }
    }
}

/// What is to be done.
#[derive(Debug)]
pub enum Request {
    /// Print the help and exit.
    Help,
    /// Print the version and exit.
    Version,
    /// Carry out a command.
    Command(Args),
}

/// What is to be done, as [`Request`] lists it.
pub ghost enum RequestView {
    Help,
    Version,
    Command(ArgsView),
}

impl View for Request {
    type V = RequestView;

    open spec fn view(&self) -> RequestView {
        match *self {
            Request::Help => RequestView::Help,
            Request::Version => RequestView::Version,
            Request::Command(a) => RequestView::Command(a@),
        }
    }
}

/// What arguments ask for, read from the first to the last; `cmd`, `config` and `json` are what
/// those before them said. Without a command it is `run`.
pub open spec fn read_args(
    argv: Seq<Seq<char>>,
    cmd: Option<Seq<char>>,
    config: Seq<char>,
    json: bool,
) -> Result<RequestView, Seq<char>>
    decreases argv.len(),
{
    if argv.len() == 0 {
        Ok(
            RequestView::Command(
                ArgsView {
                    cmd: match cmd {
                        Some(c) => c,
                        None => "run"@,
                    },
                    config,
                    json,
                },
            ),
        )
    } else {
        let a = argv[0];
        if a == "-h"@ || a == "--help"@ {
            Ok(RequestView::Help)
        } else if a == "-V"@ || a == "--version"@ {
            Ok(RequestView::Version)
        } else if a == "--json"@ {
            read_args(argv.skip(1), cmd, config, true)
        } else if a == "-c"@ || a == "--config"@ {
            if argv.len() == 1 {
                Err("--config 需要一个路径参数"@)
            } else {
                read_args(argv.skip(2), cmd, argv[1], json)
            }
        } else if text::starts_with(a, "--config="@) {
            read_args(argv.skip(1), cmd, a.skip("--config="@.len() as int), json)
        } else if a.len() > 1 && a[0] == '-' {
            Err("未知选项 '"@ + a + "'"@)
        } else if cmd is Some {
            Err("多余的命令 '"@ + a + "'"@)
        } else {
            read_args(argv.skip(1), Some(a), config, json)
        }
    }
}

/// The result of [`Args::parse`], as text.
pub open spec fn parse_view(r: Result<Request, String>) -> Result<RequestView, Seq<char>> {
    match r {
        Ok(q) => Ok(q@),
        Err(m) => Err(m@),
    }
}

impl Args {
    /// Reads the arguments, the name of the program aside.
    pub fn parse(argv: &Vec<String>) -> (r: Result<Request, String>)
        ensures
            parse_view(r) == read_args(
                config::string_texts(argv@),
                None,
                config::UCI_PATH@,
                false,
            ),
    {
        let ghost all = config::string_texts(argv@);
        let mut cmd: Option<String> = None;
        let mut config = Config::default_path().to_owned();
        let mut json = false;
        let mut i: usize = 0;
        assert(all.skip(0) =~= all);
        while i < argv.len()
            invariant
                i <= argv@.len(),
                all == config::string_texts(argv@),
                read_args(all, None, config::UCI_PATH@, false) == read_args(
                    all.skip(i as int),
                    ipdetect::opt_text(cmd),
                    config@,
                    json,
                ),
            decreases argv@.len() - i,
        {
            let a = argv[i].as_str();
            let v = text::chars_of(a);
            assert(all.skip(i as int)[0] == a@);
            assert(all.skip(i as int).skip(1) =~= all.skip(i + 1));
            if text::same_str(a, "-h") || text::same_str(a, "--help") {
                return Ok(Request::Help);
            }
            if text::same_str(a, "-V") || text::same_str(a, "--version") {
                return Ok(Request::Version);
            }
            if text::same_str(a, "--json") {
                json = true;
            } else if text::same_str(a, "-c") || text::same_str(a, "--config") {
                if i + 1 >= argv.len() {
                    return Err("--config 需要一个路径参数".to_owned());
                }
                assert(all.skip(i as int)[1] == argv@[i + 1]@);
                assert(all.skip(i as int).skip(2) =~= all.skip(i + 2));
                config = argv[i + 1].clone();
                i += 1;
            } else if text::starts_with_lit(v.as_slice(), "--config=") {
                let n = text::chars_of("--config=").len();
                config = text::string_of(text::tail(v.as_slice(), n));
            } else if v.len() > 1 && v[0] == '-' {
                return Err("未知选项 '".to_owned().concat(a).concat("'"));
            } else {
                if cmd.is_some() {
                    return Err("多余的命令 '".to_owned().concat(a).concat("'"));
                }
                cmd = Some(argv[i].clone());
            }
            i += 1;
        }
        let cmd = match cmd {
            Some(c) => c,
            None => "run".to_owned(),
        };
        Ok(Request::Command(Args { cmd, config, json }))
    }
}

/// A command.
#[derive(Debug, Clone, Copy, PartialEq, Eq, Structural)]
pub enum Command {
    /// Guard the network.
    Run,
    /// Log in once.
    Auth,
    /// Print the state of the guardian.
    Status,
    /// Check the network once.
    Check,
    /// Print which address would be logged in with, and why.
    DetectIp,
    /// Look for mistakes in the configuration.
    Validate,
}

/// The name of a command.
pub open spec fn command_name(c: Command) -> Seq<char> {
    match c {
        Command::Run => "run"@,
        Command::Auth => "auth"@,
        Command::Status => "status"@,
        Command::Check => "check"@,
        Command::DetectIp => "detect-ip"@,
        Command::Validate => "validate"@,
    }
}

impl Command {
    /// The command of that name; without one, what is wrong.
    pub fn named(name: &str) -> (r: Result<Command, String>)
        ensures
            match r {
                Ok(c) => name@ == command_name(c),
                Err(m) => (forall|c: Command| name@ != #[trigger] command_name(c)) && m@
                    == "未知命令 '"@ + name@ + "'"@,
            },
    {
        if text::same_str(name, "run") {
            Ok(Command::Run)
        } else if text::same_str(name, "auth") {
            Ok(Command::Auth)
        } else if text::same_str(name, "status") {
            Ok(Command::Status)
        } else if text::same_str(name, "check") {
            Ok(Command::Check)
        } else if text::same_str(name, "detect-ip") {
            Ok(Command::DetectIp)
        } else if text::same_str(name, "validate") {
            Ok(Command::Validate)
        } else {
            Err("未知命令 '".to_owned().concat(name).concat("'"))
        }
    }
}

// ---------------------------------------------------------------------------
// Help
// ---------------------------------------------------------------------------

/// What the version option prints.
pub open spec fn version_words() -> Seq<char> {
    "campus-auth-guardian "@ + http::VERSION@ + "\n"@
}

/// What the version option prints.
pub fn version_text() -> (r: String)
    ensures
        r@ == version_words(),
{
    "campus-auth-guardian ".to_owned().concat(http::VERSION).concat("\n")
}

/// What the help says before the path of the configuration file.
pub const HELP_COMMANDS: &'static str = " —— 校园网 ePortal 认证守护进程（OpenWrt）

用法: campus-auth-guardian [命令] [选项]

命令:
  run           前台运行守护进程（默认；由 procd 拉起）
  auth          立刻认证一次
  status        打印守护进程的当前状态
  check         做一次连通性检测，识别是否被劫持到门户
  detect-ip     打印 IP 探测结果（认证排错先跑这个）
  validate      校验配置文件

选项:
  -c, --config <路径>   配置文件路径（默认 ";

/// What the help says after the path of the configuration file.
pub const HELP_OPTIONS: &'static str = "）
      --json            以 JSON 输出，便于脚本处理
  -h, --help            显示本帮助
  -V, --version         显示版本

示例:
  campus-auth-guardian detect-ip          # 看内核认为的源 IP 对不对
  campus-auth-guardian auth               # 手动认证一次
  campus-auth-guardian status --json      # 给脚本读的状态

守护进程的信号:
  SIGHUP    重新读取配置
  SIGUSR1   立刻认证一次
  SIGTERM   退出
";

/// What the help option prints.
pub open spec fn help_words() -> Seq<char> {
    "campus-auth-guardian "@ + http::VERSION@ + HELP_COMMANDS@ + config::UCI_PATH@ + HELP_OPTIONS@
}

/// What the help option prints.
pub fn help_text() -> (r: String)
    ensures
        r@ == help_words(),
{
    "campus-auth-guardian ".to_owned().concat(http::VERSION).concat(HELP_COMMANDS).concat(
        config::UCI_PATH,
    ).concat(HELP_OPTIONS)
}

// ---------------------------------------------------------------------------
// What the commands print
// ---------------------------------------------------------------------------

/// What a command prints, and its exit code.
#[derive(Debug)]
pub struct Report {
    pub text: String,
    pub code: u8,
}

/// Whether a text is a line of compact JSON that holds `j`.
pub open spec fn json_line(s: Seq<char>, j: json::Json) -> bool {
    s.len() > 0 && s.last() == '\n' && json::compact(s.drop_last(), j)
}

fn line_of(v: &Value) -> (r: String)
    requires
        json::plain(json::json_tree(*v), 3),
    ensures
        json_line(r@, json::json_tree(*v)),
{
    let t = json::to_text(v);
    let r = t.as_str().to_owned().concat("\n");
    proof {
        reveal_strlit("\n");
        assert(r@.drop_last() =~= t@);
    }
    r
}

/// How a login ended, in words.
pub open spec fn auth_words(o: auth::AuthView) -> Seq<char> {
    match o {
        auth::AuthView::Success => "认证成功\n"@,
        auth::AuthView::AlreadyOnline => "已在线，无需认证\n"@,
        auth::AuthView::Failed(msg) => "认证失败: "@ + msg + "\n"@,
        auth::AuthView::NetworkError(msg) => "网络错误: "@ + msg + "\n"@,
    }
}

/// The exit code of a login.
pub open spec fn auth_code(o: auth::AuthView) -> u8 {
    match o {
        auth::AuthView::Success => EXIT_OK,
        auth::AuthView::AlreadyOnline => EXIT_OK,
        auth::AuthView::Failed(msg) => EXIT_FAIL,
        auth::AuthView::NetworkError(msg) => EXIT_USAGE,
    }
}

/// What the command `auth` prints.
pub fn auth_report(outcome: &AuthOutcome, json: bool) -> (r: Report)
    ensures
        json ==> json_line(r.text@, guardian::auth_tree(outcome@)),
        !json ==> r.text@ == auth_words(outcome@),
        r.code == auth_code(outcome@),
{
    let code: u8 = match outcome {
        AuthOutcome::Success => EXIT_OK,
        AuthOutcome::AlreadyOnline => EXIT_OK,
        AuthOutcome::Failed { .. } => EXIT_FAIL,
        AuthOutcome::NetworkError { .. } => EXIT_USAGE,
    };
    if json {
        proof {
            guardian::lemma_auth_is_plain(outcome@, 3);
        }
        return Report { text: line_of(&guardian::auth_outcome_json(outcome)), code };
    }
    let text = match outcome {
        AuthOutcome::Success => "认证成功\n".to_owned(),
        AuthOutcome::AlreadyOnline => "已在线，无需认证\n".to_owned(),
        AuthOutcome::Failed { msg } => "认证失败: ".to_owned().concat(msg.as_str()).concat("\n"),
        AuthOutcome::NetworkError { msg } => "网络错误: ".to_owned().concat(msg.as_str()).concat(
            "\n",
        ),
    };
    Report { text, code }
}

/// What a check found, in words.
pub open spec fn net_words(s: netcheck::NetView) -> Seq<char> {
    match s {
        netcheck::NetView::Connected => "结果: 已连通\n"@,
        netcheck::NetView::CaptivePortal(redirect) => if redirect.len() == 0 {
            "结果: 被劫持到认证门户（无重定向地址，疑似 200 拦截）\n"@
        } else {
            "结果: 被劫持到认证门户\n重定向: "@ + redirect + "\nAC IP:   "@ + netcheck::param(
                redirect,
                "wlanacip"@,
            ) + "\nAC 名称: "@ + netcheck::param(redirect, "wlanacname"@) + "\n会话 IP: "@
                + netcheck::param(redirect, "wlanuserip"@) + "\n"@
        },
        netcheck::NetView::DnsPending => "结果: DNS 暂不可用（认证刚生效时常见）\n"@,
        netcheck::NetView::Disconnected(reason) => "结果: 无法联网 —— "@ + reason + "\n"@,
    }
}

/// The exit code of a check.
pub open spec fn net_code(s: netcheck::NetView) -> u8 {
    match s {
        netcheck::NetView::Connected => EXIT_OK,
        netcheck::NetView::DnsPending => EXIT_FAIL,
        netcheck::NetView::CaptivePortal(redirect) => EXIT_FAIL,
        netcheck::NetView::Disconnected(reason) => EXIT_USAGE,
    }
}

fn net_text(status: &NetStatus) -> (r: String)
    ensures
        r@ == net_words(status@),
{
    match status {
        NetStatus::Connected => "结果: 已连通\n".to_owned(),
        NetStatus::CaptivePortal { redirect } => {
            if redirect.as_str().is_empty() {
                "结果: 被劫持到认证门户（无重定向地址，疑似 200 拦截）\n".to_owned()
            } else {
                let (ip, name, user) = netcheck::extract_ac_params(redirect.as_str());
                "结果: 被劫持到认证门户\n重定向: ".to_owned().concat(redirect.as_str()).concat(
                    "\nAC IP:   ",
                ).concat(ip.as_str()).concat("\nAC 名称: ").concat(name.as_str()).concat(
                    "\n会话 IP: ",
                ).concat(user.as_str()).concat("\n")
            }
        },
        NetStatus::DnsPending => "结果: DNS 暂不可用（认证刚生效时常见）\n".to_owned(),
        NetStatus::Disconnected { reason } => "结果: 无法联网 —— ".to_owned().concat(
            reason.as_str(),
        ).concat("\n"),
    }
}

/// What the command `check` prints.
pub fn check_report(check_url: &str, status: &NetStatus, json: bool) -> (r: Report)
    ensures
        json ==> json_line(r.text@, guardian::net_tree(status@)),
        !json ==> r.text@ == "检测地址: "@ + check_url@ + "\n"@ + net_words(status@),
        r.code == net_code(status@),
{
    let code: u8 = match status {
        NetStatus::Connected => EXIT_OK,
        NetStatus::DnsPending => EXIT_FAIL,
        NetStatus::CaptivePortal { .. } => EXIT_FAIL,
        NetStatus::Disconnected { .. } => EXIT_USAGE,
    };
    if json {
        proof {
            guardian::lemma_net_is_plain(status@, 3);
        }
        return Report { text: line_of(&guardian::net_status_json(status)), code };
    }
    let text = "检测地址: ".to_owned().concat(check_url).concat("\n").concat(
        net_text(status).as_str(),
    );
    Report { text, code }
}

// ---------------------------------------------------------------------------
// The command `status`
// ---------------------------------------------------------------------------

/// A member of an object; null where there is none.
pub open spec fn member_or_null(j: json::Json, key: Seq<char>) -> json::Json {
    match json::member(j, key) {
        Some(x) => x,
        None => json::Json::Null,
    }
}

/// The text in a member; `?` where it is no string.
pub open spec fn text_in(j: json::Json, key: Seq<char>) -> Seq<char> {
    match json::string(member_or_null(j, key)) {
        Some(s) => s,
        None => "?"@,
    }
}

/// The network as a status tells it, in words.
pub open spec fn described_net(j: json::Json) -> Seq<char> {
    match json::string(member_or_null(j, "kind"@)) {
        Some(kind) => if kind == "connected"@ {
            "已连通"@
        } else if kind == "captive_portal"@ {
            match json::string(member_or_null(j, "redirect"@)) {
                Some(redirect) => if redirect.len() > 0 {
                    "被劫持到认证门户（"@ + redirect + "）"@
                } else {
                    "被劫持到认证门户"@
                },
                None => "被劫持到认证门户"@,
            }
        } else if kind == "dns_pending"@ {
            "DNS 暂不可用"@
        } else if kind == "disconnected"@ {
            "无法联网 —— "@ + text_in(j, "reason"@)
        } else {
            "未知"@
        },
        None => "未知"@,
    }
}

/// The last login as a status tells it, in words.
pub open spec fn described_auth(j: json::Json) -> Seq<char> {
    match json::string(member_or_null(j, "kind"@)) {
        Some(kind) => if kind == "success"@ {
            "成功"@
        } else if kind == "already_online"@ {
            "已在线"@
        } else if kind == "failed"@ {
            "失败 —— "@ + text_in(j, "msg"@)
        } else if kind == "network_error"@ {
            "网络错误 —— "@ + text_in(j, "msg"@)
        } else {
            "（本次启动后尚未认证）"@
        },
        None => "（本次启动后尚未认证）"@,
    }
}

/// A list of lines, each with a dash before it.
pub open spec fn dashed(items: Seq<Seq<char>>) -> Seq<char>
    decreases items.len(),
{
    if items.len() == 0 {
        seq![]
    } else {
        dashed(items.drop_last()) + "  - "@ + items.last() + "\n"@
    }
}

/// The texts among the items of an array; `?` for an item that is none.
pub open spec fn item_texts(items: Seq<json::Json>) -> Seq<Seq<char>> {
    items.map_values(
        |j: json::Json|
            match json::string(j) {
                Some(s) => s,
                None => "?"@,
            },
    )
}

/// The problems that a status tells.
pub open spec fn problem_words(j: json::Json) -> Seq<char> {
    match j {
        json::Json::Array(items) => if items.len() > 0 {
            "配置问题:\n"@ + dashed(item_texts(items))
        } else {
            ""@
        },
        _ => ""@,
    }
}

/// The time of the last login, where a status tells it.
pub open spec fn auth_time_words(j: json::Json) -> Seq<char> {
    match json::integer(j, 0, u64::MAX as int) {
        Some(ts) => "认证时间: "@ + digits::decimal(ts as nat) + "\n"@,
        None => ""@,
    }
}

/// The compact text of a value.
pub open spec fn shown(j: json::Json) -> Seq<char> {
    match json::simple_text(j) {
        Some(s) => s,
        None => json::json_text(j),
    }
}

/// A status in words.
pub open spec fn status_words(j: json::Json) -> Seq<char> {
    "版本:     "@ + text_in(j, "version"@) + "\n守护:     "@ + (if member_or_null(j, "enabled"@)
        == json::Json::Bool(true) {
        "开启"@
    } else {
        "关闭"@
    }) + "\n状态:     "@ + text_in(j, "state"@) + "\n网络:     "@ + described_net(
        member_or_null(j, "net"@),
    ) + "\n上次认证: "@ + described_auth(member_or_null(j, "last_auth"@)) + "\n"@
        + auth_time_words(member_or_null(j, "last_auth_ts"@)) + "连续失败: "@ + shown(
        member_or_null(j, "consecutive_failures"@),
    ) + "\n下次检测: "@ + shown(member_or_null(j, "next_check_secs"@)) + " 秒后\n"@
        + problem_words(member_or_null(j, "config_problems"@))
}

fn str_in<'a>(v: &'a Value, key: &str) -> (r: Option<&'a str>)
    ensures
        match r {
            Some(s) => json::string(member_or_null(json::json_tree(*v), key@)) == Some(s@),
            None => json::string(member_or_null(json::json_tree(*v), key@)) is None,
        },
{
    match json::get(v, key) {
        Some(x) => x.as_str(),
        None => None,
    }
}

fn str_or_mark<'a>(v: &'a Value, key: &str) -> (r: &'a str)
    ensures
        r@ == text_in(json::json_tree(*v), key@),
{
    match str_in(v, key) {
        Some(s) => s,
        None => "?",
    }
}

/// The network as a status tells it, in words.
pub fn describe_net(v: &Value) -> (r: String)
    ensures
        r@ == described_net(json::json_tree(*v)),
{
    match str_in(v, "kind") {
        Some(kind) => {
            if text::same_str(kind, "connected") {
                "已连通".to_owned()
            } else if text::same_str(kind, "captive_portal") {
                match str_in(v, "redirect") {
                    Some(redirect) => {
                        if redirect.is_empty() {
                            "被劫持到认证门户".to_owned()
                        } else {
                            "被劫持到认证门户（".to_owned().concat(redirect).concat("）")
                        }
                    },
                    None => "被劫持到认证门户".to_owned(),
                }
            } else if text::same_str(kind, "dns_pending") {
                "DNS 暂不可用".to_owned()
            } else if text::same_str(kind, "disconnected") {
                "无法联网 —— ".to_owned().concat(str_or_mark(v, "reason"))
            } else {
                "未知".to_owned()
            }
        },
        None => "未知".to_owned(),
    }
}

/// The last login as a status tells it, in words.
pub fn describe_auth(v: &Value) -> (r: String)
    ensures
        r@ == described_auth(json::json_tree(*v)),
{
    match str_in(v, "kind") {
        Some(kind) => {
            if text::same_str(kind, "success") {
                "成功".to_owned()
            } else if text::same_str(kind, "already_online") {
                "已在线".to_owned()
            } else if text::same_str(kind, "failed") {
                "失败 —— ".to_owned().concat(str_or_mark(v, "msg"))
            } else if text::same_str(kind, "network_error") {
                "网络错误 —— ".to_owned().concat(str_or_mark(v, "msg"))
            } else {
                "（本次启动后尚未认证）".to_owned()
            }
        },
        None => "（本次启动后尚未认证）".to_owned(),
    }
}

fn push_dashed(out: &mut String, item: &str)
    ensures
        final(out)@ == old(out)@ + "  - "@ + item@ + "\n"@,
{
    out.append("  - ");
    out.append(item);
    out.append("\n");
}

fn problem_text(v: &Value) -> (r: String)
    ensures
        r@ == problem_words(json::json_tree(*v)),
{
    let items = match v.as_array() {
        Some(items) => items,
        None => {
            return "".to_owned();
        },
    };
    let ghost all = item_texts(json::trees(items@));
    if items.len() == 0 {
        return "".to_owned();
    }
    let mut lines = String::new();
    let mut i: usize = 0;
    assert(lines@ =~= dashed(all.take(0)));
    while i < items.len()
        invariant
            i <= items@.len(),
            all == item_texts(json::trees(items@)),
            lines@ == dashed(all.take(i as int)),
        decreases items@.len() - i,
    {
        assert(all.take(i + 1).drop_last() =~= all.take(i as int));
        match items[i].as_str() {
            Some(s) => push_dashed(&mut lines, s),
            None => push_dashed(&mut lines, "?"),
        }
        i += 1;
    }
    assert(all.take(items@.len() as int) =~= all);
    "配置问题:\n".to_owned().concat(lines.as_str())
}

/// A status in words.
pub fn status_text(v: &Value) -> (r: String)
    ensures
        r@ == status_words(json::json_tree(*v)),
{
    let null = json::null();
    let net = match json::get(v, "net") {
        Some(x) => x,
        None => &null,
    };
    let last_auth = match json::get(v, "last_auth") {
        Some(x) => x,
        None => &null,
    };
    let problems = match json::get(v, "config_problems") {
        Some(x) => x,
        None => &null,
    };
    let failures = match json::get(v, "consecutive_failures") {
        Some(x) => json::to_text(x),
        None => json::to_text(&null),
    };
    let next = match json::get(v, "next_check_secs") {
        Some(x) => json::to_text(x),
        None => json::to_text(&null),
    };
    let enabled = match json::get(v, "enabled") {
        Some(x) => match x.as_bool() {
            Some(b) => b,
            None => false,
        },
        None => false,
    };
    let time = match json::get(v, "last_auth_ts") {
        Some(x) => match x.as_u64() {
            Some(ts) => "认证时间: ".to_owned().concat(
                digits::decimal_string(ts).as_str(),
            ).concat("\n"),
            None => "".to_owned(),
        },
        None => "".to_owned(),
    };
    let mut out = "版本:     ".to_owned();
    out.append(str_or_mark(v, "version"));
    out.append("\n守护:     ");
    out.append(if enabled { "开启" } else { "关闭" });
    out.append("\n状态:     ");
    out.append(str_or_mark(v, "state"));
    out.append("\n网络:     ");
    out.append(describe_net(net).as_str());
    out.append("\n上次认证: ");
    out.append(describe_auth(last_auth).as_str());
    out.append("\n");
    out.append(time.as_str());
    out.append("连续失败: ");
    out.append(failures.as_str());
    out.append("\n下次检测: ");
    out.append(next.as_str());
    out.append(" 秒后\n");
    out.append(problem_text(problems).as_str());
    out
}

/// What is said where there is no status.
pub open spec fn no_status_words() -> Seq<char> {
    "守护进程未在运行（"@ + guardian::STATUS_FILE@ + " 不存在）\n"@
}

/// What the command `status` prints where there is no status: the guardian does not run.
pub fn no_status_report(json: bool) -> (r: Report)
    ensures
        json ==> json_line(
            r.text@,
            guardian::with(json::Json::Null, "running"@, json::Json::Bool(false)),
        ),
        !json ==> r.text@ == no_status_words(),
        r.code == EXIT_FAIL,
{
    if json {
        let mut v = json::null();
        json::set(&mut v, "running", json::from_bool(false));
        proof {
            reveal_with_fuel(json::plain, 2);
        }
        return Report { text: line_of(&v), code: EXIT_FAIL };
    }
    let text = "守护进程未在运行（".to_owned().concat(guardian::STATUS_FILE).concat(
        " 不存在）\n",
    );
    Report { text, code: EXIT_FAIL }
}

/// A text with a line end, which is put there where it has none.
pub open spec fn ended(s: Seq<char>) -> Seq<char> {
    if s.len() > 0 && s.last() == '\n' {
        s
    } else {
        s + "\n"@
    }
}

/// What the command `status` prints. JSON is passed on as it is, but for a line end; else the
/// status is told in words. Where it cannot be read, that is the error, and the exit code is
/// that of wrong usage.
pub fn status_report(status: &str, json: bool) -> (r: Result<Report, String>)
    ensures
        json ==> (r matches Ok(x) && x.code == EXIT_OK && x.text@ == ended(status@)),
        !json ==> match json::json_parse(status@) {
            Ok(j) => r matches Ok(x) && x.code == EXIT_OK && x.text@ == status_words(j),
            Err(e) => r matches Err(m) && m@ == guardian::STATUS_FILE@ + " 内容不是合法 JSON: "@
                + e,
        },
{
    if json {
        let n = status.unicode_len();
        if n > 0 && status.get_char(n - 1) == '\n' {
            return Ok(Report { text: status.to_owned(), code: EXIT_OK });
        }
        return Ok(Report { text: status.to_owned().concat("\n"), code: EXIT_OK });
    }
    match json::from_text(status) {
        Ok(v) => Ok(Report { text: status_text(&v), code: EXIT_OK }),
        Err(e) => Err(
            guardian::STATUS_FILE.to_owned().concat(" 内容不是合法 JSON: ").concat(e.as_str()),
        ),
    }
}

// ---------------------------------------------------------------------------
// The command `detect-ip`
// ---------------------------------------------------------------------------

/// A text, filled up with blanks to `width` characters.
pub open spec fn padded(s: Seq<char>, width: int) -> Seq<char> {
    s + digits::repeat(' ', width - s.len())
}

fn push_text_padded(out: &mut String, s: &str, width: usize)
    ensures
        final(out)@ == old(out)@ + padded(s@, width as int),
{
    let n = s.unicode_len();
    out.append(s);
    if n < width {
        digits::push_repeated(out, ' ', width - n);
        assert(out@ =~= old(out)@ + padded(s@, width as int));
    } else {
        assert(out@ =~= old(out)@ + padded(s@, width as int));
    }
}

/// The line of an address.
pub open spec fn adapter_line(a: ipdetect::AdapterView) -> Seq<char> {
    "  "@ + padded(a.name, 16) + " "@ + padded(a.ip, 16) + " "@ + padded(
        match a.mac {
            Some(mac) => mac,
            None => "-"@,
        },
        8,
    ) + " 评分="@ + digits::decimal(ipdetect::score(ipdetect::octets(a.ip)) as nat) + (
    if ipdetect::usable(ipdetect::octets(a.ip)) {
        ""@
    } else {
        "  [不可用于认证]"@
    }) + "\n"@
}

/// The lines of addresses.
pub open spec fn adapter_lines(a: Seq<ipdetect::AdapterView>) -> Seq<char>
    decreases a.len(),
{
    if a.len() == 0 {
        ""@
    } else {
        adapter_lines(a.drop_last()) + adapter_line(a.last())
    }
}

/// What is told of an address.
pub open spec fn adapter_tree(a: ipdetect::AdapterView) -> json::Json {
    json::Json::Object(
        Map::empty().insert("name"@, json::Json::Str(a.name)).insert(
            "ip"@,
            json::Json::Str(a.ip),
        ).insert("mac"@, json::opt_string(a.mac)).insert(
            "usable"@,
            json::Json::Bool(ipdetect::usable(ipdetect::octets(a.ip))),
        ).insert("score"@, json::Json::Int(ipdetect::score(ipdetect::octets(a.ip)))),
    )
}

/// What is told of the addresses of this machine.
pub open spec fn detect_tree(
    c: config::Settings,
    kernel: Option<Seq<char>>,
    fallback: Option<Seq<char>>,
    adapters: Seq<ipdetect::AdapterView>,
) -> json::Json {
    json::Json::Object(
        Map::empty().insert("auth_url"@, json::Json::Str(c.auth_url)).insert(
            "portal_base"@,
            json::Json::Str(config::base_of(c.auth_url)),
        ).insert("kernel_source_ip"@, json::opt_string(kernel)).insert(
            "wan_iface"@,
            json::opt_string(c.wan_iface),
        ).insert("fallback_ip"@, json::opt_string(fallback)).insert(
            "adapters"@,
            json::Json::Array(adapters.map_values(|a: ipdetect::AdapterView| adapter_tree(a))),
        ),
    )
}

/// What is told of the addresses of this machine, in words.
pub open spec fn detect_words(
    path: Seq<char>,
    c: config::Settings,
    kernel: Option<Seq<char>>,
    fallback: Option<Seq<char>>,
    adapters: Seq<ipdetect::AdapterView>,
) -> Seq<char> {
    "配置文件:   "@ + path + "\n认证地址:   "@ + c.auth_url + "\n门户根地址: "@ + config::base_of(
        c.auth_url,
    ) + "\n\n内核选定的源 IP（通往门户）: "@ + (match kernel {
        Some(ip) => ip,
        None => "（探测失败）"@,
    }) + "\n兜底探测结果:               "@ + (match fallback {
        Some(ip) => ip,
        None => "（无）"@,
    }) + "\n\n全部 IPv4 地址:\n"@ + (if adapters.len() == 0 {
        "  （一个都没枚举到）\n"@
    } else {
        ""@
    }) + adapter_lines(adapters)
        + "\n认证时实际使用的候选 IP 依次为：fixed_ip → 上面的「源 IP」→ 门户报告的会话 IP → 兜底结果\n"@
}

/// The exit code where the addresses are told in words.
pub open spec fn detect_code(
    c: config::Settings,
    kernel: Option<Seq<char>>,
    fallback: Option<Seq<char>>,
) -> u8 {
    if kernel is None && fallback is None && c.fixed_ip is None {
        EXIT_FAIL
    } else {
        EXIT_OK
    }
}

fn push_adapter(out: &mut String, a: &AdapterIp)
    ensures
        final(out)@ == old(out)@ + adapter_line(a@),
{
    let mut line = "  ".to_owned();
    push_text_padded(&mut line, a.name.as_str(), 16);
    line.append(" ");
    push_text_padded(&mut line, a.ip.as_str(), 16);
    line.append(" ");
    match &a.mac {
        Some(mac) => push_text_padded(&mut line, mac.as_str(), 8),
        None => push_text_padded(&mut line, "-", 8),
    }
    line.append(" 评分=");
    digits::push_decimal(&mut line, ipdetect::ip_score(a.ip.as_str()) as u64);
    line.append(
        if ipdetect::is_usable_ipv4(a.ip.as_str()) {
            ""
        } else {
            "  [不可用于认证]"
        },
    );
    line.append("\n");
    assert(line@ == adapter_line(a@));
    out.append(line.as_str());
}

fn adapter_json(a: &AdapterIp) -> (r: Value)
    ensures
        json::json_tree(r) == adapter_tree(a@),
{
    let mac = match &a.mac {
        Some(m) => json::from_str(m.as_str()),
        None => json::null(),
    };
    let mut v = json::null();
    json::set(&mut v, "name", json::from_str(a.name.as_str()));
    json::set(&mut v, "ip", json::from_str(a.ip.as_str()));
    json::set(&mut v, "mac", mac);
    json::set(&mut v, "usable", json::from_bool(ipdetect::is_usable_ipv4(a.ip.as_str())));
    json::set(&mut v, "score", json::from_u64(ipdetect::ip_score(a.ip.as_str()) as u64));
    v
}

fn detect_json(
    cfg: &Config,
    kernel: Option<&str>,
    fallback: Option<&str>,
    adapters: &Vec<AdapterIp>,
) -> (r: Value)
    ensures
        json::json_tree(r) == detect_tree(
            cfg@,
            auth::opt_str(kernel),
            auth::opt_str(fallback),
            ipdetect::adapter_views(adapters@),
        ),
{
    let ghost all = ipdetect::adapter_views(adapters@);
    let mut items: Vec<Value> = Vec::new();
    let mut i: usize = 0;
    while i < adapters.len()
        invariant
            i <= adapters@.len(),
            items@.len() == i,
            forall|j: int|
                0 <= j < i ==> json::json_tree(#[trigger] items@[j]) == adapter_tree(adapters@[j]@),
        decreases adapters@.len() - i,
    {
        items.push(adapter_json(&adapters[i]));
        i += 1;
    }
    assert(json::trees(items@) =~= all.map_values(|a: ipdetect::AdapterView| adapter_tree(a)));
    let wan = match &cfg.wan_iface {
        Some(name) => json::from_str(name.as_str()),
        None => json::null(),
    };
    let mut v = json::null();
    json::set(&mut v, "auth_url", json::from_str(cfg.auth_url.as_str()));
    json::set(&mut v, "portal_base", json::from_str(cfg.portal_base()));
    json::set(&mut v, "kernel_source_ip", json::from_opt(kernel));
    json::set(&mut v, "wan_iface", wan);
    json::set(&mut v, "fallback_ip", json::from_opt(fallback));
    json::set(&mut v, "adapters", json::from_vec(items));
    v
}

proof fn lemma_detect_is_plain(
    c: config::Settings,
    kernel: Option<Seq<char>>,
    fallback: Option<Seq<char>>,
    adapters: Seq<ipdetect::AdapterView>,
)
    ensures
        json::plain(detect_tree(c, kernel, fallback, adapters), 3),
{
    let items = adapters.map_values(|a: ipdetect::AdapterView| adapter_tree(a));
    assert forall|i: int| 0 <= i < items.len() implies json::plain(#[trigger] items[i], 1) by {
        reveal_with_fuel(json::plain, 2);
    }
    assert(json::plain(json::Json::Array(items), 2));
    reveal_with_fuel(json::plain, 2);
}

/// What the command `detect-ip` prints. `kernel` is the source address towards the portal and
/// `fallback` the address picked among the interfaces; in words, it is a failure where neither
/// is there and none is configured.
pub fn detect_report(
    path: &str,
    cfg: &Config,
    kernel: Option<&str>,
    fallback: Option<&str>,
    adapters: &Vec<AdapterIp>,
    json: bool,
) -> (r: Report)
    ensures
        json ==> json_line(
            r.text@,
            detect_tree(
                cfg@,
                auth::opt_str(kernel),
                auth::opt_str(fallback),
                ipdetect::adapter_views(adapters@),
            ),
        ) && r.code == EXIT_OK,
        !json ==> r.text@ == detect_words(
            path@,
            cfg@,
            auth::opt_str(kernel),
            auth::opt_str(fallback),
            ipdetect::adapter_views(adapters@),
        ) && r.code == detect_code(cfg@, auth::opt_str(kernel), auth::opt_str(fallback)),
{
    let ghost all = ipdetect::adapter_views(adapters@);
    if json {
        let v = detect_json(cfg, kernel, fallback, adapters);
        proof {
            lemma_detect_is_plain(cfg@, auth::opt_str(kernel), auth::opt_str(fallback), all);
        }
        return Report { text: line_of(&v), code: EXIT_OK };
    }
    let mut lines = "".to_owned();
    let mut i: usize = 0;
    assert(lines@ == adapter_lines(all.take(0)));
    while i < adapters.len()
        invariant
            i <= adapters@.len(),
            all == ipdetect::adapter_views(adapters@),
            lines@ == adapter_lines(all.take(i as int)),
        decreases adapters@.len() - i,
    {
        assert(all.take(i + 1).drop_last() =~= all.take(i as int));
        push_adapter(&mut lines, &adapters[i]);
        i += 1;
    }
    assert(all.take(adapters@.len() as int) =~= all);
    let mut out = "配置文件:   ".to_owned();
    out.append(path);
    out.append("\n认证地址:   ");
    out.append(cfg.auth_url.as_str());
    out.append("\n门户根地址: ");
    out.append(cfg.portal_base());
    out.append("\n\n内核选定的源 IP（通往门户）: ");
    match kernel {
        Some(ip) => out.append(ip),
        None => out.append("（探测失败）"),
    }
    out.append("\n兜底探测结果:               ");
    match fallback {
        Some(ip) => out.append(ip),
        None => out.append("（无）"),
    }
    out.append("\n\n全部 IPv4 地址:\n");
    out.append(
        if adapters.len() == 0 {
            "  （一个都没枚举到）\n"
        } else {
            ""
        },
    );
    out.append(lines.as_str());
    out.append(
        "\n认证时实际使用的候选 IP 依次为：fixed_ip → 上面的「源 IP」→ 门户报告的会话 IP → 兜底结果\n",
    );
    let code: u8 = if kernel.is_none() && fallback.is_none() && cfg.fixed_ip.is_none() {
        EXIT_FAIL
    } else {
        EXIT_OK
    };
    Report { text: out, code }
}

// ---------------------------------------------------------------------------
// The command `validate`
// ---------------------------------------------------------------------------

/// Everything that is wrong with settings, together with what cannot be fetched; `tls` says
/// whether `https` can be.
pub open spec fn all_problems(c: config::Settings, tls: bool) -> Seq<Seq<char>> {
    let check = match netcheck::unsupported(c.check_url, tls) {
        Some(m) => seq!["检测地址不可用："@ + m],
        None => seq![],
    };
    let auth = match netcheck::unsupported(c.auth_url, tls) {
        Some(m) => seq!["认证地址不可用："@ + m],
        None => seq![],
    };
    config::problems(c) + check + auth
}

/// What is told of problems.
pub open spec fn problems_tree(problems: Seq<Seq<char>>) -> json::Json {
    guardian::with(
        guardian::with(json::Json::Null, "ok"@, json::Json::Bool(problems.len() == 0)),
        "problems"@,
        json::string_array(problems),
    )
}

/// The exit code with these problems.
pub open spec fn problems_code(problems: Seq<Seq<char>>) -> u8 {
    if problems.len() == 0 {
        EXIT_OK
    } else {
        EXIT_FAIL
    }
}

proof fn lemma_problems_are_plain(problems: Seq<Seq<char>>)
    ensures
        json::plain(problems_tree(problems), 3),
{
    let items = problems.map_values(|t: Seq<char>| json::Json::Str(t));
    assert forall|i: int| 0 <= i < items.len() implies json::plain(#[trigger] items[i], 1) by {
        assert(items[i] == json::Json::Str(problems[i]));
    }
    assert(json::plain(json::string_array(problems), 2));
    reveal_with_fuel(json::plain, 2);
}

/// What is told of problems, in words.
pub open spec fn problems_words(problems: Seq<Seq<char>>) -> Seq<char> {
    if problems.len() == 0 {
        "配置正常。\n"@
    } else {
        "发现 "@ + digits::decimal(problems.len()) + " 个问题：\n"@ + dashed(problems)
    }
}

fn push_problem(out: &mut Vec<String>, p: String)
    ensures
        config::string_texts(final(out)@) == config::string_texts(old(out)@) + seq![p@],
{
    out.push(p);
    assert(config::string_texts(out@) =~= config::string_texts(old(out)@) + seq![p@]);
}

fn problems_text(problems: &Vec<String>) -> (r: String)
    ensures
        r@ == problems_words(config::string_texts(problems@)),
{
    let ghost all = config::string_texts(problems@);
    if problems.len() == 0 {
        return "配置正常。\n".to_owned();
    }
    let mut lines = String::new();
    let mut i: usize = 0;
    assert(lines@ =~= dashed(all.take(0)));
    while i < problems.len()
        invariant
            i <= problems@.len(),
            all == config::string_texts(problems@),
            lines@ == dashed(all.take(i as int)),
        decreases problems@.len() - i,
    {
        assert(all.take(i + 1).drop_last() =~= all.take(i as int));
        push_dashed(&mut lines, problems[i].as_str());
        i += 1;
    }
    assert(all.take(problems@.len() as int) =~= all);
    "发现 ".to_owned().concat(digits::decimal_string(problems.len() as u64).as_str()).concat(
        " 个问题：\n",
    ).concat(lines.as_str())
}

/// What is told of problems, as a value.
fn problems_json(problems: &Vec<String>) -> (r: Value)
    ensures
        json::json_tree(r) == problems_tree(config::string_texts(problems@)),
{
    let mut v = json::null();
    json::set(&mut v, "ok", json::from_bool(problems.len() == 0));
    json::set(&mut v, "problems", json::from_strings(problems));
    v
}

/// What the command `validate` prints; `tls` says whether `https` addresses can be fetched.
pub fn validate_report(cfg: &Config, tls: bool, json: bool) -> (r: Report)
    ensures
        json ==> json_line(r.text@, problems_tree(all_problems(cfg@, tls))),
        !json ==> r.text@ == problems_words(all_problems(cfg@, tls)),
        r.code == problems_code(all_problems(cfg@, tls)),
{
    let ghost all = all_problems(cfg@, tls);
    let mut problems = cfg.validate();
    if let Err(m) = netcheck::check_url_supported(cfg.check_url.as_str(), tls) {
        push_problem(&mut problems, "检测地址不可用：".to_owned().concat(m.as_str()));
    }
    if let Err(m) = netcheck::check_url_supported(cfg.auth_url.as_str(), tls) {
        push_problem(&mut problems, "认证地址不可用：".to_owned().concat(m.as_str()));
    }
    assert(config::string_texts(problems@) =~= all);
    let code: u8 = if problems.len() == 0 {
        EXIT_OK
    } else {
        EXIT_FAIL
    };
    if json {
        let v = problems_json(&problems);
        proof {
            lemma_problems_are_plain(all);
        }
        return Report { text: line_of(&v), code };
    }
    Report { text: problems_text(&problems), code }
}

// ---------------------------------------------------------------------------
// What can be relied on
// ---------------------------------------------------------------------------

/// The path of the configuration can be given in three ways that mean the same.
pub proof fn law_ways_to_name_the_config(
    path: Seq<char>,
    rest: Seq<Seq<char>>,
    cmd: Option<Seq<char>>,
    config: Seq<char>,
    json: bool,
)
    ensures
        read_args(seq!["-c"@, path] + rest, cmd, config, json) == read_args(rest, cmd, path, json),
        read_args(seq!["--config"@, path] + rest, cmd, config, json) == read_args(
            rest,
            cmd,
            path,
            json,
        ),
        read_args(seq!["--config="@ + path] + rest, cmd, config, json) == read_args(
            rest,
            cmd,
            path,
            json,
        ),
{
    reveal_strlit("-c");
    reveal_strlit("--config");
    reveal_strlit("--config=");
    reveal_strlit("-h");
    reveal_strlit("--help");
    reveal_strlit("-V");
    reveal_strlit("--version");
    reveal_strlit("--json");
    let a = seq!["-c"@, path] + rest;
    let b = seq!["--config"@, path] + rest;
    let joined = "--config="@ + path;
    let c = seq![joined] + rest;
    assert(a.skip(2) =~= rest);
    assert(b.skip(2) =~= rest);
    assert(c.skip(1) =~= rest);
    assert("-c"@[1] == 'c' && "-h"@[1] == 'h' && "-V"@[1] == 'V');
    assert("--config"@[2] == 'c' && "--help"@[2] == 'h' && "--version"@[2] == 'v' && "--json"@[2]
        == 'j');
    assert(joined.subrange(0, 9) =~= "--config="@);
    assert(joined.skip(9) =~= path);
    assert(joined[2] == 'c' && joined.len() >= 9);
}

/// Every member that the guardian publishes is found in what it publishes.
proof fn lemma_status_members(m: guardian::Model)
    ensures
        ({
            let j = guardian::status_tree(m);
            &&& member_or_null(j, "version"@) == json::Json::Str(http::VERSION@)
            &&& member_or_null(j, "state"@) == json::Json::Str(guardian::state_name(m.state))
            &&& member_or_null(j, "enabled"@) == json::Json::Bool(m.running)
            &&& member_or_null(j, "net"@) == (match m.snapshot.net {
                Some(s) => guardian::net_tree(s),
                None => json::Json::Null,
            })
            &&& member_or_null(j, "last_auth"@) == (match m.snapshot.last_auth {
                Some(o) => guardian::auth_tree(o),
                None => json::Json::Null,
            })
            &&& member_or_null(j, "last_auth_ts"@) == guardian::opt_int(m.snapshot.last_auth_ts)
            &&& member_or_null(j, "consecutive_failures"@) == json::Json::Int(
                m.snapshot.consecutive_failures,
            )
            &&& member_or_null(j, "next_check_secs"@) == json::Json::Int(m.snapshot.next_check_secs)
            &&& member_or_null(j, "config_problems"@) == json::string_array(
                config::problems(m.cfg),
            )
        }),
{
    reveal_strlit("version");
    reveal_strlit("state");
    reveal_strlit("enabled");
    reveal_strlit("net");
    reveal_strlit("last_auth");
    reveal_strlit("last_auth_ts");
    reveal_strlit("last_net_ts");
    reveal_strlit("consecutive_failures");
    reveal_strlit("next_check_secs");
    reveal_strlit("config_problems");
    assert("version"@[0] != "enabled"@[0]);
    assert("next_check_secs"@[0] != "config_problems"@[0]);
    assert("version"@.len() == 7);
    assert("state"@.len() == 5);
    assert("enabled"@.len() == 7);
    assert("net"@.len() == 3);
    assert("last_auth"@.len() == 9);
    assert("last_auth_ts"@.len() == 12);
    assert("last_net_ts"@.len() == 11);
    assert("consecutive_failures"@.len() == 20);
    assert("next_check_secs"@.len() == 15);
    assert("config_problems"@.len() == 15);
}

/// What a check found, as the command `status` tells it.
pub open spec fn net_summary(s: Option<netcheck::NetView>) -> Seq<char> {
    match s {
        Some(netcheck::NetView::Connected) => "已连通"@,
        Some(netcheck::NetView::CaptivePortal(redirect)) => if redirect.len() > 0 {
            "被劫持到认证门户（"@ + redirect + "）"@
        } else {
            "被劫持到认证门户"@
        },
        Some(netcheck::NetView::DnsPending) => "DNS 暂不可用"@,
        Some(netcheck::NetView::Disconnected(reason)) => "无法联网 —— "@ + reason,
        None => "未知"@,
    }
}

/// How the last login ended, as the command `status` tells it.
pub open spec fn auth_summary(o: Option<auth::AuthView>) -> Seq<char> {
    match o {
        Some(auth::AuthView::Success) => "成功"@,
        Some(auth::AuthView::AlreadyOnline) => "已在线"@,
        Some(auth::AuthView::Failed(msg)) => "失败 —— "@ + msg,
        Some(auth::AuthView::NetworkError(msg)) => "网络错误 —— "@ + msg,
        None => "（本次启动后尚未认证）"@,
    }
}

proof fn lemma_net_summary(s: netcheck::NetView)
    ensures
        described_net(guardian::net_tree(s)) == net_summary(Some(s)),
{
    reveal_strlit("kind");
    reveal_strlit("redirect");
    reveal_strlit("reason");
    reveal_strlit("connected");
    reveal_strlit("captive_portal");
    reveal_strlit("dns_pending");
    reveal_strlit("disconnected");
    assert("kind"@.len() == 4);
    assert("redirect"@.len() == 8);
    assert("reason"@.len() == 6);
    assert("connected"@.len() == 9);
    assert("captive_portal"@.len() == 14);
    assert("dns_pending"@.len() == 11);
    assert("disconnected"@.len() == 12);
}

proof fn lemma_auth_summary(o: auth::AuthView)
    ensures
        described_auth(guardian::auth_tree(o)) == auth_summary(Some(o)),
{
    reveal_strlit("kind");
    reveal_strlit("msg");
    reveal_strlit("success");
    reveal_strlit("already_online");
    reveal_strlit("failed");
    reveal_strlit("network_error");
    assert("kind"@.len() == 4);
    assert("msg"@.len() == 3);
    assert("success"@.len() == 7);
    assert("already_online"@.len() == 14);
    assert("failed"@.len() == 6);
    assert("network_error"@.len() == 13);
}

/// What the guardian publishes is what the command `status` tells: its state, whether it is
/// switched on, what it found, how it logged in last, and how often that failed.
pub proof fn law_status_tells_what_was_published(m: guardian::Model)
    ensures
        status_words(guardian::status_tree(m)) == "版本:     "@ + http::VERSION@ + "\n守护:     "@ + (
        if m.running {
            "开启"@
        } else {
            "关闭"@
        }) + "\n状态:     "@ + guardian::state_name(m.state) + "\n网络:     "@ + net_summary(
            m.snapshot.net,
        ) + "\n上次认证: "@ + auth_summary(m.snapshot.last_auth) + "\n"@ + auth_time_words(
            guardian::opt_int(m.snapshot.last_auth_ts),
        ) + "连续失败: "@ + digits::signed_decimal(m.snapshot.consecutive_failures)
            + "\n下次检测: "@ + digits::signed_decimal(m.snapshot.next_check_secs) + " 秒后\n"@
            + problem_words(json::string_array(config::problems(m.cfg))),
{
    lemma_status_members(m);
    if let Some(s) = m.snapshot.net {
        lemma_net_summary(s);
    }
    if let Some(o) = m.snapshot.last_auth {
        lemma_auth_summary(o);
    }
}

/// How arguments are read, one after the other: help and version end the reading, JSON is
/// switched on, an unknown option and a second command are errors that name them, and the
/// first text that is no option is the command. Without a command it is `run`.
pub proof fn law_arguments(
    a: Seq<char>,
    rest: Seq<Seq<char>>,
    cmd: Option<Seq<char>>,
    config: Seq<char>,
    json: bool,
)
    ensures
        read_args(Seq::<Seq<char>>::empty(), cmd, config, json) == Ok::<RequestView, Seq<char>>(
            RequestView::Command(
                ArgsView {
                    cmd: if cmd is Some {
                        cmd->0
                    } else {
                        "run"@
                    },
                    config,
                    json,
                },
            ),
        ),
        read_args(seq!["-h"@] + rest, cmd, config, json) == Ok::<RequestView, Seq<char>>(
            RequestView::Help,
        ),
        read_args(seq!["--help"@] + rest, cmd, config, json) == Ok::<RequestView, Seq<char>>(
            RequestView::Help,
        ),
        read_args(seq!["-V"@] + rest, cmd, config, json) == Ok::<RequestView, Seq<char>>(
            RequestView::Version,
        ),
        read_args(seq!["--version"@] + rest, cmd, config, json) == Ok::<RequestView, Seq<char>>(
            RequestView::Version,
        ),
        read_args(seq!["--json"@] + rest, cmd, config, json) == read_args(rest, cmd, config, true),
        a.len() <= 1 || a[0] != '-' ==> read_args(seq![a] + rest, None, config, json) == read_args(
            rest,
            Some(a),
            config,
            json,
        ),
        (a.len() <= 1 || a[0] != '-') && cmd is Some ==> read_args(
            seq![a] + rest,
            cmd,
            config,
            json,
        ) == Err::<RequestView, Seq<char>>("多余的命令 '"@ + a + "'"@),
{
    lemma_option_words();
    lemma_first(a, rest);
    lemma_first("-h"@, rest);
    lemma_first("--help"@, rest);
    lemma_first("-V"@, rest);
    lemma_first("--version"@, rest);
    lemma_first("--json"@, rest);
    if text::starts_with(a, "--config="@) {
        assert(a.subrange(0, 9)[0] == '-');
        assert(a[0] == '-');
    }
}

/// An option that is none of those is an error that names it, whatever follows; so is the
/// option for the configuration without a path.
pub proof fn law_unknown_option(
    a: Seq<char>,
    rest: Seq<Seq<char>>,
    cmd: Option<Seq<char>>,
    config: Seq<char>,
    json: bool,
)
    requires
        a.len() > 1 && a[0] == '-',
        a != "-h"@ && a != "--help"@ && a != "-V"@ && a != "--version"@ && a != "--json"@,
        a != "-c"@ && a != "--config"@ && !text::starts_with(a, "--config="@),
    ensures
        read_args(seq![a] + rest, cmd, config, json) == Err::<RequestView, Seq<char>>(
            "未知选项 '"@ + a + "'"@,
        ),
        read_args(seq!["-c"@], cmd, config, json) is Err,
        read_args(seq!["--config"@], cmd, config, json) is Err,
{
    lemma_option_words();
    lemma_first(a, rest);
}

proof fn lemma_first(a: Seq<char>, rest: Seq<Seq<char>>)
    ensures
        (seq![a] + rest)[0] == a,
        (seq![a] + rest).skip(1) == rest,
        (seq![a] + rest).len() == rest.len() + 1,
{
    assert((seq![a] + rest).skip(1) =~= rest);
}

proof fn lemma_option_words()
    ensures
        "-h"@.len() == 2 && "-h"@[0] == '-' && "-h"@[1] == 'h',
        "-V"@.len() == 2 && "-V"@[0] == '-' && "-V"@[1] == 'V',
        "-c"@.len() == 2 && "-c"@[0] == '-' && "-c"@[1] == 'c',
        "--help"@.len() == 6 && "--help"@[0] == '-' && "--help"@[2] == 'h',
        "--version"@.len() == 9 && "--version"@[0] == '-' && "--version"@[2] == 'v',
        "--json"@.len() == 6 && "--json"@[0] == '-' && "--json"@[2] == 'j',
        "--config"@.len() == 8 && "--config"@[0] == '-' && "--config"@[2] == 'c',
        "--config="@.len() == 9 && "--config="@[0] == '-' && "--config="@[2] == 'c',
{
    reveal_strlit("-h");
    reveal_strlit("-V");
    reveal_strlit("-c");
    reveal_strlit("--help");
    reveal_strlit("--version");
    reveal_strlit("--json");
    reveal_strlit("--config");
    reveal_strlit("--config=");
}

/// What a login prints and how it exits: 0 where the machine is online, 1 where the portal
/// refused, 2 where the network failed; a failure says why, in full.
pub proof fn law_login_report(msg: Seq<char>)
    ensures
        auth_words(auth::AuthView::Failed(msg)) == "认证失败: "@ + msg + "\n"@,
        auth_words(auth::AuthView::NetworkError(msg)) == "网络错误: "@ + msg + "\n"@,
        auth_code(auth::AuthView::Success) == 0,
        auth_code(auth::AuthView::AlreadyOnline) == 0,
        auth_code(auth::AuthView::Failed(msg)) == 1,
        auth_code(auth::AuthView::NetworkError(msg)) == 2,
{
}

/// What a check prints and how it exits: 0 where the network is there, 1 where a portal is in
/// the way or names are not resolved, 2 where there is no network. A redirect is told with
/// what it says of the access controller and the session.
pub proof fn law_check_report(t: Seq<char>)
    ensures
        net_code(netcheck::NetView::Connected) == 0,
        net_code(netcheck::NetView::DnsPending) == 1,
        net_code(netcheck::NetView::CaptivePortal(t)) == 1,
        net_code(netcheck::NetView::Disconnected(t)) == 2,
        net_words(netcheck::NetView::Disconnected(t)) == "结果: 无法联网 —— "@ + t + "\n"@,
        t.len() > 0 ==> net_words(netcheck::NetView::CaptivePortal(t))
            == "结果: 被劫持到认证门户\n重定向: "@ + t + "\nAC IP:   "@ + netcheck::param(
            t,
            "wlanacip"@,
        ) + "\nAC 名称: "@ + netcheck::param(t, "wlanacname"@) + "\n会话 IP: "@ + netcheck::param(
            t,
            "wlanuserip"@,
        ) + "\n"@,
{
}

/// A list has a line for each of its items, in order.
pub proof fn law_dashed(items: Seq<Seq<char>>, item: Seq<char>)
    ensures
        dashed(Seq::<Seq<char>>::empty()) == Seq::<char>::empty(),
        dashed(items.push(item)) == dashed(items) + "  - "@ + item + "\n"@,
{
    assert(items.push(item).drop_last() =~= items);
}

/// What the command `validate` tells: a list of all problems and their number, and how it exits:
/// 0 where there is none, and else 1.
pub proof fn law_validate_report(c: config::Settings, tls: bool, problems: Seq<Seq<char>>)
    ensures
        problems_code(problems) == (if problems.len() == 0 {
            0u8
        } else {
            1u8
        }),
        problems.len() > 0 ==> problems_words(problems) == "发现 "@ + digits::decimal(
            problems.len(),
        ) + " 个问题：\n"@ + dashed(problems),
        json::member(problems_tree(problems), "ok"@) == Some(json::Json::Bool(problems.len() == 0)),
        json::member(problems_tree(problems), "problems"@) == Some(json::string_array(problems)),
        all_problems(c, tls).len() == config::problems(c).len() + (if netcheck::unsupported(
            c.check_url,
            tls,
        ) is Some {
            1int
        } else {
            0
        }) + (if netcheck::unsupported(c.auth_url, tls) is Some {
            1int
        } else {
            0
        }),
        forall|i: int|
            0 <= i < config::problems(c).len() ==> #[trigger] all_problems(c, tls)[i]
                == config::problems(c)[i],
        netcheck::unsupported(c.check_url, tls) is Some ==> all_problems(c, tls).contains(
            "检测地址不可用："@ + netcheck::unsupported(c.check_url, tls)->0,
        ),
        netcheck::unsupported(c.auth_url, tls) is Some ==> all_problems(c, tls).contains(
            "认证地址不可用："@ + netcheck::unsupported(c.auth_url, tls)->0,
        ),
{
    reveal_strlit("ok");
    reveal_strlit("problems");
    assert("ok"@.len() == 2 && "problems"@.len() == 8);
    let all = all_problems(c, tls);
    let n = config::problems(c).len() as int;
    if netcheck::unsupported(c.check_url, tls) is Some {
        assert(all[n] == "检测地址不可用："@ + netcheck::unsupported(c.check_url, tls)->0);
    }
    if netcheck::unsupported(c.auth_url, tls) is Some {
        assert(all[all.len() - 1] == "认证地址不可用："@ + netcheck::unsupported(
            c.auth_url,
            tls,
        )->0);
    }
}

/// A padded text starts with the text, and blanks fill it up to the width.
pub proof fn law_padded(s: Seq<char>, width: int)
    ensures
        padded(s, width).len() == (if s.len() >= width {
            s.len() as int
        } else {
            width
        }),
        padded(s, width).take(s.len() as int) == s,
        forall|i: int| s.len() <= i < width ==> #[trigger] padded(s, width)[i] == ' ',
{
    assert(padded(s, width).take(s.len() as int) =~= s);
}

/// The line of an address tells its interface, the address, its link-layer address, its score,
/// and whether it cannot be logged in with; every address has one, in order.
pub proof fn law_address_lines(
    all: Seq<ipdetect::AdapterView>,
    name: Seq<char>,
    ip: Seq<char>,
    mac: Seq<char>,
)
    ensures
        ({
            let known = ipdetect::AdapterView { name, ip, mac: Some(mac) };
            let unknown = ipdetect::AdapterView { name, ip, mac: None };
            let end = " 评分="@ + digits::decimal(ipdetect::score(ipdetect::octets(ip)) as nat) + (
            if ipdetect::usable(ipdetect::octets(ip)) {
                ""@
            } else {
                "  [不可用于认证]"@
            }) + "\n"@;
            let start = "  "@ + padded(name, 16) + " "@ + padded(ip, 16) + " "@;
            &&& adapter_line(known) == start + padded(mac, 8) + end
            &&& adapter_line(unknown) == start + padded("-"@, 8) + end
            &&& adapter_lines(all.push(known)) == adapter_lines(all) + adapter_line(known)
            &&& adapter_lines(Seq::<ipdetect::AdapterView>::empty()) == ""@
        }),
{
    let known = ipdetect::AdapterView { name, ip, mac: Some(mac) };
    let unknown = ipdetect::AdapterView { name, ip, mac: None };
    assert(all.push(known).drop_last() =~= all);
    let score = digits::decimal(ipdetect::score(ipdetect::octets(ip)) as nat);
    let note = if ipdetect::usable(ipdetect::octets(ip)) {
        ""@
    } else {
        "  [不可用于认证]"@
    };
    let start = "  "@ + padded(name, 16) + " "@ + padded(ip, 16) + " "@;
    let end = " 评分="@ + score + note + "\n"@;
    assert(start + padded(mac, 8) + " 评分="@ + score + note + "\n"@ =~= start + padded(mac, 8)
        + end);
    assert(start + padded("-"@, 8) + " 评分="@ + score + note + "\n"@ =~= start + padded("-"@, 8)
        + end);
}

/// What is told of the addresses, in words: where the configuration is, the portal, the source
/// address towards it, the fallback, and all addresses; it is a failure only where there is
/// no address at all to log in with.
pub proof fn law_detect_report(
    path: Seq<char>,
    c: config::Settings,
    kernel: Option<Seq<char>>,
    fallback: Option<Seq<char>>,
    all: Seq<ipdetect::AdapterView>,
)
    ensures
        detect_code(c, kernel, fallback) == (if kernel is Some || fallback is Some || c.fixed_ip
            is Some {
            0u8
        } else {
            1u8
        }),
        detect_words(path, c, kernel, fallback, all) == "配置文件:   "@ + path
            + "\n认证地址:   "@ + c.auth_url + "\n门户根地址: "@ + config::base_of(c.auth_url)
            + "\n\n内核选定的源 IP（通往门户）: "@ + (if kernel is Some {
            kernel->0
        } else {
            "（探测失败）"@
        }) + "\n兜底探测结果:               "@ + (if fallback is Some {
            fallback->0
        } else {
            "（无）"@
        }) + "\n\n全部 IPv4 地址:\n"@ + (if all.len() > 0 {
            ""@
        } else {
            "  （一个都没枚举到）\n"@
        }) + adapter_lines(all)
            + "\n认证时实际使用的候选 IP 依次为：fixed_ip → 上面的「源 IP」→ 门户报告的会话 IP → 兜底结果\n"@,
{
}

/// What is told of the addresses as JSON: each under its name, and null where there is none;
/// every address with what is thought of it.
pub proof fn law_detect_tree(
    c: config::Settings,
    kernel: Option<Seq<char>>,
    fallback: Option<Seq<char>>,
    all: Seq<ipdetect::AdapterView>,
    a: ipdetect::AdapterView,
)
    ensures
        detect_tree(c, kernel, fallback, all) == json::Json::Object(
            map![
                "auth_url"@ => json::Json::Str(c.auth_url),
                "portal_base"@ => json::Json::Str(config::base_of(c.auth_url)),
                "kernel_source_ip"@ => text_or_null(kernel),
                "wan_iface"@ => text_or_null(c.wan_iface),
                "fallback_ip"@ => text_or_null(fallback),
                "adapters"@ => json::Json::Array(
                    Seq::new(all.len(), |i: int| adapter_tree(all[i])),
                )
            ],
        ),
        adapter_tree(a) == json::Json::Object(
            map![
                "name"@ => json::Json::Str(a.name),
                "ip"@ => json::Json::Str(a.ip),
                "mac"@ => text_or_null(a.mac),
                "usable"@ => json::Json::Bool(ipdetect::usable(ipdetect::octets(a.ip))),
                "score"@ => json::Json::Int(ipdetect::score(ipdetect::octets(a.ip)))
            ],
        ),
{
    assert(all.map_values(|x: ipdetect::AdapterView| adapter_tree(x)) =~= Seq::new(
        all.len(),
        |i: int| adapter_tree(all[i]),
    ));
}

/// A text as JSON; null where there is none.
pub open spec fn text_or_null(s: Option<Seq<char>>) -> json::Json {
    if s is Some {
        json::Json::Str(s->0)
    } else {
        json::Json::Null
    }
}

/// How a status is told that may hold anything: a text that is not there is a question mark, a
/// switch that is not on is off, a kind that is not known is so told, and a number is told as
/// it is written.
pub proof fn law_odd_status(j: json::Json, key: Seq<char>, s: Seq<char>, n: int)
    ensures
        json::member(j, key) == Some(json::Json::Str(s)) ==> text_in(j, key) == s,
        !(json::member(j, key) matches Some(x) && x is Str) ==> text_in(j, key) == "?"@,
        json::member(j, "kind"@) is None ==> described_net(j) == "未知"@ && described_auth(j)
            == "（本次启动后尚未认证）"@,
        json::member(j, "kind"@) == Some(json::Json::Str(s)) && s != "connected"@ && s
            != "captive_portal"@ && s != "dns_pending"@ && s != "disconnected"@ ==> described_net(j)
            == "未知"@,
        json::member(j, "kind"@) == Some(json::Json::Str(s)) && s != "success"@ && s
            != "already_online"@ && s != "failed"@ && s != "network_error"@ ==> described_auth(j)
            == "（本次启动后尚未认证）"@,
        shown(json::Json::Int(n)) == digits::signed_decimal(n),
        shown(json::Json::Float(s)) == s,
        shown(json::Json::Null) == "null"@,
        0 <= n <= u64::MAX ==> auth_time_words(json::Json::Int(n)) == "认证时间: "@
            + digits::decimal(n as nat) + "\n"@,
        n < 0 || n > u64::MAX ==> auth_time_words(json::Json::Int(n)) == ""@,
        auth_time_words(json::Json::Null) == ""@,
{
}

/// The problems that a status tells are listed, each on a line; what is no list of them, and
/// an empty list, is left out.
pub proof fn law_told_problems(items: Seq<json::Json>, texts: Seq<Seq<char>>)
    ensures
        items.len() > 0 ==> problem_words(json::Json::Array(items)) == "配置问题:\n"@ + dashed(
            item_texts(items),
        ),
        problem_words(json::Json::Array(Seq::<json::Json>::empty())) == ""@,
        problem_words(json::Json::Null) == ""@,
        item_texts(texts.map_values(|t: Seq<char>| json::Json::Str(t))) == texts,
{
    assert(item_texts(texts.map_values(|t: Seq<char>| json::Json::Str(t))) =~= texts);
}

/// A text that is passed on ends with exactly the line end that it had, or with one.
pub proof fn law_ended(s: Seq<char>)
    ensures
        ended(s + "\n"@) == s + "\n"@,
        s.len() == 0 || s.last() != '\n' ==> ended(s) == s + "\n"@,
{
    reveal_strlit("\n");
    assert((s + "\n"@).last() == '\n');
}

}
