use guardian::auth::AuthOutcome;
use guardian::cli::{
    auth_report, check_report, describe_auth, describe_net, detect_report, help_text,
    no_status_report, status_report, status_text, validate_report, version_text, Args, Command,
    Request,
};
use guardian::guardian::{Event, STATUS_FILE};
use guardian::ipdetect::AdapterIp;
use guardian::netcheck::NetStatus;
use guardian::{Config, Guardian};
use std::time::Duration;

fn value(s: &str) -> serde_json::Value {
    serde_json::from_str(s).unwrap()
}

fn args(argv: &[&str]) -> Result<Request, String> {
    let argv: Vec<String> = argv.iter().map(|a| a.to_string()).collect();
    Args::parse(&argv)
}

fn command(argv: &[&str]) -> (String, String, bool) {
    match args(argv) {
        Ok(Request::Command(a)) => (a.cmd, a.config, a.json),
        other => panic!("{other:?}"),
    }
}

fn complete() -> Config {
    let mut c = Config::default();
    c.auth_url = "http://10.0.0.1:801/eportal/portal/login".into();
    c.student_id = "1".into();
    c.password = "p".into();
    c
}

#[test]
fn arguments() {
    let path = "/etc/config/campus-auth-guardian".to_string();
    assert_eq!(command(&[]), ("run".into(), path.clone(), false));
    assert_eq!(command(&["--json", "status"]), ("status".into(), path.clone(), true));
    assert_eq!(command(&["auth", "-c", "x"]), ("auth".into(), "x".into(), false));
    assert_eq!(command(&["--config", "x", "auth"]), ("auth".into(), "x".into(), false));
    assert_eq!(command(&["--config=x", "auth"]), ("auth".into(), "x".into(), false));
    assert_eq!(command(&["--config="]), ("run".into(), "".into(), false));
    assert_eq!(command(&["-c", "--json"]), ("run".into(), "--json".into(), false));
    assert_eq!(command(&["-"]), ("-".into(), path.clone(), false));
    assert_eq!(command(&[""]), ("".into(), path, false));
}

#[test]
fn help_and_version_options() {
    assert!(matches!(args(&["-h"]), Ok(Request::Help)));
    assert!(matches!(args(&["auth", "--help", "--nonsense"]), Ok(Request::Help)));
    assert!(matches!(args(&["-V"]), Ok(Request::Version)));
    assert!(matches!(args(&["--version", "-h"]), Ok(Request::Version)));
}

#[test]
fn wrong_arguments() {
    assert_eq!(args(&["-c"]).unwrap_err(), "--config 需要一个路径参数");
    assert_eq!(args(&["--nonsense"]).unwrap_err(), "未知选项 '--nonsense'");
    assert_eq!(args(&["auth", "check"]).unwrap_err(), "多余的命令 'check'");
}

#[test]
fn command_names() {
    assert_eq!(Command::named("run"), Ok(Command::Run));
    assert_eq!(Command::named("auth"), Ok(Command::Auth));
    assert_eq!(Command::named("status"), Ok(Command::Status));
    assert_eq!(Command::named("check"), Ok(Command::Check));
    assert_eq!(Command::named("detect-ip"), Ok(Command::DetectIp));
    assert_eq!(Command::named("validate"), Ok(Command::Validate));
    assert_eq!(Command::named("x"), Err("未知命令 'x'".to_string()));
}

#[test]
fn help_in_words() {
    assert_eq!(version_text(), "campus-auth-guardian 0.1.0\n");
    let help = help_text();
    assert!(help.starts_with("campus-auth-guardian 0.1.0 —— 校园网 ePortal 认证守护进程（OpenWrt）\n\n用法: "));
    assert!(help.contains("  -c, --config <路径>   配置文件路径（默认 /etc/config/campus-auth-guardian）\n      --json "));
    assert!(help.ends_with("\n  SIGTERM   退出\n"));
}

#[test]
fn login_reports() {
    let all = [
        (AuthOutcome::Success, "认证成功\n", 0, r#"{"kind":"success","msg":""}"#),
        (AuthOutcome::AlreadyOnline, "已在线，无需认证\n", 0, r#"{"kind":"already_online","msg":""}"#),
        (AuthOutcome::Failed { msg: "m".into() }, "认证失败: m\n", 1, r#"{"kind":"failed","msg":"m"}"#),
        (
            AuthOutcome::NetworkError { msg: "m".into() },
            "网络错误: m\n",
            2,
            r#"{"kind":"network_error","msg":"m"}"#,
        ),
    ];
    for (outcome, words, code, json) in all {
        let r = auth_report(&outcome, false);
        assert_eq!((r.text.as_str(), r.code), (words, code));
        let r = auth_report(&outcome, true);
        assert_eq!((r.text, r.code), (format!("{json}\n"), code));
    }
}

#[test]
fn check_reports() {
    let r = check_report("http://c/", &NetStatus::Connected, false);
    assert_eq!((r.text.as_str(), r.code), ("检测地址: http://c/\n结果: 已连通\n", 0));
    let portal = NetStatus::CaptivePortal {
        redirect: "http://p/?wlanacip=1&wlanacname=n&wlanuserip=2".into(),
    };
    let r = check_report("u", &portal, false);
    assert_eq!(
        r.text,
        "检测地址: u\n结果: 被劫持到认证门户\n重定向: http://p/?wlanacip=1&wlanacname=n&wlanuserip=2\nAC IP:   1\nAC 名称: n\n会话 IP: 2\n"
    );
    assert_eq!(r.code, 1);
    let blocked = NetStatus::CaptivePortal { redirect: "".into() };
    let r = check_report("u", &blocked, false);
    assert_eq!(
        r.text,
        "检测地址: u\n结果: 被劫持到认证门户（无重定向地址，疑似 200 拦截）\n"
    );
    assert_eq!(r.code, 1);
    let r = check_report("u", &NetStatus::DnsPending, false);
    assert_eq!(r.text, "检测地址: u\n结果: DNS 暂不可用（认证刚生效时常见）\n");
    assert_eq!(r.code, 1);
    let down = NetStatus::Disconnected { reason: "r".into() };
    let r = check_report("u", &down, false);
    assert_eq!(r.text, "检测地址: u\n结果: 无法联网 —— r\n");
    assert_eq!(r.code, 2);
    let r = check_report("u", &down, true);
    assert_eq!(r.text, "{\"kind\":\"disconnected\",\"reason\":\"r\"}\n");
    assert_eq!(r.code, 2);
}

#[test]
fn status_of_a_guardian() {
    let mut g = Guardian::start(complete());
    g.kick();
    g.step(Event::Turn, 5, Duration::from_secs(0));
    let outcome = AuthOutcome::Failed { msg: "no".into() };
    g.step(Event::AuthDone { outcome }, 1788220800, Duration::from_secs(0));
    let r = status_report(&g.status_text(), false).unwrap();
    assert_eq!(
        r.text,
        "版本:     0.1.0\n守护:     开启\n状态:     monitoring\n网络:     未知\n上次认证: 失败 —— no\n认证时间: 1788220800\n连续失败: 1\n下次检测: 30 秒后\n"
    );
    assert_eq!(r.code, 0);
}

#[test]
fn status_of_a_new_guardian() {
    let g = Guardian::start(Config::default());
    assert_eq!(
        status_text(&g.status_json()),
        "版本:     0.1.0\n守护:     开启\n状态:     monitoring\n网络:     未知\n上次认证: （本次启动后尚未认证）\n连续失败: 0\n下次检测: 0 秒后\n配置问题:\n  - 学号未填写（student_id）\n  - 密码未填写（password）\n  - 认证服务器地址未填写（auth_url）\n"
    );
}

#[test]
fn odd_status() {
    assert_eq!(
        status_text(&value("[1]")),
        "版本:     ?\n守护:     关闭\n状态:     ?\n网络:     未知\n上次认证: （本次启动后尚未认证）\n连续失败: null\n下次检测: null 秒后\n"
    );
    assert_eq!(
        status_text(&value(
            r#"{"version":1,"enabled":"x","consecutive_failures":"a","next_check_secs":1.50,"config_problems":["p",7]}"#
        )),
        "版本:     ?\n守护:     关闭\n状态:     ?\n网络:     未知\n上次认证: （本次启动后尚未认证）\n连续失败: \"a\"\n下次检测: 1.5 秒后\n配置问题:\n  - p\n  - ?\n"
    );
}

#[test]
fn status_as_json_is_passed_on() {
    let r = status_report("{\"a\": 1}", true).unwrap();
    assert_eq!((r.text.as_str(), r.code), ("{\"a\": 1}\n", 0));
    let r = status_report("not json\n", true).unwrap();
    assert_eq!((r.text.as_str(), r.code), ("not json\n", 0));
    let r = status_report("", true).unwrap();
    assert_eq!(r.text, "\n");
}

#[test]
fn unreadable_status() {
    let e = status_report("{", false).unwrap_err();
    assert!(e.starts_with(&format!("{STATUS_FILE} 内容不是合法 JSON: ")));
    let why = serde_json::from_str::<serde_json::Value>("{").unwrap_err().to_string();
    assert!(e.ends_with(&why));
}

#[test]
fn missing_status() {
    let r = no_status_report(false);
    assert_eq!(
        r.text,
        "守护进程未在运行（/var/run/campus-auth-guardian/status.json 不存在）\n"
    );
    assert_eq!(r.code, 1);
    let r = no_status_report(true);
    assert_eq!((r.text.as_str(), r.code), ("{\"running\":false}\n", 1));
}

#[test]
fn described_networks() {
    assert_eq!(describe_net(&value(r#"{"kind":"connected"}"#)), "已连通");
    assert_eq!(
        describe_net(&value(r#"{"kind":"captive_portal","redirect":"http://p/"}"#)),
        "被劫持到认证门户（http://p/）"
    );
    assert_eq!(
        describe_net(&value(r#"{"kind":"captive_portal","redirect":""}"#)),
        "被劫持到认证门户"
    );
    assert_eq!(describe_net(&value(r#"{"kind":"captive_portal"}"#)), "被劫持到认证门户");
    assert_eq!(describe_net(&value(r#"{"kind":"dns_pending"}"#)), "DNS 暂不可用");
    assert_eq!(
        describe_net(&value(r#"{"kind":"disconnected","reason":"r"}"#)),
        "无法联网 —— r"
    );
    assert_eq!(describe_net(&value(r#"{"kind":"disconnected"}"#)), "无法联网 —— ?");
    assert_eq!(describe_net(&value(r#"{"kind":"x"}"#)), "未知");
    assert_eq!(describe_net(&value("null")), "未知");
}

#[test]
fn described_logins() {
    assert_eq!(describe_auth(&value(r#"{"kind":"success"}"#)), "成功");
    assert_eq!(describe_auth(&value(r#"{"kind":"already_online"}"#)), "已在线");
    assert_eq!(describe_auth(&value(r#"{"kind":"failed","msg":"m"}"#)), "失败 —— m");
    assert_eq!(describe_auth(&value(r#"{"kind":"failed"}"#)), "失败 —— ?");
    assert_eq!(
        describe_auth(&value(r#"{"kind":"network_error","msg":"m"}"#)),
        "网络错误 —— m"
    );
    assert_eq!(describe_auth(&value(r#"{"kind":1}"#)), "（本次启动后尚未认证）");
}

fn adapters() -> Vec<AdapterIp> {
    vec![
        AdapterIp {
            name: "wan".into(),
            ip: "10.20.30.41".into(),
            mac: Some("00:1B".into()),
        },
        AdapterIp {
            name: "a-very-long-interface".into(),
            ip: "127.0.0.1".into(),
            mac: None,
        },
    ]
}

#[test]
fn addresses_in_words() {
    let c = complete();
    let r = detect_report("/p", &c, Some("10.20.30.41"), None, &adapters(), false);
    assert_eq!(
        r.text,
        "配置文件:   /p\n认证地址:   http://10.0.0.1:801/eportal/portal/login\n门户根地址: http://10.0.0.1:801\n\n内核选定的源 IP（通往门户）: 10.20.30.41\n兜底探测结果:               （无）\n\n全部 IPv4 地址:\n  wan              10.20.30.41      00:1B    评分=5\n  a-very-long-interface 127.0.0.1        -        评分=1  [不可用于认证]\n\n认证时实际使用的候选 IP 依次为：fixed_ip → 上面的「源 IP」→ 门户报告的会话 IP → 兜底结果\n"
    );
    assert_eq!(r.code, 0);
}

#[test]
fn no_address_at_all() {
    let mut c = Config::default();
    let r = detect_report("/p", &c, None, None, &Vec::new(), false);
    assert!(r.text.contains("（探测失败）\n兜底探测结果:               （无）\n\n全部 IPv4 地址:\n  （一个都没枚举到）\n\n"));
    assert_eq!(r.code, 1);
    assert_eq!(detect_report("/p", &c, None, None, &Vec::new(), true).code, 0);
    c.fixed_ip = Some("10.0.0.9".into());
    assert_eq!(detect_report("/p", &c, None, None, &Vec::new(), false).code, 0);
}

#[test]
fn addresses_as_json() {
    let c = complete();
    let r = detect_report("/p", &c, None, Some("10.20.30.41"), &adapters(), true);
    assert!(r.text.ends_with('\n'));
    assert_eq!(
        value(&r.text),
        value(
            r#"{"auth_url":"http://10.0.0.1:801/eportal/portal/login","portal_base":"http://10.0.0.1:801","kernel_source_ip":null,"wan_iface":"wan","fallback_ip":"10.20.30.41","adapters":[{"name":"wan","ip":"10.20.30.41","mac":"00:1B","usable":true,"score":5},{"name":"a-very-long-interface","ip":"127.0.0.1","mac":null,"usable":false,"score":1}]}"#
        )
    );
}

#[test]
fn validation_reports() {
    let mut c = complete();
    let r = validate_report(&c, false, false);
    assert_eq!((r.text.as_str(), r.code), ("配置正常。\n", 0));
    let r = validate_report(&c, false, true);
    assert_eq!(value(&r.text), value(r#"{"ok":true,"problems":[]}"#));
    c.password = "".into();
    c.check_url = "https://c/".into();
    c.auth_url = "".into();
    let r = validate_report(&c, false, false);
    assert_eq!(
        r.text,
        "发现 4 个问题：\n  - 密码未填写（password）\n  - 认证服务器地址未填写（auth_url）\n  - 检测地址不可用：https://c/ 是 https，但当前二进制未编译 TLS 支持\n  - 认证地址不可用：无法解析: \n"
    );
    assert_eq!(r.code, 1);
    let r = validate_report(&c, false, true);
    assert_eq!(r.code, 1);
    assert_eq!(value(&r.text)["problems"].as_array().unwrap().len(), 4);
    assert_eq!(value(&r.text)["ok"], false);
    let r = validate_report(&c, true, true);
    assert_eq!(value(&r.text)["problems"].as_array().unwrap().len(), 3);
}
