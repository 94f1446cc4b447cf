use guardian::config::{parse_uci, parse_uci_value};
use guardian::http::{parse_url, Scheme};
use guardian::{Config, Operator};
use std::time::Duration;

const SAMPLE: &str = r#"
config campus-auth-guardian 'main'
	option enabled '1'
	option auth_url 'http://10.0.0.1:801/eportal/portal/login'
	option check_url 'http://www.baidu.com'
	option check_interval '15'
	option wan_iface 'wan'
	option fixed_ip ''
	option operator 'unicom'
	option student_id '12345678'
	option password 'TestPass123'
	option retry_interval '5'
	option max_retries '7'
"#;

#[test]
fn parses_full_config() {
    let cfg = Config::parse(SAMPLE);
    assert!(cfg.enabled);
    assert_eq!(
        cfg.auth_url,
        "http://10.0.0.1:801/eportal/portal/login"
    );
    assert_eq!(cfg.check_interval, Duration::from_secs(15));
    assert_eq!(cfg.wan_iface.as_deref(), Some("wan"));
    assert_eq!(cfg.fixed_ip, None, "空值应归一为 None");
    assert_eq!(cfg.operator, Operator::Unicom);
    assert_eq!(cfg.student_id, "12345678");
    assert_eq!(cfg.password, "TestPass123");
    assert_eq!(cfg.retry_interval, Duration::from_secs(5));
    assert_eq!(cfg.max_retries, 7);
}

#[test]
fn empty_text_gives_defaults() {
    assert_eq!(Config::parse(""), Config::default());
    assert_eq!(Config::parse("\n# 只有注释\n   \n"), Config::default());
}

#[test]
fn defaults_enabled_on_router() {
    assert!(Config::default().enabled);
}

#[test]
fn interval_bounds_clamped_to_default() {
    let cfg = Config::parse(
        "config campus-auth-guardian 'main'\n\toption check_interval '99999'\n\toption retry_interval '0'\n\toption max_retries '9999'\n",
    );
    assert_eq!(cfg.check_interval, Duration::from_secs(30));
    assert_eq!(cfg.retry_interval, Duration::from_secs(10));
    assert_eq!(cfg.max_retries, 3);
}

#[test]
fn interval_bounds_edges_accepted() {
    let lo = Config::parse(
        "config x 'main'\n\toption check_interval '1'\n\toption retry_interval '1'\n\toption max_retries '1'\n",
    );
    assert_eq!(lo.check_interval, Duration::from_secs(1));
    assert_eq!(lo.max_retries, 1);

    let hi = Config::parse(
        "config x 'main'\n\toption check_interval '3600'\n\toption retry_interval '3600'\n\toption max_retries '100'\n",
    );
    assert_eq!(hi.check_interval, Duration::from_secs(3600));
    assert_eq!(hi.max_retries, 100);
}

#[test]
fn value_quoting_and_escapes() {
    assert_eq!(parse_uci_value("'abc'"), "abc");
    assert_eq!(parse_uci_value("\"abc\""), "abc");
    assert_eq!(parse_uci_value("abc"), "abc");
    assert_eq!(parse_uci_value("'a b c'"), "a b c");
    assert_eq!(parse_uci_value(r"'it\'s'"), "it's");
    assert_eq!(parse_uci_value(r"'back\\slash'"), r"back\slash");
    assert_eq!(parse_uci_value("''"), "");
}

#[test]
fn value_with_equals_and_spaces() {
    let cfg = Config::parse(
        "config x 'main'\n\toption password 'a=b c=d'\n\toption student_id 'x y'\n",
    );
    assert_eq!(cfg.password, "a=b c=d");
    assert_eq!(cfg.student_id, "x y");
}

#[test]
fn anonymous_section_still_parsed() {
    let cfg = Config::parse("config campus-auth-guardian\n\toption student_id 'abc'\n");
    assert_eq!(cfg.student_id, "abc");
}

#[test]
fn later_option_wins() {
    let cfg = Config::parse("config x 'main'\n\toption student_id 'a'\n\toption student_id 'b'\n");
    assert_eq!(cfg.student_id, "b");
}

#[test]
fn unicode_values_survive() {
    let cfg = Config::parse("config x 'main'\n\toption student_id '学号123🎯'\n");
    assert_eq!(cfg.student_id, "学号123🎯");
}

#[test]
fn normalize_auth_url_cases() {
    assert_eq!(
        Config::normalize_auth_url("http://10.0.0.1/"),
        "http://10.0.0.1:801/eportal/portal/login"
    );
    assert_eq!(
        Config::normalize_auth_url("10.0.0.1"),
        "http://10.0.0.1:801/eportal/portal/login"
    );
    assert_eq!(
        Config::normalize_auth_url("http://10.0.0.1:8080/"),
        "http://10.0.0.1:8080/eportal/portal/login"
    );
    assert_eq!(
        Config::normalize_auth_url("http://10.0.0.1:801/eportal/portal/login"),
        "http://10.0.0.1:801/eportal/portal/login"
    );
    assert_eq!(Config::normalize_auth_url(""), "");
}

#[test]
fn portal_base_and_login_page() {
    let mut cfg = Config::default();
    cfg.auth_url = "http://10.0.0.1:801/eportal/portal/login".into();
    assert_eq!(cfg.portal_base(), "http://10.0.0.1:801");
    assert_eq!(
        cfg.login_page_url(),
        "http://10.0.0.1:801/srun_portal_pc.php?ac_id=1&"
    );
}

#[test]
fn validate_reports_missing_credentials() {
    let cfg = Config::default();
    let problems = cfg.validate();
    assert!(problems.iter().any(|p| p.contains("学号")));
    assert!(problems.iter().any(|p| p.contains("密码")));
}

#[test]
fn empty_auth_url_stays_empty_and_is_reported() {
    let cfg = Config::parse("config x 'main'\n\toption auth_url ''\n");
    assert_eq!(cfg.auth_url, "");
    assert!(cfg.validate().iter().any(|p| p.contains("认证服务器地址")));
}

#[test]
fn default_auth_url_is_empty() {
    assert_eq!(Config::default().auth_url, "");
}

#[test]
fn validate_accepts_complete_config() {
    let cfg = Config::parse(SAMPLE);
    assert_eq!(cfg.validate(), Vec::<String>::new());
}

#[test]
fn validate_rejects_bad_fixed_ip() {
    let cfg = Config::parse(
        "config x 'main'\n\toption student_id '1'\n\toption password 'p'\n\toption fixed_ip '169.254.1.1'\n",
    );
    assert!(cfg.validate().iter().any(|p| p.contains("fixed_ip")));
}

#[test]
fn operator_parse_and_display() {
    assert_eq!(Operator::parse("UNICOM"), Some(Operator::Unicom));
    assert_eq!(Operator::parse(" cmcc "), Some(Operator::Cmcc));
    assert_eq!(Operator::parse("bogus"), None);
    assert_eq!(Operator::Campus.display(), "校园网");
    assert_eq!(Operator::Telecom.as_str(), "telecom");
    assert_eq!(Operator::ALL.len(), 4);
}

#[test]
fn empty_text_is_no_configuration_file() {
    assert_eq!(Config::load(None), Config::default());
    assert_eq!(Config::load(Some(SAMPLE)), Config::parse(SAMPLE));
    assert_eq!(Config::default_path(), "/etc/config/campus-auth-guardian");
}

#[test]
fn main_section_goes_before_others() {
    let cfg = Config::parse(
        "option student_id 'lost'\nconfig a 'first'\n\toption student_id '1'\nconfig b main\n\toption student_id '2'\n\toption STUDENT_ID 3\nconfig c 'main'\n\toption student_id '4'\n",
    );
    assert_eq!(cfg.student_id, "3");
}

#[test]
fn sections_in_detail() {
    let secs = parse_uci("config a\nconfig b ''\r\n\tlist\tx  'y z'\n\toption alone\n\tother q 1\n# option x 2\n");
    assert_eq!(secs.len(), 2);
    assert_eq!(secs[0].kind, "a");
    assert_eq!(secs[0].name, None);
    assert_eq!(secs[1].name, None);
    assert_eq!(secs[1].options, vec![("x".to_string(), "y z".to_string())]);
    assert_eq!(secs[1].get("X"), Some("y z"));
    assert_eq!(secs[1].get("alone"), None);
}

#[test]
fn odd_quotes_and_backslashes() {
    assert_eq!(parse_uci_value("'"), "'");
    assert_eq!(parse_uci_value(r"'a\n\'"), r"a\n\");
    assert_eq!(parse_uci_value(" 'a\" "), "'a\"");
    assert_eq!(parse_uci_value(r#""a\'b""#), r"a\'b");
    assert_eq!(parse_uci_value("\"\""), "");
}

#[test]
fn switches() {
    for v in ["1", "true", "yes", "on", "enabled", " on "] {
        assert!(Config::parse(&format!("config x main\noption enabled \"{v}\"\n")).enabled);
    }
    for v in ["0", "false", "no", "off", "disabled"] {
        assert!(!Config::parse(&format!("config x main\noption enabled '{v}'\n")).enabled);
    }
    assert!(Config::parse("config x main\noption enabled 'maybe'\n").enabled);
}

#[test]
fn blank_values() {
    let cfg = Config::parse(
        "config x main\noption wan_iface ' '\noption check_url '  '\noption operator 'bogus'\noption fixed_ip ' 10.0.0.9 '\noption password ' p '\n",
    );
    assert_eq!(cfg.wan_iface, None);
    assert_eq!(cfg.check_url, "http://www.baidu.com");
    assert_eq!(cfg.operator, Operator::Campus);
    assert_eq!(cfg.fixed_ip.as_deref(), Some("10.0.0.9"));
    assert_eq!(cfg.password, " p ");
}

#[test]
fn completed_addresses() {
    assert_eq!(
        Config::normalize_auth_url("  https://portal.example.edu?x=1#y "),
        "https://portal.example.edu:801/eportal/portal/login"
    );
    assert_eq!(
        Config::normalize_auth_url("http://[fe80::1]/"),
        "http://[fe80::1]:801/eportal/portal/login"
    );
    assert_eq!(
        Config::normalize_auth_url("http://[fe80::1]:802/x//"),
        "http://[fe80::1]:802/x/eportal/portal/login"
    );
    assert_eq!(
        Config::normalize_auth_url(" http://h/eportal?x "),
        "http://h/eportal?x"
    );
    assert_eq!(
        Config::normalize_auth_url("http://eportal.example.edu"),
        "http://eportal.example.edu:801/eportal/portal/login"
    );
    assert_eq!(
        Config::normalize_auth_url("http://10.0.0.1/a79.htm"),
        "http://10.0.0.1:801/a79.htm/eportal/portal/login"
    );
    assert_eq!(
        Config::normalize_auth_url("10.0.0.1/eportal/portal/login"),
        "10.0.0.1/eportal/portal/login"
    );
    assert_eq!(Config::normalize_auth_url("a?://"), "a:801/eportal/portal/login");
    assert_eq!(
        Config::normalize_auth_url("http://h://x"),
        "http://h:801://x/eportal/portal/login"
    );
    let once = Config::normalize_auth_url("h:1/?a://b");
    assert_eq!(Config::normalize_auth_url(&once), once);
}

#[test]
fn problems_in_words() {
    let mut cfg = Config::default();
    cfg.student_id = "  ".into();
    cfg.auth_url = "nowhere".into();
    cfg.check_url = "x".into();
    cfg.fixed_ip = Some("127.0.0.1".into());
    assert_eq!(
        cfg.validate(),
        vec![
            "学号未填写（student_id）",
            "密码未填写（password）",
            "认证服务器地址无法解析：nowhere",
            "连通性检测地址无法解析：x",
            "fixed_ip 不是可用的 IPv4 地址：127.0.0.1",
        ]
    );
    assert_eq!(
        Config::default().validate(),
        vec![
            "学号未填写（student_id）",
            "密码未填写（password）",
            "认证服务器地址未填写（auth_url）",
        ]
    );
}

#[test]
fn operators_read_back() {
    for op in Operator::ALL {
        assert_eq!(Operator::parse(op.as_str()), Some(op));
    }
    assert_eq!(Operator::Cmcc.display(), "中国移动");
    assert_eq!(Operator::Unicom.display(), "中国联通");
    assert_eq!(Operator::Telecom.display(), "中国电信");
}

#[test]
fn port_is_read_back_from_a_completed_address() {
    let url = Config::normalize_auth_url("http://10.0.0.1/a79.htm");
    assert_eq!(
        parse_url(&url),
        Some((
            Scheme::Http,
            "10.0.0.1".into(),
            801,
            "/a79.htm/eportal/portal/login".into()
        ))
    );
}

#[test]
fn forms_of_an_address_mean_the_same() {
    for (server, base) in [
        ("10.0.0.1", "http://10.0.0.1:801"),
        ("10.0.0.1:8080", "http://10.0.0.1:8080"),
        ("eportal.example.edu", "http://eportal.example.edu:801"),
        ("eportal:80", "http://eportal:80"),
        ("[fe80::1]", "http://[fe80::1]:801"),
    ] {
        let full = format!("{base}/eportal/portal/login");
        for raw in [
            server.to_string(),
            format!("http://{server}"),
            format!("http://{server}/"),
            full.clone(),
        ] {
            let mut cfg = Config::default();
            cfg.auth_url = Config::normalize_auth_url(&raw);
            assert_eq!(cfg.auth_url, full);
            assert_eq!(cfg.portal_base(), base);
        }
    }
}

#[test]
fn portal_base_is_scheme_host_and_port() {
    let mut cfg = Config::default();
    cfg.auth_url = Config::normalize_auth_url("http://10.0.0.1/a79.htm");
    assert_eq!(cfg.portal_base(), "http://10.0.0.1:801");
    cfg.auth_url = "http://h:1?x=/eportal".into();
    assert_eq!(cfg.portal_base(), "http://h:1");
    cfg.auth_url = "".into();
    assert_eq!(cfg.portal_base(), "");
}
