use guardian::auth::{
    attempt_outcome, authenticate, authenticate_with_ac, build_login_url, candidate_ips, interpret,
    judge, judge_status, portal_endpoint, redact_password, sources_differ, truncate, urlencode,
    AuthOutcome, LoginStep,
};
use guardian::http::{prepare_get, Error, Response};
use guardian::{Config, Operator};

fn cfg() -> Config {
    let mut c = Config::default();
    c.auth_url = "http://10.0.0.1:801/eportal/portal/login".into();
    c.student_id = "12345678".into();
    c.operator = Operator::Unicom;
    c.password = "TestPass123".into();
    c
}

#[test]
fn url_encode_account() {
    assert_eq!(urlencode(",0,12345678@unicom"), "%2C0%2C12345678%40unicom");
    assert_eq!(urlencode("pw/1+2"), "pw%2F1%2B2");
}

#[test]
fn urlencode_edge_empty_and_special() {
    assert_eq!(urlencode(""), "");
    assert_eq!(urlencode("=&%#+"), "%3D%26%25%23%2B");
    assert_eq!(urlencode("中文"), "%E4%B8%AD%E6%96%87");
    assert_eq!(urlencode("a b"), "a%20b");
    assert_eq!(urlencode("-_.~"), "-_.~");
}

#[test]
fn login_url_shape() {
    let url = build_login_url(&cfg(), "10.20.30.40", "dr1005", None);
    assert!(url.starts_with("http://10.0.0.1:801/eportal/portal/login?callback=dr1005&"));
    assert!(url.contains("user_account=%2C0%2C12345678%40unicom"));
    assert!(url.contains("user_password=TestPass123"));
    assert!(url.contains("wlan_user_ip=10.20.30.40"));
    assert!(url.contains("jsVersion=4.1.3"));
}

#[test]
fn interpret_success() {
    let o = interpret(r#"dr1005({"result":1,"msg":"Portal协议认证成功！"});"#);
    assert_eq!(o, AuthOutcome::Success);
}

#[test]
fn interpret_already_online() {
    let o = interpret(r#"dr1005({"result":0,"msg":"IP: 10.20.30.41 已经在线！","ret_code":2});"#);
    assert_eq!(o, AuthOutcome::AlreadyOnline);
}

#[test]
fn interpret_ac_fail() {
    let o = interpret(r#"dr1005({"result":0,"msg":"AC认证失败","ret_code":1});"#);
    assert_eq!(
        o,
        AuthOutcome::Failed {
            msg: "AC认证失败".into()
        }
    );
}

#[test]
fn interpret_garbage() {
    assert!(matches!(interpret("not jsonp"), AuthOutcome::Failed { .. }));
}

#[test]
fn interpret_success_has_no_ret_code() {
    let o = interpret(r#"dr1005({"result":"1","msg":"ok"});"#);
    assert!(matches!(o, AuthOutcome::Failed { .. }));
}

#[test]
fn parse_jsonp_msg_with_brackets() {
    let o = interpret(r#"dr1005({"result":0,"msg":"失败(原因:AC(x))","ret_code":1});"#);
    assert_eq!(
        o,
        AuthOutcome::Failed {
            msg: "失败(原因:AC(x))".into()
        }
    );
}

#[test]
fn interpret_unknown_result_code() {
    let o = interpret(r#"dr1005({"result":3,"msg":"奇怪"});"#);
    assert!(matches!(o, AuthOutcome::Failed { .. }));
}

#[test]
fn parse_jsonp_no_parens() {
    assert!(matches!(interpret("dr1005"), AuthOutcome::Failed { .. }));
}

#[test]
fn outcome_describe_covers_all() {
    assert_eq!(AuthOutcome::Success.describe(), "成功");
    assert_eq!(AuthOutcome::AlreadyOnline.describe(), "已在线");
    assert!(AuthOutcome::Success.is_ok());
    assert!(!AuthOutcome::Failed { msg: "x".into() }.is_ok());
}

#[test]
fn redact_hides_password() {
    let url = build_login_url(&cfg(), "10.20.30.40", "dr1005", None);
    let safe = redact_password(&url);
    assert!(!safe.contains("TestPass123"), "密码不该出现在日志里");
    assert!(safe.contains("user_password=***"));
    assert!(safe.contains("wlan_user_ip=10.20.30.40"));
    assert!(safe.contains("user_account=%2C0%2C12345678%40unicom"));
}

#[test]
fn redact_password_in_middle_and_at_end() {
    assert_eq!(
        redact_password("http://x/?a=1&user_password=pw&b=2"),
        "http://x/?a=1&user_password=***&b=2"
    );
    assert_eq!(
        redact_password("http://x/?user_password=pw"),
        "http://x/?user_password=***"
    );
}

#[test]
fn redact_no_password_is_noop() {
    assert_eq!(redact_password("http://x/?a=1"), "http://x/?a=1");
}

#[test]
fn redact_handles_urlencoded_password() {
    let mut c = cfg();
    c.password = "p&w=1".into();
    let url = build_login_url(&c, "10.20.30.40", "dr1005", None);
    let safe = redact_password(&url);
    assert!(!safe.contains("p%26w%3D1"));
    assert!(safe.contains("user_password=***&wlan_user_ip="));
}

#[test]
fn fixed_ip_comes_first() {
    let mut c = cfg();
    c.fixed_ip = Some("10.9.9.9".into());
    let got = candidate_ips(&c, None, Some("10.8.8.8"), None);
    assert_eq!(got[0], "10.9.9.9");
}

#[test]
fn portal_ip_is_a_candidate() {
    let mut c = cfg();
    c.fixed_ip = None;
    let got = candidate_ips(&c, None, Some("10.8.8.8"), None);
    assert!(got.contains(&"10.8.8.8".to_string()));
}

#[test]
fn candidates_are_deduplicated() {
    let mut c = cfg();
    c.fixed_ip = Some("10.8.8.8".into());
    let got = candidate_ips(&c, None, Some("10.8.8.8"), None);
    assert_eq!(got.iter().filter(|x| *x == "10.8.8.8").count(), 1);
}

#[test]
fn blank_portal_ip_ignored() {
    let mut c = cfg();
    c.fixed_ip = None;
    let got = candidate_ips(&c, None, Some("   "), None);
    assert!(!got.iter().any(|x| x.trim().is_empty()));
}

#[test]
fn candidates_never_empty_when_fixed_ip_set() {
    let mut c = cfg();
    c.auth_url = "http://this-host-does-not-exist.invalid/eportal/portal/login".into();
    c.fixed_ip = Some("10.1.2.3".into());
    let got = candidate_ips(&c, None, None, None);
    assert!(got.contains(&"10.1.2.3".to_string()));
}

#[test]
fn jsonp_answers_in_words() {
    assert_eq!(
        interpret(r#"dr1005({"result":-3});"#),
        AuthOutcome::Failed { msg: "未知 result=-3".into() }
    );
    assert_eq!(
        interpret(")("),
        AuthOutcome::Failed { msg: "响应非 JSONP".into() }
    );
    assert_eq!(
        interpret("x({)"),
        AuthOutcome::Failed { msg: "响应非 JSONP".into() }
    );
    assert_eq!(
        interpret("x({\"result\":0,\"ret_code\":\"2\",\"msg\":5})"),
        AuthOutcome::Failed { msg: "".into() }
    );
    assert_eq!(interpret("x({\"result\":1,\"ret_code\":2})"), AuthOutcome::Success);
}

#[test]
fn reply_is_judged() {
    assert_eq!(judge(None), AuthOutcome::Failed { msg: "响应非 JSONP".into() });
    assert_eq!(judge(Some((1, None, "".into()))), AuthOutcome::Success);
    assert_eq!(judge(Some((0, Some(2), "m".into()))), AuthOutcome::AlreadyOnline);
    assert_eq!(
        judge(Some((0, Some(1), "m".into()))),
        AuthOutcome::Failed { msg: "m".into() }
    );
    assert_eq!(
        judge(Some((i64::MIN, None, "m".into()))),
        AuthOutcome::Failed { msg: "未知 result=-9223372036854775808".into() }
    );
}

fn answer(status: u16, body: &str) -> Result<Response, Error> {
    Ok(Response {
        status,
        headers: vec![],
        body: body.into(),
    })
}

#[test]
fn status_code_tells_a_gateway_from_a_portal() {
    assert_eq!(
        attempt_outcome(&answer(502, "bad gateway")),
        AuthOutcome::NetworkError { msg: "HTTP 502 - 响应非 JSONP".into() }
    );
    assert_eq!(
        attempt_outcome(&answer(299, "bad")),
        AuthOutcome::Failed { msg: "响应非 JSONP".into() }
    );
    assert_eq!(
        attempt_outcome(&answer(500, "x({\"result\":1})")),
        AuthOutcome::Success
    );
    assert_eq!(
        attempt_outcome(&answer(403, "x({\"result\":0,\"msg\":\"m\",\"ret_code\":1})")),
        AuthOutcome::Failed { msg: "m".into() }
    );
    assert_eq!(
        judge_status(Some((0, Some(2), "".into())), 302),
        AuthOutcome::AlreadyOnline
    );
    assert_eq!(
        judge_status(None, 199),
        AuthOutcome::NetworkError { msg: "HTTP 199 - 响应非 JSONP".into() }
    );
    assert_eq!(
        judge_status(None, 200),
        AuthOutcome::Failed { msg: "响应非 JSONP".into() }
    );
    assert_eq!(
        attempt_outcome(&Err(Error::Connect("h: refused".into()))),
        AuthOutcome::NetworkError { msg: "连接失败: h: refused".into() }
    );
}

#[test]
fn outcome_never_tells_credentials() {
    let mut c = cfg();
    c.auth_url = "nowhere".into();
    let url = build_login_url(&c, "10.20.30.40", "dr1005", None);
    let e = match prepare_get(&url, false) {
        Err(e) => e,
        Ok(_) => panic!("expected an error"),
    };
    assert_eq!(
        attempt_outcome(&Err(e)),
        AuthOutcome::NetworkError { msg: "非法地址: nowhere".into() }
    );
}

#[test]
fn outcomes_in_words() {
    assert_eq!(AuthOutcome::Failed { msg: "m".into() }.describe(), "失败(m)");
    assert_eq!(AuthOutcome::NetworkError { msg: "m".into() }.describe(), "网络错误(m)");
    assert!(AuthOutcome::AlreadyOnline.is_ok());
    assert!(!AuthOutcome::NetworkError { msg: "m".into() }.is_ok());
}

#[test]
fn whole_login_address() {
    let mut c = cfg();
    c.operator = Operator::Campus;
    c.password = "p w".into();
    assert_eq!(
        build_login_url(&c, "10.1.2.3", "dr1005", Some(("10.0.0.2", "AC 1"))),
        "http://10.0.0.1:801/eportal/portal/login?callback=dr1005&login_method=1&user_account=%2C0%2C12345678&user_password=p%20w&wlan_user_ip=10.1.2.3&wlan_user_ipv6=&wlan_user_mac=000000000000&wlan_ac_ip=10.0.0.2&wlan_ac_name=AC%201&jsVersion=4.1.3&terminal_type=1&lang=zh-cn&v=3015&lang=zh"
    );
}

#[test]
fn log_is_cut_at_characters() {
    assert_eq!(truncate("学号abc", 3), "学号a");
    assert_eq!(truncate("ab", 2), "ab");
    assert_eq!(truncate("ab", 0), "");
}

#[test]
fn candidates_in_order() {
    let mut c = cfg();
    c.fixed_ip = Some(" 1.1.1.1 ".into());
    assert_eq!(
        candidate_ips(&c, Some("2.2.2.2"), Some("3.3.3.3"), Some("4.4.4.4")),
        vec!["1.1.1.1", "2.2.2.2", "3.3.3.3", "4.4.4.4"]
    );
    assert_eq!(
        candidate_ips(&c, Some("2.2.2.2"), Some("2.2.2.2"), Some("1.1.1.1")),
        vec!["1.1.1.1", "2.2.2.2"]
    );
}

#[test]
fn differing_sources_are_noticed() {
    assert!(sources_differ(Some("1.1.1.1"), Some("2.2.2.2")));
    assert!(!sources_differ(Some("1.1.1.1"), Some(" 1.1.1.1 ")));
    assert!(!sources_differ(Some("1.1.1.1"), Some("  ")));
    assert!(!sources_differ(Some("1.1.1.1"), None));
    assert!(!sources_differ(None, Some("2.2.2.2")));
}

#[test]
fn endpoint_of_the_portal() {
    assert_eq!(portal_endpoint(&cfg()), Some(("10.0.0.1".to_string(), 801)));
    assert_eq!(portal_endpoint(&Config::default()), None);
}

fn tried_ip(step: LoginStep) -> String {
    match step {
        LoginStep::Try { ip, page_url, login_url, logged_url } => {
            assert_eq!(page_url, "http://10.0.0.1:801/srun_portal_pc.php?ac_id=1&");
            assert!(login_url.contains("user_password=TestPass123"));
            assert_eq!(logged_url, redact_password(&login_url));
            assert!(login_url.contains(&ip));
            ip
        }
        LoginStep::Done(o) => panic!("{o:?}"),
    }
}

fn outcome(step: LoginStep) -> AuthOutcome {
    match step {
        LoginStep::Done(o) => o,
        LoginStep::Try { ip, .. } => panic!("{ip}"),
    }
}

#[test]
fn login_ends_with_the_first_success() {
    let c = cfg();
    let mut l = authenticate_with_ac(&c, Some(("10.0.0.2", "AC", "3.3.3.3")), Some("2.2.2.2"), None);
    assert_eq!(tried_ip(l.step(&c)), "2.2.2.2");
    l.record(AuthOutcome::Failed { msg: "no".into() });
    assert_eq!(tried_ip(l.step(&c)), "3.3.3.3");
    l.record(AuthOutcome::AlreadyOnline);
    assert_eq!(outcome(l.step(&c)), AuthOutcome::AlreadyOnline);
}

#[test]
fn login_ends_with_the_last_failure() {
    let c = cfg();
    let mut l = authenticate(&c, Some("2.2.2.2"), Some("4.4.4.4"));
    assert_eq!(tried_ip(l.step(&c)), "2.2.2.2");
    l.record(AuthOutcome::Failed { msg: "one".into() });
    assert_eq!(tried_ip(l.step(&c)), "4.4.4.4");
    l.record(AuthOutcome::NetworkError { msg: "two".into() });
    assert_eq!(
        outcome(l.step(&c)),
        AuthOutcome::NetworkError { msg: "two".into() }
    );
}

#[test]
fn login_without_candidates() {
    let c = cfg();
    let l = authenticate(&c, None, None);
    assert_eq!(
        outcome(l.step(&c)),
        AuthOutcome::NetworkError { msg: "未探测到可用于认证的本机 IP".into() }
    );
}

#[test]
fn different_texts_are_encoded_differently() {
    let texts = ["%2C", ",", "2C", "%", "%2", "%252C", "é", "e\u{301}"];
    for (i, a) in texts.iter().enumerate() {
        for b in &texts[i + 1..] {
            assert_ne!(urlencode(a), urlencode(b));
        }
    }
}

#[test]
fn no_value_adds_a_parameter() {
    let mut c = cfg();
    c.student_id = "1&a=b?#".into();
    c.password = "x&y=z 中".into();
    let url = build_login_url(&c, "1&2=3", "c?b", Some(("=&", "#é")));
    let query = url.strip_prefix(c.auth_url.as_str()).unwrap();
    assert_eq!(query.matches('?').count(), 1);
    assert_eq!(query.matches('&').count(), 13);
    assert_eq!(query.matches('=').count(), 14);
    assert!(query.chars().all(|c| c.is_ascii_graphic() && c != '#'));
    assert_eq!(
        build_login_url(&c, "1", "c", None),
        build_login_url(&c, "1", "c", Some(("", "")))
    );
}
