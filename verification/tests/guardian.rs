use guardian::auth::AuthOutcome;
use guardian::guardian::{auth_outcome_json, backoff_delay, net_status_json, Action, Event};
use guardian::netcheck::NetStatus;
use guardian::{Config, Guardian, GuardianState, Operator};
use std::time::Duration;

const NOW: u64 = 1788220800;

fn at(secs: u64) -> Duration {
    Duration::from_secs(secs)
}

fn portal() -> NetStatus {
    NetStatus::CaptivePortal {
        redirect: "http://x/a79.htm?wlanuserip=10.20.30.41".into(),
    }
}

fn failed() -> AuthOutcome {
    AuthOutcome::Failed {
        msg: "AC认证失败".into(),
    }
}

fn no_network() -> NetStatus {
    NetStatus::Disconnected { reason: "x".into() }
}

fn auth_done(outcome: AuthOutcome) -> Event {
    Event::AuthDone { outcome }
}

fn net_done(status: NetStatus) -> Event {
    Event::NetDone { status }
}

#[test]
fn backoff_grows_and_caps() {
    let mut cfg = Config::default();
    cfg.retry_interval = Duration::from_secs(10);
    assert_eq!(backoff_delay(&cfg, 0), Duration::from_secs(30));
    assert_eq!(backoff_delay(&cfg, 1), Duration::from_secs(10));
    assert_eq!(backoff_delay(&cfg, 2), Duration::from_secs(20));
    assert_eq!(backoff_delay(&cfg, 3), Duration::from_secs(40));
    assert_eq!(backoff_delay(&cfg, 8), Duration::from_secs(600));
}

#[test]
fn backoff_does_not_overflow() {
    let mut cfg = Config::default();
    cfg.retry_interval = Duration::from_secs(3600);
    assert_eq!(backoff_delay(&cfg, u32::MAX), Duration::from_secs(600));
    cfg.retry_interval = Duration::from_secs(u64::MAX);
    assert_eq!(backoff_delay(&cfg, 2), Duration::from_secs(600));
}

#[test]
fn backoff_counts_whole_seconds() {
    let mut cfg = Config::default();
    cfg.retry_interval = Duration::from_millis(1900);
    assert_eq!(backoff_delay(&cfg, 4), Duration::from_secs(8));
    cfg.check_interval = Duration::from_millis(2500);
    assert_eq!(backoff_delay(&cfg, 0), Duration::from_millis(2500));
}

#[test]
fn state_strings_are_stable() {
    assert_eq!(GuardianState::Stopped.as_str(), "stopped");
    assert_eq!(GuardianState::Monitoring.as_str(), "monitoring");
    assert_eq!(GuardianState::Authenticating.as_str(), "authenticating");
}

#[test]
fn status_json_shape() {
    let mut cfg = Config::default();
    cfg.auth_url = "http://10.0.0.1:801/eportal/portal/login".into();
    cfg.student_id = "12345678".into();
    cfg.password = "TestPass123".into();
    cfg.operator = Operator::Unicom;
    let g = Guardian::start(cfg);

    let v = g.status_json();
    assert_eq!(v["state"], "monitoring");
    assert_eq!(v["enabled"], true);
    assert_eq!(v["consecutive_failures"], 0);
    assert!(v["net"].is_null());
    assert!(v["last_auth"].is_null());
    assert_eq!(v["config_problems"].as_array().unwrap().len(), 0);
    assert_eq!(v["version"], "0.1.0");
    assert!(v["last_auth_ts"].is_null());
    assert!(v["last_net_ts"].is_null());
    assert_eq!(v["next_check_secs"], 0);
}

#[test]
fn status_json_reports_unconfigured_auth_url() {
    let mut cfg = Config::default();
    cfg.student_id = "12345678".into();
    cfg.password = "TestPass123".into();
    let problems = Guardian::start(cfg).status_json()["config_problems"]
        .as_array()
        .unwrap()
        .len();
    assert_eq!(problems, 1, "只差认证地址一项");
}

#[test]
fn status_json_never_contains_password() {
    let mut cfg = Config::default();
    cfg.student_id = "12345678".into();
    cfg.password = "SuperSecret123".into();
    let g = Guardian::start(cfg);
    let text = g.status_json().to_string();
    assert!(!text.contains("SuperSecret123"), "状态文件泄漏了密码: {text}");
    assert!(!text.contains("12345678"), "状态文件泄漏了学号: {text}");
}

#[test]
fn status_json_reports_config_problems() {
    let g = Guardian::start(Config::default());
    let problems = g.status_json()["config_problems"]
        .as_array()
        .unwrap()
        .len();
    assert!(problems >= 2, "默认配置应报出学号/密码缺失");
}

/// A burst whose attempts all fail, from the first of them on.
fn failing_burst(g: &mut Guardian, mut action: Action, attempts: u32, clock: u64) -> Action {
    for attempt in 1..=attempts {
        assert!(matches!(action, Action::Authenticate { .. }));
        assert_eq!(g.state(), GuardianState::Authenticating);
        action = g.step(auth_done(failed()), NOW, at(clock));
        if attempt < attempts {
            match action {
                Action::Wait { span } => assert_eq!(span, g.config().retry_interval),
                _ => panic!("expected a wait"),
            }
            action = g.step(Event::Waited, NOW, at(clock));
        }
    }
    action
}

#[test]
fn status_json_serializes_net_and_auth() {
    let mut g = Guardian::start(Config::default());
    for clock in [0, 10] {
        g.kick();
        assert!(matches!(
            g.step(Event::Turn, NOW, at(clock)),
            Action::Authenticate { ac: None }
        ));
        assert_eq!(g.state(), GuardianState::Authenticating);
        assert!(matches!(g.step(auth_done(failed()), NOW, at(clock)), Action::Publish));
        assert!(matches!(g.step(Event::Published, NOW, at(clock)), Action::Pause));
    }
    assert!(matches!(g.step(Event::Turn, NOW, at(40)), Action::CheckNet { .. }));
    let action = g.step(net_done(portal()), NOW, at(41));
    match &action {
        Action::Authenticate { ac: Some((ip, name, user)) } => {
            assert_eq!((ip.as_str(), name.as_str(), user.as_str()), ("", "", "10.20.30.41"));
        }
        _ => panic!("expected a login"),
    }
    assert!(matches!(failing_burst(&mut g, action, 3, 60), Action::Publish));

    let v = g.status_json();
    assert_eq!(v["net"]["kind"], "captive_portal");
    assert!(v["net"]["redirect"].as_str().unwrap().contains("wlanuserip"));
    assert_eq!(v["last_auth"]["kind"], "failed");
    assert_eq!(v["last_auth"]["msg"], "AC认证失败");
    assert_eq!(v["last_auth_ts"], 1788220800);
    assert_eq!(v["consecutive_failures"], 3);
    assert_eq!(v["next_check_secs"], 40);
    assert_eq!(v["last_net_ts"], 1788220800);
    assert_eq!(v["state"], "monitoring");
}

#[test]
fn status_text_reads_back() {
    let mut g = Guardian::start(Config::default());
    g.kick();
    g.step(Event::Turn, 5, at(0));
    g.step(
        auth_done(AuthOutcome::NetworkError { msg: "\"\\\n\u{1}中".into() }),
        6,
        at(1),
    );
    let v: serde_json::Value = serde_json::from_str(&g.status_text()).unwrap();
    assert_eq!(v, g.status_json());
    assert_eq!(v["last_auth"]["msg"], "\"\\\n\u{1}中");
    assert_eq!(v["last_auth_ts"], 6);
}

#[test]
fn published_kinds() {
    assert_eq!(net_status_json(&NetStatus::Connected).to_string(), r#"{"kind":"connected"}"#);
    assert_eq!(net_status_json(&NetStatus::DnsPending).to_string(), r#"{"kind":"dns_pending"}"#);
    assert_eq!(
        net_status_json(&no_network()).to_string(),
        r#"{"kind":"disconnected","reason":"x"}"#
    );
    assert_eq!(
        auth_outcome_json(&AuthOutcome::Success).to_string(),
        r#"{"kind":"success","msg":""}"#
    );
    assert_eq!(
        auth_outcome_json(&AuthOutcome::AlreadyOnline).to_string(),
        r#"{"kind":"already_online","msg":""}"#
    );
    assert_eq!(
        auth_outcome_json(&AuthOutcome::NetworkError { msg: "m".into() }).to_string(),
        r#"{"kind":"network_error","msg":"m"}"#
    );
}

#[test]
fn reload_from_disk_missing_file_keeps_defaults() {
    let mut g = Guardian::start(Config::default());
    g.request_reload();
    assert!(g.is_called());
    assert!(matches!(g.step(Event::Turn, NOW, at(0)), Action::ReadConfig));
    g.step(Event::ConfigRead { loaded: Some(Config::load(None)) }, NOW, at(0));
    assert!(g.is_running());
    assert_eq!(g.config(), Config::default());
}

#[test]
fn reload_applies_enabled_flag() {
    let write = |v: &str| {
        Config::load(Some(&format!(
            "config campus-auth-guardian 'main'\n\toption enabled '{v}'\n"
        )))
    };
    let mut cfg = Config::default();
    cfg.enabled = true;
    let mut g = Guardian::start(cfg);
    assert!(g.is_running());

    g.request_reload();
    assert!(matches!(g.step(Event::Turn, NOW, at(0)), Action::ReadConfig));
    let action = g.step(Event::ConfigRead { loaded: Some(write("0")) }, NOW, at(0));
    assert!(matches!(action, Action::CheckNet { .. }));
    assert!(!g.is_running(), "enabled=0 应关闭守护");
    assert!(!g.config().enabled);

    assert!(matches!(g.step(net_done(portal()), NOW, at(1)), Action::Publish));
    assert_eq!(g.state(), GuardianState::Stopped);
    assert_eq!(g.status_json()["next_check_secs"], 30);
    assert!(matches!(g.step(Event::Published, NOW, at(1)), Action::Pause));

    g.request_reload();
    assert!(matches!(g.step(Event::Turn, NOW, at(2)), Action::ReadConfig));
    g.step(Event::ConfigRead { loaded: Some(write("1")) }, NOW, at(2));
    assert!(g.is_running(), "enabled=1 应重新开启");
}

#[test]
fn failed_reload_keeps_the_configuration() {
    let mut cfg = Config::default();
    cfg.enabled = false;
    cfg.check_url = "http://c/".into();
    let mut g = Guardian::start(cfg.clone());
    g.step(Event::Turn, NOW, at(0));
    g.step(net_done(NetStatus::Connected), NOW, at(0));
    g.step(Event::Published, NOW, at(0));
    g.request_reload();
    assert!(matches!(g.step(Event::Turn, NOW, at(1)), Action::ReadConfig));
    match g.step(Event::ConfigRead { loaded: None }, NOW, at(1)) {
        Action::CheckNet { url } => assert_eq!(url, "http://c/"),
        _ => panic!("expected a check"),
    }
    assert_eq!(g.config(), cfg);
    assert!(!g.is_running());
}

#[test]
fn checks_come_at_their_time() {
    let mut g = Guardian::start(Config::default());
    assert!(matches!(g.step(Event::Turn, NOW, at(100)), Action::CheckNet { .. }));
    assert!(matches!(g.step(net_done(NetStatus::Connected), NOW, at(101)), Action::Publish));
    assert!(matches!(g.step(Event::Published, NOW, at(102)), Action::Pause));
    let almost = Duration::from_millis(131_999);
    assert!(matches!(g.step(Event::Turn, NOW, almost), Action::Pause));
    assert!(matches!(g.step(Event::Turn, NOW, at(132)), Action::CheckNet { .. }));
}

/// Failed rounds in a row back off, however many attempts a round makes.
fn backs_off(status: fn() -> NetStatus, max_retries: u32) {
    let mut cfg = Config::default();
    cfg.max_retries = max_retries;
    let mut g = Guardian::start(cfg);
    let mut clock = 0;
    for secs in [10, 20, 40, 80, 160, 320, 600, 600] {
        assert!(matches!(g.step(Event::Turn, NOW, at(clock)), Action::CheckNet { .. }));
        let action = g.step(net_done(status()), NOW, at(clock));
        assert!(matches!(failing_burst(&mut g, action, max_retries, clock), Action::Publish));
        assert_eq!(g.status_json()["next_check_secs"], secs);
        g.step(Event::Published, NOW, at(clock));
        clock += secs;
        assert!(matches!(
            g.step(Event::Turn, NOW, at(clock - 1)),
            Action::Pause
        ));
    }
    assert_eq!(g.failures(), 8);
    g.step(Event::Turn, NOW, at(clock));
    g.step(net_done(NetStatus::DnsPending), NOW, at(clock));
    assert_eq!(g.failures(), 8);
    assert_eq!(g.status_json()["next_check_secs"], 5);
    g.step(Event::Published, NOW, at(clock));
    g.step(Event::Turn, NOW, at(clock + 5));
    g.step(net_done(NetStatus::Connected), NOW, at(clock + 5));
    assert_eq!(g.failures(), 0);
    assert_eq!(g.status_json()["next_check_secs"], 30);
}

#[test]
fn no_network_backs_off() {
    backs_off(no_network, 3);
    backs_off(no_network, 0);
}

#[test]
fn portal_backs_off() {
    backs_off(portal, 1);
    backs_off(portal, 3);
    backs_off(portal, 7);
}

#[test]
fn lost_network_is_answered_with_a_login() {
    let mut g = Guardian::start(Config::default());
    g.step(Event::Turn, NOW, at(0));
    assert!(matches!(
        g.step(net_done(no_network()), NOW, at(0)),
        Action::Authenticate { ac: None }
    ));
    assert!(matches!(g.step(auth_done(AuthOutcome::Success), NOW, at(1)), Action::Publish));
    let v = g.status_json();
    assert_eq!(v["net"]["kind"], "disconnected");
    assert_eq!(v["consecutive_failures"], 0);
    assert_eq!(v["next_check_secs"], 30);
}

#[test]
fn burst_ends_with_the_first_success() {
    let mut g = Guardian::start(Config::default());
    g.step(Event::Turn, NOW, at(0));
    assert!(matches!(g.step(net_done(portal()), NOW, at(0)), Action::Authenticate { .. }));
    assert_eq!(g.state(), GuardianState::Authenticating);
    assert!(matches!(g.step(auth_done(failed()), NOW, at(0)), Action::Wait { .. }));
    assert_eq!(g.state(), GuardianState::Monitoring);
    assert!(matches!(g.step(Event::Waited, NOW, at(10)), Action::Authenticate { .. }));
    assert!(matches!(g.step(auth_done(AuthOutcome::Success), NOW, at(11)), Action::Publish));
    assert_eq!(g.failures(), 0);
    let v = g.status_json();
    assert_eq!(v["next_check_secs"], 30);
    assert!(v["last_auth"].is_null());
}

#[test]
fn stop_breaks_a_burst_off() {
    let mut g = Guardian::start(Config::default());
    g.step(Event::Turn, NOW, at(0));
    g.step(net_done(portal()), NOW, at(0));
    g.step(auth_done(failed()), NOW, at(0));
    g.stop();
    assert!(matches!(g.step(Event::Waited, NOW, at(0)), Action::Publish));
    assert_eq!(g.failures(), 0);
    assert!(matches!(g.step(Event::Published, NOW, at(0)), Action::Pause));
    assert!(matches!(g.step(Event::Turn, NOW, at(0)), Action::Exit));
    assert_eq!(g.state(), GuardianState::Stopped);
    assert_eq!(g.status_json()["state"], "stopped");
}

#[test]
fn switched_off_guardian_only_watches() {
    let mut cfg = Config::default();
    cfg.enabled = false;
    let mut g = Guardian::start(cfg);
    g.step(Event::Turn, NOW, at(0));
    assert!(matches!(g.step(net_done(portal()), NOW, at(0)), Action::Publish));
    assert_eq!(g.status_json()["net"]["kind"], "captive_portal");
    assert!(matches!(g.step(Event::Published, NOW, at(0)), Action::Pause));
    g.kick();
    assert!(matches!(g.step(Event::Turn, NOW, at(0)), Action::Authenticate { ac: None }));
    g.step(auth_done(AuthOutcome::AlreadyOnline), 7, at(1));
    let v = g.status_json();
    assert_eq!(v["last_auth"]["kind"], "already_online");
    assert_eq!(v["last_auth_ts"], 7);
    assert!(matches!(g.step(Event::Published, NOW, at(1)), Action::Pause));
}

#[test]
fn told_login_waits_for_the_configuration_only() {
    let mut g = Guardian::start(Config::default());
    g.kick();
    g.request_reload();
    assert!(matches!(g.step(Event::Turn, NOW, at(0)), Action::ReadConfig));
    assert!(matches!(
        g.step(Event::ConfigRead { loaded: None }, NOW, at(0)),
        Action::Authenticate { ac: None }
    ));
    assert!(!g.is_called());
}

#[test]
fn burst_of_no_attempts() {
    let mut cfg = Config::default();
    cfg.max_retries = 0;
    let mut g = Guardian::start(cfg);
    g.step(Event::Turn, NOW, at(0));
    assert!(matches!(g.step(net_done(portal()), NOW, at(0)), Action::Publish));
    assert_eq!(g.failures(), 1);
    assert_eq!(g.status_json()["next_check_secs"], 10);
}

#[test]
fn sleeps_in_slices() {
    let mut g = Guardian::start(Config::default());
    let ms = Duration::from_millis;
    assert_eq!(g.nap(ms(0), ms(500)), Some(ms(100)));
    assert_eq!(g.nap(ms(450), ms(500)), Some(ms(50)));
    assert_eq!(g.nap(ms(400), ms(500)), Some(ms(100)));
    assert_eq!(g.nap(ms(500), ms(500)), None);
    assert_eq!(g.nap(ms(700), ms(500)), None);
    g.kick();
    assert_eq!(g.nap(ms(0), ms(500)), None);
}

#[test]
fn status_does_not_depend_on_credentials() {
    let mut a = Config::default();
    a.student_id = "1".into();
    a.password = "p".into();
    let mut b = a.clone();
    b.student_id = "2023123456".into();
    b.password = "q&r".into();
    assert_eq!(Guardian::start(a).status_text(), Guardian::start(b).status_text());
}

#[test]
fn portal_is_answered_in_the_first_turn() {
    let mut g = Guardian::start(Config::default());
    match g.step(Event::Turn, NOW, at(0)) {
        Action::CheckNet { url } => assert_eq!(url, "http://www.baidu.com"),
        _ => panic!("expected a check"),
    }
    let status = NetStatus::CaptivePortal {
        redirect: "http://p/?wlanacip=1&wlanacname=n&wlanuserip=2".into(),
    };
    match g.step(net_done(status), NOW, at(0)) {
        Action::Authenticate { ac } => {
            assert_eq!(ac, Some(("1".to_string(), "n".to_string(), "2".to_string())));
        }
        _ => panic!("expected a login"),
    }
}
