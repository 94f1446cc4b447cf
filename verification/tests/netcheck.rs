use guardian::http::{connect_failed, no_address, prepare_get, Error, Fetch, Response};
use guardian::netcheck::{check, check_url_supported, extract_ac_params, looks_like_portal, NetStatus};

fn response(status: u16, location: Option<&str>, body: &str) -> Result<Response, Error> {
    Ok(Response {
        status,
        headers: match location {
            Some(l) => vec![("location".to_string(), l.to_string())],
            None => vec![],
        },
        body: body.into(),
    })
}

#[test]
fn extract_ac_params_full() {
    let (ip, name, user) = extract_ac_params(
        "http://10.0.0.1/a79.htm?wlanuserip=10.20.30.42&wlanacname=&wlanacip=10.0.0.2",
    );
    assert_eq!(ip, "10.0.0.2");
    assert_eq!(name, "");
    assert_eq!(user, "10.20.30.42");
}

#[test]
fn extract_ac_params_missing_and_case() {
    let (ip, name, user) = extract_ac_params("http://x/a.htm?WLANACIP=1.2.3.4&WlanAcName=AC1");
    assert_eq!(ip, "1.2.3.4");
    assert_eq!(name, "AC1");
    assert_eq!(user, "");
}

#[test]
fn extract_ac_params_no_query() {
    let (ip, name, user) = extract_ac_params("http://x/a.htm");
    assert_eq!((ip.as_str(), name.as_str(), user.as_str()), ("", "", ""));
}

#[test]
fn extract_ac_params_first_query_and_first_value() {
    let (ip, name, user) =
        extract_ac_params("http://x/?wlanacip=1&wlanacip=2&wlanacname&wlanuserip=a=b?wlanacname=9");
    assert_eq!((ip.as_str(), name.as_str(), user.as_str()), ("1", "", "a=b"));
}

#[test]
fn portal_markers() {
    assert!(looks_like_portal("<script>location.href='a79.htm?wlanuserip=1.2.3.4'</script>"));
    assert!(looks_like_portal("<form action='/srun_portal_pc.php'>"));
    assert!(!looks_like_portal("<html><body>hello</body></html>"));
}

#[test]
fn more_portal_markers() {
    assert!(looks_like_portal("/eportal/"));
    assert!(looks_like_portal("?ac_id=1"));
    assert!(!looks_like_portal("ac_id wlanuserip EPORTAL"));
}

#[test]
fn dns_pending_is_not_disconnected() {
    let s = NetStatus::DnsPending;
    assert!(matches!(s, NetStatus::DnsPending));
    assert_ne!(
        s,
        NetStatus::Disconnected {
            reason: "x".into()
        }
    );
}

#[test]
fn unreachable_host_is_disconnected_not_dns_pending() {
    let address = match prepare_get("http://192.0.2.1/", false) {
        Ok(Fetch::Plain { address, .. }) => address,
        _ => panic!("expected an address"),
    };
    let s = check(&Err(connect_failed(&address, Some("timed out"))));
    assert!(
        matches!(s, NetStatus::Disconnected { .. }),
        "期望 Disconnected，实得 {s:?}"
    );
    assert_eq!(
        s,
        NetStatus::Disconnected {
            reason: "连接失败: 192.0.2.1:80: timed out".into()
        }
    );
}

#[test]
fn unresolved_name_is_dns_pending() {
    assert_eq!(check(&Err(no_address("h:80"))), NetStatus::DnsPending);
    assert_eq!(check(&Err(Error::Dns("x".into()))), NetStatus::DnsPending);
}

#[test]
fn redirect_and_interception_are_portals() {
    assert_eq!(
        check(&response(302, Some("http://p/"), "")),
        NetStatus::CaptivePortal { redirect: "http://p/".into() }
    );
    assert_eq!(
        check(&response(200, Some("http://p/"), "eportal")),
        NetStatus::CaptivePortal { redirect: "".into() }
    );
    assert_eq!(check(&response(302, None, "eportal")), NetStatus::Connected);
    assert_eq!(
        check(&response(204, None, "eportal")),
        NetStatus::CaptivePortal { redirect: "".into() }
    );
    assert_eq!(check(&response(204, None, "")), NetStatus::Connected);
    assert_eq!(check(&response(201, None, "eportal")), NetStatus::Connected);
    assert_eq!(check(&response(200, None, "hello")), NetStatus::Connected);
    assert_eq!(check(&response(404, None, "")), NetStatus::Connected);
    assert_eq!(
        check(&response(0, None, "")),
        NetStatus::Disconnected { reason: "无有效 HTTP 响应".into() }
    );
}

#[test]
fn check_url_supported_accepts_http() {
    assert!(check_url_supported("http://www.baidu.com", false).is_ok());
    assert!(check_url_supported("not a url", false).is_err());
}

#[test]
fn check_url_supported_https_depends_on_feature() {
    let r = check_url_supported("https://example.com", false);
    assert!(r.is_err(), "未开 tls feature 时应提前报错而不是运行期才发现");
    let r = check_url_supported("https://example.com", true);
    assert!(r.is_ok());
}

#[test]
fn unsupported_addresses_in_words() {
    assert_eq!(check_url_supported("not a url", false).unwrap_err(), "无法解析: not a url");
    assert_eq!(
        check_url_supported("https://e.com", false).unwrap_err(),
        "https://e.com 是 https，但当前二进制未编译 TLS 支持"
    );
}
