use guardian::http::{
    connect_failed, find_head_end, head_content_length, no_address, parse_content_length,
    parse_response, parse_url, prepare_get, send_failed, Error, Fetch, ReadEvent, ReadStep, Response,
    ResponseReader, Scheme,
};

#[test]
fn url_parse_basic() {
    assert_eq!(
        parse_url("http://www.baidu.com"),
        Some((Scheme::Http, "www.baidu.com".into(), 80, "/".into()))
    );
    assert_eq!(
        parse_url("http://10.0.0.1:801/a79.htm?x=1"),
        Some((
            Scheme::Http,
            "10.0.0.1".into(),
            801,
            "/a79.htm?x=1".into()
        ))
    );
}

#[test]
fn url_parse_https_defaults_to_443() {
    assert_eq!(
        parse_url("https://example.com/x"),
        Some((Scheme::Https, "example.com".into(), 443, "/x".into()))
    );
}

#[test]
fn url_parse_rejects_non_http_scheme() {
    assert_eq!(parse_url("ftp://x"), None);
    assert_eq!(parse_url("10.0.0.1"), None);
}

#[test]
fn url_parse_edge_ports() {
    assert_eq!(
        parse_url("http://h:65535/"),
        Some((Scheme::Http, "h".into(), 65535, "/".into()))
    );
    assert_eq!(parse_url("http://h:0/"), None, "端口 0 无效");
    assert_eq!(parse_url("http://h:abc/"), None, "非数字端口");
    assert_eq!(parse_url("http:///x"), None, "空主机");
}

#[test]
fn url_parse_keeps_query_in_path() {
    assert_eq!(
        parse_url("http://h/a?b=c&d=e"),
        Some((Scheme::Http, "h".into(), 80, "/a?b=c&d=e".into()))
    );
}

#[test]
fn url_parse_more_edges() {
    assert_eq!(parse_url("http://h:65536/"), None);
    assert_eq!(parse_url("http://h:/"), None);
    assert_eq!(parse_url("http://"), None);
    assert_eq!(
        parse_url("http://h:+8/"),
        Some((Scheme::Http, "h".into(), 8, "/".into()))
    );
    assert_eq!(
        parse_url("http://a:b:81"),
        Some((Scheme::Http, "a:b".into(), 81, "/".into()))
    );
    assert_eq!(
        parse_url("https://h:8443/p"),
        Some((Scheme::Https, "h".into(), 8443, "/p".into()))
    );
}

#[test]
fn head_end_finds_body_start() {
    let raw = b"HTTP/1.1 200 OK\r\nContent-Length: 2\r\n\r\nhi";
    assert_eq!(find_head_end(raw), Some(38));
    assert_eq!(find_head_end(b"HTTP/1.1 200 OK\r\n"), None);
}

#[test]
fn header_lookup_is_case_insensitive() {
    let r = Response {
        status: 302,
        headers: vec![("location".into(), "http://x/".into())],
        body: String::new(),
    };
    assert_eq!(r.header("Location"), Some("http://x/"));
    assert_eq!(r.header("LOCATION"), Some("http://x/"));
    assert_eq!(r.header("X-Nope"), None);
}

#[test]
fn first_header_of_a_name_counts() {
    let r = Response {
        status: 200,
        headers: vec![
            ("A".into(), "1".into()),
            ("a".into(), "2".into()),
        ],
        body: String::new(),
    };
    assert_eq!(r.header("a"), Some("1"));
}

#[test]
fn content_length_parsing() {
    assert_eq!(
        parse_content_length(b"HTTP/1.1 200 OK\r\nContent-Length: 42\r\n"),
        Some(42)
    );
    assert_eq!(
        parse_content_length(b"HTTP/1.1 200 OK\r\ncontent-length:  7 \r\n"),
        Some(7)
    );
    assert_eq!(
        parse_content_length(b"HTTP/1.1 200 OK\r\nTransfer-Encoding: chunked\r\n"),
        None
    );
    assert_eq!(parse_content_length(b"HTTP/1.1 200 OK\r\n"), None);
}

#[test]
fn content_length_skips_what_is_no_number() {
    assert_eq!(
        head_content_length("HTTP/1.1 200 OK\r\nContent-Length: x\r\nContent-Length: 9\r\n"),
        Some(9)
    );
    assert_eq!(head_content_length("Content-Length 4\r\n"), None);
}

#[test]
fn lossy_bytes_in_the_head_do_not_matter() {
    assert_eq!(
        parse_content_length(b"HTTP/1.1 200 \xff\r\nContent-Length: 5\r\n"),
        Some(5)
    );
}

fn data(r: &mut ResponseReader, bytes: &[u8]) -> ReadStep {
    r.on_read(ReadEvent::Data(bytes))
}

#[test]
fn stops_at_content_length_without_waiting_for_close() {
    let mut r = ResponseReader::new();
    let step = data(&mut r, b"HTTP/1.1 200 OK\r\nContent-Length: 2\r\n\r\nhi");
    assert!(matches!(step, ReadStep::Finished));
    let resp = r.finish().unwrap();
    assert_eq!(resp.status, 200);
    assert_eq!(resp.body, "hi");
}

#[test]
fn incomplete_body_after_timeout_is_still_ok() {
    let mut r = ResponseReader::new();
    let step = data(
        &mut r,
        b"HTTP/1.1 200 OK\r\nTransfer-Encoding: chunked\r\n\r\n2\r\nhi\r\n",
    );
    assert!(matches!(step, ReadStep::More));
    assert!(matches!(
        r.on_read(ReadEvent::TimedOut("timed out")),
        ReadStep::Finished
    ));
    let resp = r.finish().unwrap();
    assert_eq!(resp.status, 200);
    assert!(resp.body.contains("hi"));
}

#[test]
fn response_in_pieces() {
    let mut r = ResponseReader::new();
    assert!(matches!(data(&mut r, b"HTTP/1.1 302 Found\r"), ReadStep::More));
    assert!(matches!(
        data(&mut r, b"\nLocation:  http://x/ \r\nno colon\r\n\r"),
        ReadStep::More
    ));
    assert!(matches!(data(&mut r, b"\nab\xff"), ReadStep::More));
    assert!(matches!(data(&mut r, b""), ReadStep::Finished));
    let resp = r.finish().unwrap();
    assert_eq!(resp.status, 302);
    assert_eq!(resp.headers, vec![("Location".to_string(), "http://x/".to_string())]);
    assert_eq!(resp.body, "ab\u{fffd}");
}

#[test]
fn timeout_before_the_head_is_a_failure() {
    let mut r = ResponseReader::new();
    match r.on_read(ReadEvent::TimedOut("too late")) {
        ReadStep::Failed(e) => assert_eq!(e.message(), "收发失败: 读取响应失败: too late"),
        _ => panic!("expected a failure"),
    }
}

#[test]
fn read_failure_is_told() {
    let mut r = ResponseReader::new();
    assert!(matches!(data(&mut r, b"HTTP/1.1 200 OK\r\n\r\n"), ReadStep::More));
    match r.on_read(ReadEvent::Failed("reset")) {
        ReadStep::Failed(e) => assert_eq!(e.message(), "收发失败: 读取响应失败: reset"),
        _ => panic!("expected a failure"),
    }
}

#[test]
fn close_before_the_head_is_an_incomplete_head() {
    let mut r = ResponseReader::new();
    assert!(matches!(data(&mut r, b"HTTP/1.1 200 OK\r\n"), ReadStep::More));
    assert!(matches!(data(&mut r, b""), ReadStep::Finished));
    match r.finish() {
        Err(e) => assert_eq!(e.message(), "收发失败: 响应头不完整"),
        Ok(_) => panic!("expected an error"),
    }
}

#[test]
fn endless_head_is_given_up() {
    let mut r = ResponseReader::new();
    let chunk = vec![b'a'; 2048];
    let mut steps = 0;
    loop {
        steps += 1;
        if matches!(r.on_read(ReadEvent::Data(&chunk)), ReadStep::Finished) {
            break;
        }
    }
    assert_eq!(steps, 16);
    assert!(matches!(r.finish(), Err(Error::Io(_))));
}

#[test]
fn long_body_is_cut() {
    let mut r = ResponseReader::new();
    assert!(matches!(data(&mut r, b"HTTP/1.1 200 OK\r\n\r\n"), ReadStep::More));
    let chunk = vec![b'b'; 65535];
    assert!(matches!(r.on_read(ReadEvent::Data(&chunk)), ReadStep::More));
    assert!(matches!(data(&mut r, b"bccc"), ReadStep::Finished));
    assert_eq!(r.finish().unwrap().body, "b".repeat(65536));
}

#[test]
fn long_body_in_one_piece_is_cut() {
    let mut r = ResponseReader::new();
    let mut all = b"HTTP/1.1 200 OK\r\nContent-Length: 100000\r\n\r\n".to_vec();
    all.extend(vec![b'x'; 100_000]);
    assert!(matches!(data(&mut r, &all), ReadStep::Finished));
    assert_eq!(r.finish().unwrap().body.len(), 65536);
}

#[test]
fn status_line_without_a_code_is_an_error() {
    match parse_response("HTTP/1.1 abc\r\n\r\n", String::new()) {
        Err(e) => assert_eq!(e.message(), "收发失败: 无法解析状态行: HTTP/1.1 abc"),
        Ok(_) => panic!("expected an error"),
    }
    match parse_response("", String::new()) {
        Err(e) => assert_eq!(e.message(), "收发失败: 无法解析状态行: "),
        Ok(_) => panic!("expected an error"),
    }
    assert_eq!(parse_response("x  204\ty", String::new()).unwrap().status, 204);
}

#[test]
fn https_without_tls_feature_is_a_clear_error() {
    assert!(matches!(
        prepare_get("https://example.com", false),
        Err(Error::TlsNotBuilt)
    ));
    assert!(matches!(prepare_get("https://example.com", true), Ok(Fetch::Tls)));
}

#[test]
fn request_of_an_address() {
    match prepare_get("http://10.0.0.1:801/a?b=c", false) {
        Ok(Fetch::Plain { address, request }) => {
            assert_eq!(address, "10.0.0.1:801");
            assert_eq!(
                request,
                "GET /a?b=c HTTP/1.1\r\nHost: 10.0.0.1\r\nUser-Agent: CampusAuthGuardian/0.1.0\r\nAccept: */*\r\nConnection: close\r\n\r\n"
            );
        }
        _ => panic!("expected a request"),
    }
}

#[test]
fn errors_in_words() {
    match prepare_get("nonsense", false) {
        Err(e) => assert_eq!(e.message(), "非法地址: nonsense"),
        Ok(_) => panic!("expected an error"),
    }
    assert_eq!(
        Error::TlsNotBuilt.message(),
        "配置了 https，但当前二进制未编译 TLS 支持（需 --features tls 重新构建）"
    );
    assert_eq!(no_address("h:80").message(), "DNS 解析失败: h:80 无可用地址");
    assert_eq!(
        connect_failed("h:80", Some("refused")).message(),
        "连接失败: h:80: refused"
    );
    assert_eq!(connect_failed("h:80", None).message(), "连接失败: h:80: 无可用地址");
    assert_eq!(send_failed("broken").message(), "收发失败: 发送请求失败: broken");
}
