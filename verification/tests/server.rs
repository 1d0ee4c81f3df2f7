use webadev::server::{
    file_reply, headers_parse, html_not_found_build, html_response_build, js_script_inject,
    livereload_next, request_path_rejected, url_build, ChannelRecv, LIVERELOAD_SCRIPT,
};
use webadev::ReloadType;

fn strings(items: &[&str]) -> Vec<String> {
    items.iter().map(|s| s.to_string()).collect()
}

#[test]
fn invalid_header_is_rejected() {
    assert!(headers_parse(&["Bad\nHeader: x".to_string()]).is_err());
    assert!(headers_parse(&["NoSeparator".to_string()]).is_err());
    assert!(headers_parse(&[": novalue".to_string()]).is_err());
    assert!(headers_parse(&["X-Foo:".to_string()]).is_ok());
}

#[test]
fn header_lines_are_trimmed_and_kept_in_order() {
    let parsed = headers_parse(&strings(&["X-A: 1", "  X-B :  two words  "])).unwrap();
    assert_eq!(parsed.len(), 2);
    assert_eq!(parsed[0].name, "x-a");
    assert_eq!(parsed[0].value, b"1".to_vec());
    assert_eq!(parsed[1].name, "x-b");
    assert_eq!(parsed[1].value, b"two words".to_vec());
}

#[test]
fn header_value_keeps_further_colons() {
    let parsed = headers_parse(&strings(&["Access-Control-Allow-Origin: http://localhost:5173"]))
        .unwrap();
    assert_eq!(parsed[0].name, "access-control-allow-origin");
    assert_eq!(parsed[0].value, b"http://localhost:5173".to_vec());
}

#[test]
fn header_errors_name_the_line() {
    assert_eq!(
        headers_parse(&strings(&["NoSeparator"])).err().unwrap(),
        "missing ':' separator in `NoSeparator`"
    );
    assert_eq!(
        headers_parse(&strings(&["  : x"])).err().unwrap(),
        "empty header name in `  : x`"
    );
    assert_eq!(
        headers_parse(&strings(&["Bad Name: x"])).err().unwrap(),
        "invalid header name in `Bad Name: x`"
    );
    assert_eq!(
        headers_parse(&strings(&["X: a\u{7f}b"])).err().unwrap(),
        "invalid header value in `X: a\u{7f}b`"
    );
}

#[test]
fn first_bad_header_line_is_reported() {
    let err = headers_parse(&strings(&["X-A: 1", "Broken", "Bad Name: 2"])).err().unwrap();
    assert_eq!(err, "missing ':' separator in `Broken`");
}

#[test]
fn header_values_accept_tabs_and_non_ascii() {
    let parsed = headers_parse(&strings(&["X-A: a\tb", "X-B: caf\u{e9}"])).unwrap();
    assert_eq!(parsed[0].value, b"a\tb".to_vec());
    assert_eq!(parsed[1].value, "caf\u{e9}".as_bytes().to_vec());
    assert!(headers_parse(&strings(&["X-A: a\rb"])).is_err());
}

#[test]
fn header_names_are_tokens_up_to_the_limit() {
    assert!(headers_parse(&strings(&["X~!#$%&'*+-.^_`|: v"])).is_ok());
    assert!(headers_parse(&strings(&["X(y): v"])).is_err());
    assert!(headers_parse(&strings(&["caf\u{e9}: v"])).is_err());
    let longest = format!("{}: v", "a".repeat(65535));
    assert!(headers_parse(&[longest]).is_ok());
    let too_long = format!("{}: v", "a".repeat(65536));
    assert!(headers_parse(&[too_long]).is_err());
}

#[test]
fn parsed_headers_carry_no_line_break() {
    for line in ["X: a\nb", "X\r\nY: b", "X: a\r\nY: b"] {
        assert!(headers_parse(&[line.to_string()]).is_err());
    }
    // surrounding line breaks are whitespace and trimmed away
    let parsed = headers_parse(&["X\r: b\n".to_string()]).unwrap();
    assert_eq!(parsed[0].name, "x");
    assert_eq!(parsed[0].value, b"b".to_vec());
}

#[test]
fn script_goes_before_body_close() {
    let html = js_script_inject("<html><body>hi</body></html>");
    assert_eq!(
        html,
        format!("<html><body>hi{}\n</body></html>", LIVERELOAD_SCRIPT)
    );
    assert!(html.contains("EventSource"));
    assert!(html.contains("/livereload"));
    assert!(html.contains("reload"));
}

#[test]
fn script_goes_before_every_body_close() {
    let html = js_script_inject("a</body>b</body>");
    let expected = format!("a{0}\n</body>b{0}\n</body>", LIVERELOAD_SCRIPT);
    assert_eq!(html, expected);
}

#[test]
fn script_goes_before_html_close_without_body() {
    let html = js_script_inject("<html>sub</html>");
    assert_eq!(html, format!("<html>sub{}\n</html>", LIVERELOAD_SCRIPT));
}

#[test]
fn script_is_appended_without_closing_tags() {
    let html = js_script_inject("<p>plain");
    assert_eq!(html, format!("<p>plain\n{}", LIVERELOAD_SCRIPT));
    assert_eq!(js_script_inject(""), format!("\n{}", LIVERELOAD_SCRIPT));
}

#[test]
fn injection_matches_std_replace() {
    for html in ["x</body>y</html>", "</body></body>", "</html>é</html>", "日本</body>"] {
        let expected = if html.contains("</body>") {
            html.replace("</body>", &format!("{}\n</body>", LIVERELOAD_SCRIPT))
        } else if html.contains("</html>") {
            html.replace("</html>", &format!("{}\n</html>", LIVERELOAD_SCRIPT))
        } else {
            format!("{}\n{}", html, LIVERELOAD_SCRIPT)
        };
        assert_eq!(js_script_inject(html), expected);
    }
}

#[test]
fn url_of_unspecified_address_is_loopback() {
    assert_eq!(url_build("0.0.0.0", true, 8080), "http://127.0.0.1:8080");
    assert_eq!(url_build("::", true, 9000), "http://127.0.0.1:9000");
}

#[test]
fn url_names_the_bound_address_and_port() {
    assert_eq!(url_build("127.0.0.1", false, 43521), "http://127.0.0.1:43521");
    assert_eq!(url_build("192.168.1.20", false, 0), "http://192.168.1.20:0");
    assert_eq!(url_build("10.0.0.1", false, 65535), "http://10.0.0.1:65535");
    assert!(!url_build("127.0.0.1", false, 10).ends_with(":0"));
}

#[test]
fn parent_segments_are_rejected() {
    assert!(request_path_rejected("../../etc/passwd"));
    assert!(request_path_rejected("a/../b"));
    assert!(request_path_rejected("a/.."));
    assert!(request_path_rejected(".."));
    assert!(!request_path_rejected("a/..b"));
    assert!(!request_path_rejected("..a/b"));
    assert!(!request_path_rejected("a/b..c"));
    assert!(!request_path_rejected("./a"));
    assert!(!request_path_rejected(""));
    assert!(!request_path_rejected("."));
}

#[test]
fn rejection_matches_segment_split() {
    for path in ["", "a", "..", "a/../", "/..", "...", "a/./b", "x..", "..x/..", "//..//"] {
        let expected = path.split('/').any(|segment| segment == "..");
        assert_eq!(request_path_rejected(path), expected, "{path}");
    }
}

#[test]
fn html_file_gets_the_script() {
    let reply = file_reply("/srv/site/index.html", b"<html><body>hi</body></html>".to_vec());
    assert_eq!(reply.status, 200);
    assert_eq!(reply.content_type.as_deref(), Some("text/html; charset=utf-8"));
    assert_eq!(reply.cache_control.as_deref(), Some("no-cache"));
    let body = String::from_utf8(reply.body).unwrap();
    assert!(body.contains("hi"));
    assert!(body.contains("EventSource"));
    assert!(body.contains("/livereload"));
}

#[test]
fn non_utf8_html_goes_out_raw() {
    let raw: Vec<u8> = vec![0xff, 0xfe, 0xfd];
    let reply = file_reply("site/index.html", raw.clone());
    assert_eq!(reply.status, 200);
    assert_eq!(reply.content_type.as_deref(), Some("text/html; charset=utf-8"));
    assert_eq!(reply.body, raw);
}

#[test]
fn stylesheet_goes_out_unchanged() {
    let reply = file_reply("site/style.css", b"body {}".to_vec());
    assert_eq!(reply.status, 200);
    assert_eq!(reply.content_type.as_deref(), Some("text/css"));
    assert_eq!(reply.cache_control.as_deref(), Some("no-cache"));
    assert_eq!(String::from_utf8(reply.body).unwrap(), "body {}");
}

#[test]
fn other_files_are_typed_by_extension() {
    let js = file_reply("app.js", b"let x = 1;".to_vec());
    assert_eq!(js.content_type.as_deref(), Some("text/javascript"));
    assert_eq!(js.body, b"let x = 1;".to_vec());
    let unknown = file_reply("notes.unknownext", vec![1, 2, 3]);
    assert_eq!(unknown.content_type.as_deref(), Some("application/octet-stream"));
    let none = file_reply("Makefile", vec![]);
    assert_eq!(none.content_type.as_deref(), Some("application/octet-stream"));
    let html_dir = file_reply("site.html/readme.txt", b"x".to_vec());
    assert_eq!(html_dir.content_type.as_deref(), Some("text/plain"));
}

#[test]
fn replies_are_built_as_described() {
    let missing = html_not_found_build();
    assert_eq!(missing.status, 404);
    assert!(missing.content_type.is_none());
    assert!(missing.cache_control.is_none());
    assert!(missing.body.is_empty());
    let page = html_response_build(b"<p>".to_vec());
    assert_eq!(page.status, 200);
    assert_eq!(page.body, b"<p>".to_vec());
}

#[test]
fn live_reload_events() {
    assert_eq!(livereload_next(ChannelRecv::Message(ReloadType::Css)), Some(ReloadType::Css));
    assert_eq!(livereload_next(ChannelRecv::Message(ReloadType::Page)), Some(ReloadType::Page));
    assert_eq!(livereload_next(ChannelRecv::Lagged(3)), Some(ReloadType::Page));
    assert_eq!(livereload_next(ChannelRecv::Closed), None);
}

#[test]
fn reload_type_names() {
    assert_eq!(ReloadType::Css.as_str(), "css");
    assert_eq!(ReloadType::Page.as_str(), "page");
}

#[test]
fn url_brackets_an_ipv6_host() {
    assert_eq!(url_build("::1", false, 8080), "http://[::1]:8080");
    assert_eq!(url_build("fe80::1", false, 3000), "http://[fe80::1]:3000");
    assert_eq!(url_build("2001:db8::7", false, 1), "http://[2001:db8::7]:1");
    assert_eq!(url_build("::", true, 1), "http://127.0.0.1:1");
}

#[test]
fn empty_header_value_is_kept_empty() {
    let parsed = headers_parse(&strings(&["X-Foo:"])).unwrap();
    assert_eq!(parsed.len(), 1);
    assert_eq!(parsed[0].name, "x-foo");
    assert!(parsed[0].value.is_empty());
}

#[test]
fn standard_header_names_are_lower_case() {
    let parsed = headers_parse(&strings(&["Cache-Control: max-age=60", "X-Custom: yes"])).unwrap();
    assert_eq!(parsed[0].name, "cache-control");
    assert_eq!(
        axum::http::HeaderName::from_bytes(parsed[0].name.as_bytes()).unwrap(),
        axum::http::header::CACHE_CONTROL
    );
    assert_eq!(parsed[0].value, b"max-age=60".to_vec());
    assert_eq!(parsed[1].name, "x-custom");
    assert_eq!(parsed[1].value, b"yes".to_vec());
}
