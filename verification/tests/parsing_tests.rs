use rusted_httpd::parsing::{parse_content_type, parse_req_buffer, parse_request, query_of_line, RequestError};

fn pairs(v: &[(String, String)]) -> Vec<(&str, &str)> {
    v.iter().map(|(k, x)| (k.as_str(), x.as_str())).collect()
}

#[test]
fn content_types() {
    assert_eq!(parse_content_type("./web/index.html"), "text/html");
    assert_eq!(parse_content_type("./web/info.php"), "application/x-httpd-php");
    assert_eq!(parse_content_type("style.css"), "text/css");
    assert_eq!(parse_content_type("app.js"), "text/javascript");
    assert_eq!(parse_content_type("a.jpg"), "image/jpeg");
    assert_eq!(parse_content_type("a.png"), "image/png");
    assert_eq!(parse_content_type("a.gif"), "image/gif");
    assert_eq!(parse_content_type("favicon.ico"), "image/x-icon");
    assert_eq!(parse_content_type("a.tar.zip"), "application/zip");
    assert_eq!(parse_content_type("a.pdf"), "application/pdf");
    assert_eq!(parse_content_type("a.json"), "application/json");
    assert_eq!(parse_content_type("a.mp4"), "video/mp4");
    assert_eq!(parse_content_type("a.mp3"), "audio/mpeg");
    assert_eq!(parse_content_type("README"), "text/html");
    assert_eq!(parse_content_type("STYLE.CSS"), "text/html");
    assert_eq!(parse_content_type("dir.d/file"), "text/html");
}

#[test]
fn get_target_decoded() {
    let buf = vec!["GET /my%20file.html HTTP/1.1".to_string(), "Host: x".to_string()];
    assert_eq!(parse_req_buffer(buf), "/my file.html");
    assert_eq!(parse_req_buffer(vec!["POST /x HTTP/1.1".to_string()]), "");
    assert_eq!(parse_req_buffer(vec![]), "");
    let split = vec!["GE".to_string(), "T /a".to_string(), " HTTP/1.1".to_string()];
    assert_eq!(parse_req_buffer(split), "/a");
    let across = vec!["GET /a%2".to_string(), "0b HTTP/1.1".to_string()];
    assert_eq!(parse_req_buffer(across), "/a%20b");
}

#[test]
fn request_line_and_headers() {
    let req = parse_request("GET /index.html?a=1&b=2 HTTP/1.1\r\nHost: localhost\r\nAccept:  */* \r\n")
        .ok()
        .unwrap();
    assert_eq!(req.method, "GET");
    assert_eq!(req.path, "/index.html");
    assert_eq!(req.params, "?a=1&b=2");
    assert_eq!(pairs(&req.headers), vec![("Host", "localhost"), ("Accept", "*/*")]);
    assert_eq!(req.body, "");
}

#[test]
fn later_header_line_wins() {
    let req = parse_request("GET / HTTP/1.1\nA: 1\nB: 2\nnot a header\nA: 3: 4\n").ok().unwrap();
    assert_eq!(pairs(&req.headers), vec![("A", "3: 4"), ("B", "2")]);
}

#[test]
fn request_without_lines_is_invalid() {
    assert!(matches!(parse_request(""), Err(RequestError::InvalidData)));
}

#[test]
fn short_request_lines() {
    let req = parse_request("GET").ok().unwrap();
    assert_eq!(req.method, "GET");
    assert_eq!(req.path, "");
    let blank = parse_request("   ").ok().unwrap();
    assert_eq!(blank.method, "");
    assert_eq!(blank.path, "");
}

#[test]
fn query_part_found_by_regex() {
    assert_eq!(query_of_line("GET /a?x=1 HTTP/1.1"), "?x=1");
    assert_eq!(query_of_line("GET /a HTTP/1.1"), "");
    assert_eq!(query_of_line("GET /a?x"), "?x");
    assert_eq!(query_of_line("a? b?c"), "?");
    let req = parse_request("GET /p?q=a HTTP/1.1").ok().unwrap();
    assert_eq!(req.params, "?q=a");
    assert_eq!(req.path, "/p");
}

#[test]
fn body_bytes() {
    let mut req = parse_request("POST / HTTP/1.1").ok().unwrap();
    req.body = "é=1".to_string();
    assert_eq!(req.body_to_u8(), "é=1".as_bytes().to_vec());
}

#[test]
fn query_part_agrees_with_regex() {
    let re = regex::Regex::new(r"(\?.*?)( |$)").unwrap();
    for line in ["GET /a?x=1 HTTP/1.1", "??", "?", "é?ü ü", "x\r?y\rz w", "no query", "", " ?a b?c"] {
        let expected = re.captures(line).map(|c| c[1].to_string()).unwrap_or_default();
        assert_eq!(query_of_line(line), expected, "{:?}", line);
    }
}
