use rusted_httpd::parsing::parse_request;
use rusted_httpd::server::{
    build_response_head, get_header, not_found_page, parse_body, php_page, php_path_segments,
    php_query_string, php_script_name, prepare_request, reply_for, runs_php, should_keep_alive,
    FileDataTtl,
};
use rusted_httpd::utilities::{look_for_dirs_and_subdirs, EntryInfo, FileData};

fn pair(k: &str, v: &str) -> (String, String) {
    (k.to_string(), v.to_string())
}

#[test]
fn staleness_and_renewal() {
    let mut t = FileDataTtl { timestamp: 100, files: vec![], ttl: 10 };
    assert!(!t.is_stale(110));
    assert!(t.is_stale(111));
    t.renew(111, look_for_dirs_and_subdirs(vec![]));
    assert_eq!(t.timestamp, 111);
    assert_eq!(t.ttl, 10);
    assert_eq!(t.get_file().len(), 1);
    assert!(!t.is_stale(111));
}

#[test]
fn body_after_content_length() {
    let raw = "POST /f HTTP/1.1\r\nContent-Length: 3\r\n\r\na=1".to_string();
    assert_eq!(parse_body(&raw), Some("a=1".to_string()));
    assert_eq!(parse_body(&"GET / HTTP/1.1\r\n\r\n".to_string()), None);
}

#[test]
fn raw_request_split() {
    let (text, body) = prepare_request("POST /f HTTP/1.1\r\nContent-Length: 3\r\n\r\na=1\0\0");
    assert_eq!(body, "a=1");
    assert_eq!(text, "POST /f HTTP/1.1 Content-Length: 3  ");
    let (plain, none) = prepare_request("GET /x?y=1 HTTP/1.1\r\nHost: h\r\n\r\n\0");
    assert_eq!(none, "");
    assert_eq!(plain, "GET /x?y=1 HTTP/1.1 Host: h  ");
    assert!(!plain.contains('\n') && !plain.contains('\r') && !plain.contains('\0'));
    let req = parse_request(&plain).ok().unwrap();
    assert_eq!(req.path, "/x");
    assert_eq!(req.params, "?y=1");
}

#[test]
fn found_and_missing_pages() {
    let files = look_for_dirs_and_subdirs(vec![EntryInfo {
        path: "./web/a.css".to_string(),
        file_name: "a.css".to_string(),
        is_dir: false,
    }]);
    let found = FileData::get_by_http_subdir("/a.css".to_string(), files);
    let r = reply_for(&found);
    assert_eq!(r.status, 200);
    assert_eq!(r.content_type, "text/css");
    let missing = reply_for(&None);
    assert_eq!(missing.status, 404);
    assert_eq!(missing.content_type, "text/html");
    assert_eq!(not_found_page(), b"<h1>404 NOT FOUND</h1>".to_vec());
}

#[test]
fn php_pieces() {
    assert!(runs_php("application/x-httpd-php", true));
    assert!(!runs_php("application/x-httpd-php", false));
    assert!(!runs_php("text/html", true));
    assert_eq!(php_page(Some(vec![1, 2])), vec![1, 2]);
    assert_eq!(php_page(None), b"<h1>500 Internal Server Error</h1>".to_vec());
    assert_eq!(php_script_name("/dir/info.php"), "/info.php");
    assert_eq!(php_script_name("/"), "/");
    assert_eq!(php_query_string("?a=1"), "a=1");
    assert_eq!(php_query_string(""), "");
    assert_eq!(php_path_segments("/dir//info.php/"), vec!["dir".to_string(), "info.php".to_string()]);
}

#[test]
fn response_head() {
    let headers = vec![
        pair("Host", "h"),
        pair("content-length", "3"),
        pair("Content-Length", "4"),
        pair("X", "y"),
    ];
    assert_eq!(
        build_response_head(200, 12, "text/html", &headers),
        "HTTP/1.1 200 OK\r\nContent-Length: 12\r\nContent-Type: text/html; charset=utf-8\r\nConnection: close\r\nServer: RustedHttpd\r\nHost: h\r\ncontent-length: 3\r\nX: y\r\n\r\n"
    );
    assert_eq!(
        build_response_head(404, 0, "text/html", &vec![]),
        "HTTP/1.1 404 Not Found\r\nContent-Length: 0\r\nContent-Type: text/html; charset=utf-8\r\nConnection: close\r\nServer: RustedHttpd\r\n\r\n"
    );
    assert!(build_response_head(500, 1, "x", &vec![]).starts_with("HTTP/1.1 500 Internal Server Error\r\n"));
}

#[test]
fn keep_alive_and_header_lookup() {
    let headers = vec![pair("Connection", "Keep-Alive: timeout=5, max=1000"), pair("Host", "h")];
    assert!(should_keep_alive(get_header(&headers, "Connection")));
    assert_eq!(get_header(&headers, "Host"), Some(&"h".to_string()));
    assert_eq!(get_header(&headers, "host"), None);
    assert!(!should_keep_alive(get_header(&headers, "Missing")));
    let other = "keep-alive".to_string();
    assert!(!should_keep_alive(Some(&other)));
}

#[test]
fn page_cache_keeps_what_it_read() {
    let mut cache = rusted_httpd::server::PageCache::new();
    let first = cache.page_for("./web/a".to_string(), || vec![1, 2, 3]);
    assert_eq!(first, vec![1, 2, 3]);
    let again = cache.page_for("./web/a".to_string(), || panic!("a kept page is not read again"));
    assert_eq!(again, vec![1, 2, 3]);
    let other = cache.page_for("./web/b".to_string(), || vec![9]);
    assert_eq!(other, vec![9]);
    assert_eq!(cache.page_for("./web/a".to_string(), || vec![0]), vec![1, 2, 3]);
}

#[test]
fn refresh_only_when_stale() {
    let mut t = FileDataTtl { timestamp: 100, files: vec![], ttl: 10 };
    let mut cache = rusted_httpd::server::PageCache::new();
    cache.page_for("./web/a".to_string(), || vec![1]);
    assert!(!t.refresh(&mut cache, 110, || panic!("a fresh list is not read again")));
    assert_eq!(t.timestamp, 100);
    assert!(t.files.is_empty());
    assert_eq!(cache.page_for("./web/a".to_string(), || vec![2]), vec![1]);
    assert!(t.refresh(&mut cache, 111, || look_for_dirs_and_subdirs(vec![])));
    assert_eq!(t.timestamp, 111);
    assert_eq!(t.ttl, 10);
    assert_eq!(t.files.len(), 1);
    assert_eq!(cache.page_for("./web/a".to_string(), || vec![2]), vec![2]);
}

#[test]
fn whole_exchange() {
    let files = look_for_dirs_and_subdirs(vec![
        EntryInfo { path: "./web/a.css".to_string(), file_name: "a.css".to_string(), is_dir: false },
        EntryInfo { path: "./web/s.php".to_string(), file_name: "s.php".to_string(), is_dir: false },
    ]);
    let mut cache = rusted_httpd::server::PageCache::new();
    let raw = "GET /a.css?v=2 HTTP/1.1\r\nConnection: Keep-Alive: timeout=5, max=1000\r\n\r\n\0\0";
    let ex = rusted_httpd::server::answer(raw, &files, &mut cache, true, |f| {
        assert_eq!(f.get_path(), "./web/a.css");
        b"body{}".to_vec()
    })
    .ok()
    .unwrap();
    assert_eq!(ex.status, 200);
    assert_eq!(ex.content_type, "text/css");
    assert_eq!(ex.page, b"body{}".to_vec());
    assert_eq!(ex.request.path, "/a.css");
    assert_eq!(ex.request.params, "?v=2");
    assert!(!ex.run_php);
    let (head, page, keep) = rusted_httpd::server::finish_exchange(ex, None);
    assert_eq!(page, b"body{}".to_vec());
    assert!(head.starts_with("HTTP/1.1 200 OK\r\nContent-Length: 6\r\nContent-Type: text/css; charset=utf-8\r\n"));
    assert!(!keep);
    let again = rusted_httpd::server::answer(raw, &files, &mut cache, true, |_| panic!("kept page"))
        .ok()
        .unwrap();
    assert_eq!(again.page, b"body{}".to_vec());
    let missing = rusted_httpd::server::answer("GET /nope HTTP/1.1", &files, &mut cache, true, |_| {
        panic!("nothing to open")
    })
    .ok()
    .unwrap();
    assert_eq!(missing.status, 404);
    let (head404, page404, _) = rusted_httpd::server::finish_exchange(missing, None);
    assert_eq!(page404, b"<h1>404 NOT FOUND</h1>".to_vec());
    assert!(head404.starts_with("HTTP/1.1 404 Not Found\r\n"));
    assert!(rusted_httpd::server::answer("\0\0", &files, &mut cache, true, |_| vec![]).is_err());
}

#[test]
fn exchange_with_php_output() {
    let files = look_for_dirs_and_subdirs(vec![]);
    let mut cache = rusted_httpd::server::PageCache::new();
    let mut ex = rusted_httpd::server::answer("GET / HTTP/1.1", &files, &mut cache, true, |_| b"x".to_vec())
        .ok()
        .unwrap();
    ex.run_php = true;
    let (head, page, _) = rusted_httpd::server::finish_exchange(ex, Some(b"<p>hi</p>".to_vec()));
    assert_eq!(page, b"<p>hi</p>".to_vec());
    assert!(head.contains("Content-Length: 9\r\nContent-Type: text/html; charset=utf-8\r\n"));
    let mut failed = rusted_httpd::server::answer("GET / HTTP/1.1", &files, &mut cache, true, |_| vec![])
        .ok()
        .unwrap();
    failed.run_php = true;
    let (_, page500, _) = rusted_httpd::server::finish_exchange(failed, None);
    assert_eq!(page500, b"<h1>500 Internal Server Error</h1>".to_vec());
}
