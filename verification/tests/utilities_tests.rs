use rusted_httpd::utilities::{
    file_data_of_entry, look_for_dirs_and_subdirs, look_for_files_in_this_dir, open_target,
    parse_req_buffer, process_directory, process_if_path_is_dir, EntryInfo, FileData, OpenTarget,
    Response,
};

fn entry(path: &str, name: &str, is_dir: bool) -> EntryInfo {
    EntryInfo { path: path.to_string(), file_name: name.to_string(), is_dir }
}

fn site() -> Vec<FileData> {
    look_for_dirs_and_subdirs(vec![
        entry("./web/docs", "docs", true),
        entry("./web/docs/a b.txt", "a b.txt", false),
        entry("./web/index.html", "index.html", false),
        entry("./web/info.php", "info.php", false),
    ])
}

#[test]
fn response_bytes() {
    let r = Response {
        http_version: "HTTP/1.1 ",
        status_code: 200,
        status_text: "OK",
        headers: vec!["Content-Type: text/html", "Server: x"],
        body: vec![0, 255, b'a'],
    };
    let mut expected = b"HTTP/1.1 200 OK\r\nContent-Type: text/html\r\nServer: x\r\n\r\n".to_vec();
    expected.extend_from_slice(&[0, 255, b'a']);
    assert_eq!(r.as_bytes(), expected);
    let bare = Response { http_version: "", status_code: 404, status_text: "Ñ", headers: vec![], body: vec![] };
    assert_eq!(bare.as_bytes(), "404 Ñ\r\n\r\n".as_bytes().to_vec());
}

#[test]
fn entries_from_directory_walk() {
    let f = file_data_of_entry(&entry("./web/docs/a b.txt", "a b.txt", false));
    assert_eq!(f.get_path(), "./web/docs/a b.txt");
    assert_eq!(f.get_name(), "a\\b.txt");
    assert_eq!(f.get_http_subdir(), "/docs/a b.txt");
    assert_eq!(f.get_content_type(), "text/html");
    assert!(!f.is_dir());
    let php = file_data_of_entry(&entry("./web/info.php", "info.php", false));
    assert_eq!(php.get_content_type(), "text/html");
    let png = file_data_of_entry(&entry("./web/x.png", "x.png", false));
    assert_eq!(png.get_content_type(), "image/png");
    let wide = file_data_of_entry(&entry("./wéb/z", "z", false));
    assert_eq!(wide.get_http_subdir(), "b/z");
}

#[test]
fn root_comes_first() {
    let files = site();
    assert_eq!(files.len(), 5);
    assert_eq!(files[0].get_path(), "./web");
    assert_eq!(files[0].get_name(), "web");
    assert_eq!(files[0].get_http_subdir(), "/");
    assert_eq!(files[0].get_content_type(), "text/html");
    assert!(files[0].is_dir());
    assert_eq!(files[1].get_http_subdir(), "/docs");
    let listed = look_for_files_in_this_dir(vec![entry("./web/docs/a b.txt", "a b.txt", false)]);
    assert_eq!(listed.len(), 1);
    assert_eq!(listed[0].get_name(), "a\\b.txt");
    let mut more = FileData::cloneVec(listed);
    process_directory(&vec![entry("./web/k", "k", true)], &mut more);
    assert_eq!(more.len(), 2);
    assert_eq!(more[1].get_http_subdir(), "/k");
}

#[test]
fn lookup_by_request_path() {
    let found = FileData::get_by_http_subdir("/docs/".to_string(), site()).unwrap();
    assert_eq!(found.get_path(), "./web/docs");
    let same = FileData::get_by_http_subdir("/docs".to_string(), site()).unwrap();
    assert_eq!(same.get_path(), found.get_path());
    let root = FileData::get_by_http_subdir("/".to_string(), site()).unwrap();
    assert_eq!(root.get_path(), "./web");
    assert!(FileData::get_by_http_subdir("/docs//".to_string(), site()).is_none());
    assert!(FileData::get_by_http_subdir("/missing".to_string(), site()).is_none());
    assert!(FileData::get_by_http_subdir("".to_string(), site()).is_none());
}

#[test]
fn copies_keep_every_entry() {
    let files = site();
    let copy = FileData::cloneVec(FileData::cloneVec(files));
    let fresh = site();
    assert_eq!(copy.len(), fresh.len());
    for (a, b) in copy.iter().zip(fresh.iter()) {
        assert_eq!(a.get_path(), b.get_path());
        assert_eq!(a.get_name(), b.get_name());
        assert_eq!(a.get_http_subdir(), b.get_http_subdir());
        assert_eq!(a.get_content_type(), b.get_content_type());
        assert_eq!(a.is_dir(), b.is_dir());
    }
    assert!(FileData::cloneVec(vec![]).is_empty());
}

#[test]
fn listing_page() {
    let listing = look_for_files_in_this_dir(vec![
        entry("./web/docs/a", "a", false),
        entry("./web/docs/sub", "sub", true),
    ]);
    assert_eq!(
        process_if_path_is_dir(listing),
        "<h1>Directory</h1><ul><li><a href=\"/docs/a\">a</a></li></ul><ul><li><a href=\"/docs/sub\">sub</a></li></ul></ul>"
    );
    assert_eq!(process_if_path_is_dir(vec![]), "<h1>Directory</h1></ul>");
}

#[test]
fn what_serving_takes() {
    let files = site();
    match open_target(&files[2], &files) {
        OpenTarget::ReadFile(p) => assert_eq!(p, "./web/docs/a b.txt"),
        OpenTarget::Listing => panic!("a file is read"),
    }
    match open_target(&files[0], &files) {
        OpenTarget::ReadFile(p) => assert_eq!(p, "./web/index.html"),
        OpenTarget::Listing => panic!("the index stands in for the directory"),
    }
    let docs = look_for_files_in_this_dir(vec![entry("./web/docs/a", "a", false)]);
    assert!(matches!(open_target(&files[1], &docs), OpenTarget::Listing));
}

#[test]
fn get_target_decoded_last() {
    assert_eq!(parse_req_buffer(vec!["GET /a%20b HTTP/1.1".to_string()]), "/a b");
    assert_eq!(parse_req_buffer(vec!["GET ".to_string(), "/x".to_string()]), "/x");
}

#[test]
fn directory_page_lists_the_path() {
    let files = site();
    let page = rusted_httpd::utilities::directory_page(&files[1], |p| {
        assert_eq!(p, "./web/docs");
        look_for_files_in_this_dir(vec![entry("./web/docs/a", "a", false)])
    });
    assert_eq!(page, "<h1>Directory</h1><ul><li><a href=\"/docs/a\">a</a></li></ul></ul>");
    let empty = rusted_httpd::utilities::directory_page(&files[2], |_| vec![]);
    assert_eq!(empty, "<h1>Directory</h1></ul>");
}

#[test]
fn walked_url_paths_are_distinct() {
    let files = site();
    for f in files.iter() {
        let found = FileData::get_by_http_subdir(f.get_http_subdir(), site()).unwrap();
        assert_eq!(found.get_path(), f.get_path());
    }
    for f in files.iter().skip(1) {
        assert_eq!(f.get_http_subdir(), f.get_path()[5..].to_string());
    }
}
