use rusted_httpd::text::{
    chars_of, eq_ignore_case_exec, join_exec, lines_exec, push_decimal, replace_str, split_exec,
    string_of, trim_str, without_exec, ws_tokens_exec,
};

fn cv(s: &str) -> Vec<char> {
    s.chars().collect()
}

fn strings(v: Vec<Vec<char>>) -> Vec<String> {
    v.into_iter().map(|x| x.into_iter().collect()).collect()
}

#[test]
fn chars_and_back() {
    let v = chars_of("héllo");
    assert_eq!(v, vec!['h', 'é', 'l', 'l', 'o']);
    assert_eq!(string_of(&v), "héllo");
}

#[test]
fn replace_like_std() {
    for (s, p, t) in [
        ("a b c", " ", "\\"),
        ("aaa", "aa", "b"),
        ("abc", "", "-"),
        ("", "", "x"),
        ("/index.html?x=1", "?x=1", ""),
        ("/a", "", ""),
        ("x%20y%20", "%20", " "),
    ] {
        assert_eq!(replace_str(s, p, t), s.replace(p, t), "{:?} {:?} {:?}", s, p, t);
    }
    assert_eq!(replace_str("aaa", "aa", "b"), "ba");
    assert_eq!(replace_str("abc", "", "-"), "-a-b-c-");
}

#[test]
fn replace_by_itself_changes_nothing() {
    assert_eq!(replace_str("it's a 'name'", "'", "'"), "it's a 'name'");
    assert_eq!(replace_str("abab", "ab", "ab"), "abab");
    assert_eq!(replace_str("xyz", "", ""), "xyz");
}

#[test]
fn split_then_join_gives_back() {
    let s = cv("a--b----c-");
    let p = cv("--");
    let pieces = split_exec(&s, &p);
    assert_eq!(strings(pieces.clone()), vec!["a", "b", "", "c-"]);
    assert_eq!(join_exec(&pieces, &p), s);
    let single = split_exec(&cv("abc"), &cv("x"));
    assert_eq!(strings(single), vec!["abc"]);
}

#[test]
fn trim_like_std() {
    for s in ["  hi \t", "\u{3000}x\u{a0}", "", "   ", "a b", "\r\n x \r\n"] {
        assert_eq!(trim_str(s), s.trim());
        assert_eq!(trim_str(&trim_str(s)), trim_str(s));
    }
}

#[test]
fn without_removes_every_occurrence() {
    let once = without_exec(&cv("a\rb\r\rc"), '\r');
    assert_eq!(once, cv("abc"));
    assert_eq!(without_exec(&once, '\r'), once);
}

#[test]
fn tokens_like_split_whitespace() {
    for s in ["GET  /x HTTP/1.1", "  a\tb\u{2003}c  ", "", "   ", "one"] {
        let expected: Vec<String> = s.split_whitespace().map(|x| x.to_string()).collect();
        assert_eq!(strings(ws_tokens_exec(&cv(s))), expected);
    }
}

#[test]
fn lines_like_std() {
    for s in ["a\r\nb\n", "a\rb", "", "\n", "a\n\nb", "x\r", "\r\n\r\n", "last"] {
        let expected: Vec<String> = s.lines().map(|x| x.to_string()).collect();
        assert_eq!(strings(lines_exec(&cv(s))), expected, "{:?}", s);
    }
}

#[test]
fn decimal_digits() {
    for n in [0u64, 7, 10, 200, 1234, u64::MAX] {
        let mut out = vec!['x'];
        push_decimal(&mut out, n);
        let s: String = out.into_iter().collect();
        assert_eq!(s, format!("x{}", n));
    }
}

#[test]
fn ascii_case_insensitive_equality() {
    assert!(eq_ignore_case_exec(&cv("content-LENGTH"), &cv("Content-Length")));
    assert!(!eq_ignore_case_exec(&cv("Content-Lengt"), &cv("Content-Length")));
    assert!(!eq_ignore_case_exec(&cv("ÄB"), &cv("äb")));
}
