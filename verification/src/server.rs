//! The decisions of one request-response exchange: when the file list is stale, how
//! the raw request splits into request text and body, which page answers, and the
//! response head.

use vstd::prelude::*;
use vstd::utf8::encode_utf8;
use crate::parsing::{
    law_single_line_no_headers,
    key_index, lemma_key_index, pair_views, parse_request, request_of, HttpReq, HttpReqView,
    RequestError,
};
use crate::text::{
    append_chars, chars_of, decimal, eq_ignore_case, eq_ignore_case_exec,
    push_decimal, replace_all, replace_exec, split_exec, split_pieces,
    string_of, views, without, without_exec, avoids, law_without, lemma_without_avoids,
    lemma_replace_avoids, lemma_replace_char_avoids, lemma_lines_of_one_line, lines,
    lemma_split_first, lemma_split_no_occurrence, lemma_without_absent, occurs_at,
};
use crate::utilities::{file_views, lemma_subdir_index, normalize_subdir, subdir_index, FileData};

verus! {

broadcast use vstd::string::group_string_axioms;

/// The file list of the document root, with when it was read and for how long it holds.
pub struct FileDataTtl {
    pub timestamp: u64,
    pub files: Vec<FileData>,
    pub ttl: u32,
}

impl FileDataTtl {
    /// The cached file list.
    pub fn get_file(&self) -> (r: &Vec<FileData>)
        ensures
            *r == self.files,
    {
        &self.files
    }

    /// Whether the list has expired at time `now`: more than `ttl` seconds after it was read.
    pub fn is_stale(&self, now: u64) -> (r: bool)
        requires
            self.timestamp + self.ttl <= u64::MAX,
        ensures
            r == (now > self.timestamp + self.ttl),
    {
        now > self.timestamp + self.ttl as u64
    }

    /// The refresh rule: where the list is stale at `now`, it is read again with
    /// `reread`, stamped with `now`, and the page cache is emptied; else nothing changes.
    /// Says whether it refreshed.
    pub fn refresh<F: FnOnce() -> Vec<FileData>>(
        &mut self,
        cache: &mut PageCache,
        now: u64,
        reread: F,
    ) -> (r: bool)
        requires
            old(self).timestamp + old(self).ttl <= u64::MAX,
            call_requires(reread, ()),
        ensures
            r == (now > old(self).timestamp + old(self).ttl),
            r ==> final(self).timestamp == now && final(self).ttl == old(self).ttl && call_ensures(
                reread,
                (),
                final(self).files,
            ) && final(cache)@ == Seq::<(Seq<char>, Seq<u8>)>::empty(),
            !r ==> *final(self) == *old(self) && final(cache)@ == old(cache)@,
    {
        if self.is_stale(now) {
            let files = reread();
            self.renew(now, files);
            *cache = PageCache::new();
            true
        } else {
            false
        }
    }

    /// Takes a freshly read list at time `now`; the lifetime stays.
    pub fn renew(&mut self, now: u64, files: Vec<FileData>)
        ensures
            final(self).timestamp == now,
            final(self).files == files,
            final(self).ttl == old(self).ttl,
    {
        self.timestamp = now;
        self.files = files;
    }
}

/// Pages already read, each under the path of its file.
pub struct PageCache {
    entries: Vec<(String, Vec<u8>)>,
}

/// The position of the first page kept under `k`.
pub open spec fn page_index(es: Seq<(Seq<char>, Seq<u8>)>, k: Seq<char>) -> Option<int>
    decreases es.len(),
{
    if es.len() == 0 {
        None
    } else {
        match page_index(es.drop_last(), k) {
            Some(j) => Some(j),
            None => if es.last().0 == k {
                Some(es.len() - 1)
            } else {
                None
            },
        }
    }
}

/// What `page_index` gives: the least position holding a page kept under `k`.
pub proof fn lemma_page_index(es: Seq<(Seq<char>, Seq<u8>)>, k: Seq<char>)
    ensures
        match page_index(es, k) {
            Some(j) => 0 <= j < es.len() && es[j].0 == k && forall|i: int|
                0 <= i < j ==> es[i].0 != k,
            None => forall|i: int| 0 <= i < es.len() ==> es[i].0 != k,
        },
    decreases es.len(),
{
    if es.len() > 0 {
        let init = es.drop_last();
        lemma_page_index(init, k);
        assert forall|i: int| 0 <= i < init.len() implies init[i] == es[i] by {}
    }
}

impl View for PageCache {
    type V = Seq<(Seq<char>, Seq<u8>)>;

    closed spec fn view(&self) -> Seq<(Seq<char>, Seq<u8>)> {
        self.entries@.map_values(|e: (String, Vec<u8>)| (e.0@, e.1@))
    }
}

impl PageCache {
    /// An empty cache.
    pub fn new() -> (r: PageCache)
        ensures
            r@ == Seq::<(Seq<char>, Seq<u8>)>::empty(),
    {
        let r = PageCache { entries: Vec::new() };
        assert(r@ =~= Seq::<(Seq<char>, Seq<u8>)>::empty());
        r
    }

    /// The page kept under `key`, if there is one.
    pub fn lookup(&self, key: &String) -> (r: Option<Vec<u8>>)
        ensures
            match page_index(self@, key@) {
                Some(i) => r matches Some(p) && p@ == self@[i].1,
                None => r is None,
            },
    {
        let ghost es = self@;
        let mut i: usize = 0;
        while i < self.entries.len()
            invariant
                es == self@,
                i <= self.entries.len(),
                forall|k: int| 0 <= k < i ==> es[k].0 != key@,
            decreases self.entries.len() - i,
        {
            if self.entries[i].0 == *key {
                proof {
                    lemma_page_index(es, key@);
                    assert(es[i as int].0 == key@);
                    match page_index(es, key@) {
                        Some(m) => {
                            if m < i as int {
                                assert(es[m].0 != key@);
                            }
                            if m > i as int {
                                assert(es[i as int].0 != key@);
                            }
                        },
                        None => {
                            assert(es[i as int].0 != key@);
                        },
                    }
                }
                let page = vstd::slice::slice_to_vec(self.entries[i].1.as_slice());
                assert(page@ == es[i as int].1);
                return Some(page);
            }
            i = i + 1;
        }
        proof {
            lemma_page_index(es, key@);
        }
        None
    }

    /// Keeps `page` under `key`, after the pages kept already.
    pub fn keep(&mut self, key: String, page: Vec<u8>)
        ensures
            final(self)@ == old(self)@.push((key@, page@)),
    {
        let ghost es = self@;
        let ghost kv = key@;
        let ghost pv = page@;
        self.entries.push((key, page));
        assert(self@ =~= es.push((kv, pv)));
    }

    /// The page of the file at `key`: the kept one where there is one, else what `open`
    /// reads, which is then kept under `key`.
    pub fn page_for<F: FnOnce() -> Vec<u8>>(&mut self, key: String, open: F) -> (r: Vec<u8>)
        requires
            call_requires(open, ()),
        ensures
            match page_index(old(self)@, key@) {
                Some(i) => r@ == old(self)@[i].1 && final(self)@ == old(self)@,
                None => call_ensures(open, (), r) && final(self)@ == old(self)@.push(
                    (key@, r@),
                ),
            },
    {
        let ghost es = self@;
        let mut i: usize = 0;
        while i < self.entries.len()
            invariant
                es == self@,
                i <= self.entries.len(),
                forall|k: int| 0 <= k < i ==> es[k].0 != key@,
            decreases self.entries.len() - i,
        {
            if self.entries[i].0 == key {
                proof {
                    lemma_page_index(es, key@);
                    assert(es[i as int].0 == key@);
                    match page_index(es, key@) {
                        Some(m) => {
                            if m < i as int {
                                assert(es[m].0 != key@);
                            }
                            if m > i as int {
                                assert(es[i as int].0 != key@);
                            }
                        },
                        None => {
                            assert(es[i as int].0 != key@);
                        },
                    }
                }
                let page = vstd::slice::slice_to_vec(self.entries[i].1.as_slice());
                assert(page@ == es[i as int].1);
                return page;
            }
            i = i + 1;
        }
        proof {
            lemma_page_index(es, key@);
        }
        let page = open();
        let kept = vstd::slice::slice_to_vec(page.as_slice());
        let ghost kv = key@;
        self.entries.push((key, kept));
        assert(self@ =~= es.push((kv, page@)));
        page
    }
}

/// Law: serving a page keeps every page that was kept before, and afterwards the
/// page served is kept under its key.
pub proof fn law_cache_keeps(es: Seq<(Seq<char>, Seq<u8>)>, key: Seq<char>, page: Seq<u8>)
    requires
        page_index(es, key) is None,
    ensures
        forall|q: Seq<char>|
            #[trigger] page_index(es, q) is Some ==> page_index(es.push((key, page)), q)
                == page_index(es, q),
        page_index(es.push((key, page)), key) == Some(es.len() as int),
        es.push((key, page))[es.len() as int].1 == page,
{
    let all = es.push((key, page));
    assert(all.drop_last() =~= es);
}

/// The body of a raw request: the text after `"Content-Length: "`, from after the first
/// `"\r\n\r\n"` there up to the next one; none where there is no `"Content-Length: "`.
pub open spec fn body_of(buf: Seq<char>) -> Option<Seq<char>> {
    let ps = split_pieces(buf, "Content-Length: "@);
    if ps.len() > 1 {
        Some(split_pieces(ps[1], "\r\n\r\n"@)[1])
    } else {
        None
    }
}

/// Where `buf` has a `"Content-Length: "`, an empty line follows it.
pub open spec fn body_parsable(buf: Seq<char>) -> bool {
    let ps = split_pieces(buf, "Content-Length: "@);
    ps.len() > 1 ==> split_pieces(ps[1], "\r\n\r\n"@).len() > 1
}

/// The body of a raw request, as `body_of` says.
pub fn parse_body(buf: &String) -> (r: Option<String>)
    requires
        body_parsable(buf@),
    ensures
        match r {
            Some(b) => body_of(buf@) == Some(b@),
            None => body_of(buf@) is None,
        },
{
    let bv = chars_of(buf.as_str());
    let marker = chars_of("Content-Length: ");
    let blank = chars_of("\r\n\r\n");
    proof {
        reveal_strlit("Content-Length: ");
        reveal_strlit("\r\n\r\n");
    }
    let ps = split_exec(&bv, &marker);
    if ps.len() > 1 {
        assert(views(ps@)[1] == ps@[1]@);
        let qs = split_exec(&ps[1], &blank);
        assert(views(qs@)[1] == qs@[1]@);
        Some(string_of(&qs[1]))
    } else {
        None
    }
}

/// The request text of a raw request: without NUL characters, without its body and
/// carriage returns, and with line feeds made spaces.
pub open spec fn request_text(raw: Seq<char>) -> Seq<char> {
    let a = without(raw, '\0');
    let body = match body_of(a) {
        Some(b) => b,
        None => seq![],
    };
    replace_all(replace_all(without(a, '\r'), body, seq![]), "\n"@, " "@)
}

/// The body of a raw request without NUL characters, or nothing.
pub open spec fn request_body(raw: Seq<char>) -> Seq<char> {
    match body_of(without(raw, '\0')) {
        Some(b) => b,
        None => seq![],
    }
}

/// Splits a raw request into its request text and its body.
pub fn prepare_request(raw: &str) -> (r: (String, String))
    requires
        body_parsable(without(raw@, '\0')),
    ensures
        r.0@ == request_text(raw@),
        r.1@ == request_body(raw@),
{
    let rv = chars_of(raw);
    let a = without_exec(&rv, '\0');
    let a_string = string_of(&a);
    let body = match parse_body(&a_string) {
        Some(b) => b,
        None => String::new(),
    };
    let b = without_exec(&a, '\r');
    let bodyv = chars_of(body.as_str());
    let empty: Vec<char> = Vec::new();
    let c = replace_exec(&b, &bodyv, &empty);
    let nl = chars_of("\n");
    let sp = chars_of(" ");
    let d = replace_exec(&c, &nl, &sp);
    (string_of(&d), body)
}

/// The status and content type that answer a request for `file`, where it was found.
pub struct Reply {
    pub status: u32,
    pub content_type: String,
}

/// A found file is answered `200` with its content type; a missing one `404` as HTML.
pub fn reply_for(file: &Option<FileData>) -> (r: Reply)
    ensures
        match file {
            Some(f) => r.status == 200 && r.content_type@ == f@.content_type,
            None => r.status == 404 && r.content_type@ == "text/html"@,
        },
{
    match file {
        Some(f) => Reply { status: 200, content_type: f.get_content_type() },
        None => Reply { status: 404, content_type: "text/html".to_owned() },
    }
}

/// The bytes of a string.
fn bytes_of(s: &str) -> (r: Vec<u8>)
    ensures
        r@ == encode_utf8(s@),
{
    vstd::slice::slice_to_vec(s.as_bytes())
}

/// The page of a missing file.
pub fn not_found_page() -> (r: Vec<u8>)
    ensures
        r@ == encode_utf8("<h1>404 NOT FOUND</h1>"@),
{
    bytes_of("<h1>404 NOT FOUND</h1>")
}

/// Whether a file of content type `file_type` is run by the PHP server.
pub fn runs_php(file_type: &str, php_enabled: bool) -> (r: bool)
    ensures
        r == (file_type@ == "application/x-httpd-php"@ && php_enabled),
{
    let tv = chars_of(file_type);
    let pv = chars_of("application/x-httpd-php");
    php_enabled && crate::text::eq_chars(&tv, &pv)
}

/// The page that a PHP run gives: its output, or an error page where the run failed.
pub fn php_page(output: Option<Vec<u8>>) -> (r: Vec<u8>)
    ensures
        match output {
            Some(o) => r@ == o@,
            None => r@ == encode_utf8("<h1>500 Internal Server Error</h1>"@),
        },
{
    match output {
        Some(o) => o,
        None => bytes_of("<h1>500 Internal Server Error</h1>"),
    }
}

/// The last position in `s` that holds `c`.
pub open spec fn last_index(s: Seq<char>, c: char) -> Option<int>
    decreases s.len(),
{
    if s.len() == 0 {
        None
    } else if s.last() == c {
        Some(s.len() - 1)
    } else {
        last_index(s.drop_last(), c)
    }
}

/// The script name of a request path: from its last `'/'` on.
pub open spec fn script_name(path: Seq<char>) -> Seq<char> {
    path.skip(last_index(path, '/')->0)
}

/// The script name of a request path that holds a `'/'`.
pub fn php_script_name(path: &str) -> (r: String)
    requires
        last_index(path@, '/') is Some,
    ensures
        r@ == script_name(path@),
{
    let pv = chars_of(path);
    let mut i: usize = pv.len();
    assert(pv@.take(pv.len() as int) =~= pv@);
    while i > 0 && pv[i - 1] != '/'
        invariant
            i <= pv.len(),
            last_index(pv@, '/') == last_index(pv@.take(i as int), '/'),
        decreases i,
    {
        assert(pv@.take(i as int).drop_last() =~= pv@.take(i - 1));
        i = i - 1;
    }
    assert(pv@.take(pv.len() as int) =~= pv@);
    assert(i > 0);
    assert(pv@.take(i as int).last() == '/');
    let tail = crate::text::slice_chars(&pv, i - 1, pv.len());
    assert(tail@ =~= pv@.skip(i - 1));
    string_of(&tail)
}

/// The query string of a request: its parameters without their first character.
pub fn php_query_string(params: &str) -> (r: String)
    ensures
        r@ == (if params@.len() == 0 {
            seq![]
        } else {
            params@.drop_first()
        }),
{
    let pv = chars_of(params);
    if pv.len() == 0 {
        String::new()
    } else {
        let rest = crate::text::slice_chars(&pv, 1, pv.len());
        assert(rest@ =~= pv@.drop_first());
        string_of(&rest)
    }
}

/// The non-empty parts of a request path between its `'/'` characters.
pub open spec fn path_segments(path: Seq<char>) -> Seq<Seq<char>> {
    split_pieces(path, seq!['/']).filter(|p: Seq<char>| p.len() > 0)
}

/// The non-empty parts of a request path between its `'/'` characters, in order.
pub fn php_path_segments(path: &str) -> (r: Vec<String>)
    ensures
        crate::parsing::string_views(r@) == path_segments(path@),
{
    let pv = chars_of(path);
    let mut slash: Vec<char> = Vec::new();
    slash.push('/');
    assert(slash@ =~= seq!['/']);
    let ps = split_exec(&pv, &slash);
    let ghost all = views(ps@);
    let mut out: Vec<String> = Vec::new();
    let mut i: usize = 0;
    while i < ps.len()
        invariant
            all == views(ps@),
            i <= ps.len(),
            crate::parsing::string_views(out@) == all.take(i as int).filter(
                |p: Seq<char>| p.len() > 0,
            ),
        decreases ps.len() - i,
    {
        let ghost before = out@;
        proof {
            assert(all.take(i + 1).drop_last() =~= all.take(i as int));
            reveal_with_fuel(Seq::<_>::filter, 1);
        }
        if ps[i].len() > 0 {
            let s = string_of(&ps[i]);
            out.push(s);
            assert(crate::parsing::string_views(out@) =~= crate::parsing::string_views(
                before,
            ).push(all[i as int]));
        } else {
            assert(crate::parsing::string_views(out@) =~= crate::parsing::string_views(before));
        }
        i = i + 1;
    }
    assert(all.take(ps.len() as int) =~= all);
    out
}


/// The reason phrase of a status code.
pub open spec fn reason(status: nat) -> Seq<char> {
    if status == 200 {
        "OK"@
    } else if status == 404 {
        "Not Found"@
    } else {
        "Internal Server Error"@
    }
}

/// The headers that every response carries.
pub open spec fn base_headers(body_len: nat, file_type: Seq<char>) -> Seq<char> {
    "Content-Length: "@ + decimal(body_len) + "\r\n"@ + "Content-Type: "@ + file_type
        + "; charset=utf-8"@ + "\r\n"@ + "Connection: close"@ + "\r\n"@ + "Server: RustedHttpd"@
        + "\r\n"@
}

/// Whether a header name is `Content-Length`, ignoring ASCII case.
pub open spec fn is_content_length(k: Seq<char>) -> bool {
    eq_ignore_case(k, "Content-Length"@)
}

/// The request headers that the response repeats, in order: all of them, but only the
/// first `Content-Length` (in any case), and none of those where `seen` says that one
/// was already repeated.
pub open spec fn echoed(hs: Seq<(Seq<char>, Seq<char>)>, seen: bool) -> Seq<
    (Seq<char>, Seq<char>),
>
    decreases hs.len(),
{
    if hs.len() == 0 {
        seq![]
    } else {
        let cl = is_content_length(hs[0].0);
        if cl && seen {
            echoed(hs.drop_first(), seen)
        } else {
            seq![hs[0]] + echoed(hs.drop_first(), seen || cl)
        }
    }
}

/// Header lines `name: value`, each followed by `"\r\n"`.
pub open spec fn render_headers(hs: Seq<(Seq<char>, Seq<char>)>) -> Seq<char>
    decreases hs.len(),
{
    if hs.len() == 0 {
        seq![]
    } else {
        hs[0].0 + ": "@ + hs[0].1 + "\r\n"@ + render_headers(hs.drop_first())
    }
}

/// The head of a response: status line, the headers every response carries, the
/// request headers repeated, and an empty line.
pub open spec fn response_head_text(
    status: nat,
    body_len: nat,
    file_type: Seq<char>,
    hs: Seq<(Seq<char>, Seq<char>)>,
) -> Seq<char> {
    "HTTP/1.1 "@ + decimal(status) + " "@ + reason(status) + "\r\n"@ + base_headers(
        body_len,
        file_type,
    ) + render_headers(echoed(hs, false)) + "\r\n"@
}

/// Appends the characters of `t` to `out`.
fn push_str(out: &mut Vec<char>, t: &str)
    ensures
        final(out)@ == old(out)@ + t@,
{
    let tv = chars_of(t);
    append_chars(out, &tv);
}

/// The status line and the headers that every response carries.
fn head_start(status: u32, body_len: usize, file_type: &str) -> (r: Vec<char>)
    ensures
        r@ == "HTTP/1.1 "@ + decimal(status as nat) + " "@ + reason(status as nat) + "\r\n"@
            + base_headers(body_len as nat, file_type@),
{
    let mut out: Vec<char> = Vec::new();
    push_str(&mut out, "HTTP/1.1 ");
    push_decimal(&mut out, status as u64);
    push_str(&mut out, " ");
    if status == 200 {
        push_str(&mut out, "OK");
    } else if status == 404 {
        push_str(&mut out, "Not Found");
    } else {
        push_str(&mut out, "Internal Server Error");
    }
    push_str(&mut out, "\r\n");
    let ghost line = out@;
    push_str(&mut out, "Content-Length: ");
    push_decimal(&mut out, body_len as u64);
    push_str(&mut out, "\r\n");
    push_str(&mut out, "Content-Type: ");
    push_str(&mut out, file_type);
    push_str(&mut out, "; charset=utf-8");
    push_str(&mut out, "\r\n");
    push_str(&mut out, "Connection: close");
    push_str(&mut out, "\r\n");
    push_str(&mut out, "Server: RustedHttpd");
    push_str(&mut out, "\r\n");
    assert(out@ =~= line + base_headers(body_len as nat, file_type@));
    out
}

/// Appends the repeated request headers to `out`.
fn push_echoed(out: &mut Vec<char>, headers: &Vec<(String, String)>)
    ensures
        final(out)@ == old(out)@ + render_headers(echoed(pair_views(headers@), false)),
{
    let ghost hs = pair_views(headers@);
    let ghost start = out@;
    let cl = chars_of("Content-Length");
    let mut seen = false;
    let ghost mut acc: Seq<char> = seq![];
    let mut i: usize = 0;
    assert(hs.skip(0) =~= hs);
    while i < headers.len()
        invariant
            hs == pair_views(headers@),
            start == old(out)@,
            cl@ == "Content-Length"@,
            i <= headers.len(),
            out@ == start + acc,
            acc + render_headers(echoed(hs.skip(i as int), seen)) == render_headers(
                echoed(hs, false),
            ),
        decreases headers.len() - i,
    {
        let key = chars_of(headers[i].0.as_str());
        let is_cl = eq_ignore_case_exec(&key, &cl);
        let ghost rest = hs.skip(i as int);
        assert(rest[0] == hs[i as int]);
        assert(rest.drop_first() =~= hs.skip(i + 1));
        assert(key@ == hs[i as int].0);
        assert(is_cl == is_content_length(rest[0].0));
        if is_cl && seen {
            assert(echoed(rest, seen) == echoed(rest.drop_first(), seen));
            i = i + 1;
        } else {
            let ghost tail = echoed(rest.drop_first(), seen || is_cl);
            assert(echoed(rest, seen) == seq![rest[0]] + tail);
            assert((seq![rest[0]] + tail).drop_first() =~= tail);
            assert((seq![rest[0]] + tail)[0] == rest[0]);
            let ghost line = hs[i as int].0 + ": "@ + hs[i as int].1 + "\r\n"@;
            append_chars(out, &key);
            push_str(out, ": ");
            push_str(out, headers[i].1.as_str());
            push_str(out, "\r\n");
            proof {
                acc = acc + line;
            }
            assert(out@ =~= start + acc);
            assert(render_headers(seq![rest[0]] + tail) == line + render_headers(tail));
            seen = seen || is_cl;
            i = i + 1;
        }
    }
    assert(hs.skip(headers.len() as int) =~= Seq::<(Seq<char>, Seq<char>)>::empty());
    assert(acc =~= render_headers(echoed(hs, false)));
}

/// The head of the response to a request with headers `headers`, whose body has
/// `body_len` bytes of content type `file_type`.
pub fn build_response_head(
    status: u32,
    body_len: usize,
    file_type: &str,
    headers: &Vec<(String, String)>,
) -> (r: String)
    ensures
        r@ == response_head_text(
            status as nat,
            body_len as nat,
            file_type@,
            pair_views(headers@),
        ),
{
    let mut out = head_start(status, body_len, file_type);
    push_echoed(&mut out, headers);
    push_str(&mut out, "\r\n");
    string_of(&out)
}

/// Whether the connection stays open: only where the `Connection` header's value is
/// exactly `Keep-Alive: timeout=5, max=1000`.
pub fn should_keep_alive(http_req: Option<&String>) -> (r: bool)
    ensures
        r == (http_req matches Some(c) && c@ == "Keep-Alive: timeout=5, max=1000"@),
{
    match http_req {
        Some(connection_header) => {
            let expected = "Keep-Alive: timeout=5, max=1000".to_owned();
            *connection_header == expected
        },
        None => false,
    }
}

/// The value of the header named `key`, if the request has one.
pub fn get_header<'a>(headers: &'a Vec<(String, String)>, key: &str) -> (r: Option<&'a String>)
    ensures
        match key_index(pair_views(headers@), key@) {
            Some(j) => r matches Some(v) && v@ == pair_views(headers@)[j].1,
            None => r is None,
        },
{
    let ghost pv = pair_views(headers@);
    let k = key.to_owned();
    let mut j: usize = 0;
    while j < headers.len()
        invariant
            pv == pair_views(headers@),
            k@ == key@,
            j <= headers.len(),
            forall|i: int| 0 <= i < j ==> pv[i].0 != key@,
        decreases headers.len() - j,
    {
        if headers[j].0 == k {
            proof {
                lemma_key_index(pv, key@);
                match key_index(pv, key@) {
                    Some(m) => {
                        if m < j as int {
                            assert(pv[m].0 != key@);
                        }
                        if m > j as int {
                            assert(pv[j as int].0 != key@);
                        }
                    },
                    None => {
                        assert(pv[j as int].0 != key@);
                    },
                }
            }
            return Some(&headers[j].1);
        }
        j = j + 1;
    }
    proof {
        lemma_key_index(pv, key@);
    }
    None
}


/// Law: the request text of any raw request holds no NUL, carriage return or line
/// feed, so it is at most one line.
pub proof fn law_request_text_one_line(raw: Seq<char>)
    ensures
        avoids(request_text(raw), '\n'),
        avoids(request_text(raw), '\r'),
        avoids(request_text(raw), '\0'),
        lines(request_text(raw)).len() <= 1,
{
    let a = without(raw, '\0');
    law_without(raw, '\0');
    let y = without(a, '\r');
    law_without(a, '\r');
    lemma_without_avoids(a, '\r', '\0');
    let body = match body_of(a) {
        Some(b) => b,
        None => seq![],
    };
    let empty: Seq<char> = seq![];
    lemma_replace_avoids(y, body, empty, '\0');
    lemma_replace_avoids(y, body, empty, '\r');
    let z = replace_all(y, body, empty);
    reveal_strlit("\n");
    reveal_strlit(" ");
    assert("\n"@ =~= seq!['\n']);
    let sp = " "@;
    assert(avoids(sp, '\n') && avoids(sp, '\r') && avoids(sp, '\0'));
    lemma_replace_char_avoids(z, '\n', sp);
    lemma_replace_avoids(z, "\n"@, sp, '\0');
    lemma_replace_avoids(z, "\n"@, sp, '\r');
    lemma_lines_of_one_line(request_text(raw));
}

/// No entry of `echoed(hs, true)` is a `Content-Length` header.
proof fn lemma_echoed_after_seen(hs: Seq<(Seq<char>, Seq<char>)>)
    ensures
        forall|i: int|
            0 <= i < echoed(hs, true).len() ==> !is_content_length(#[trigger] echoed(hs, true)[i].0),
    decreases hs.len(),
{
    if hs.len() > 0 {
        lemma_echoed_after_seen(hs.drop_first());
        let rest = echoed(hs.drop_first(), true);
        if !is_content_length(hs[0].0) {
            let e = echoed(hs, true);
            assert(e == seq![hs[0]] + rest);
            assert forall|i: int| 0 <= i < e.len() implies !is_content_length(#[trigger] e[i].0) by {
                if i > 0 {
                    assert(e[i] == rest[i - 1]);
                }
            }
        }
    }
}

/// Law: among the request headers that a response repeats, at most one is a
/// `Content-Length` header, whatever its case.
pub proof fn law_single_content_length(hs: Seq<(Seq<char>, Seq<char>)>)
    ensures
        forall|i: int, j: int|
            0 <= i < j < echoed(hs, false).len() ==> !(is_content_length(
                #[trigger] echoed(hs, false)[i].0,
            ) && is_content_length(#[trigger] echoed(hs, false)[j].0)),
    decreases hs.len(),
{
    if hs.len() > 0 {
        let e = echoed(hs, false);
        if is_content_length(hs[0].0) {
            lemma_echoed_after_seen(hs.drop_first());
            let rest = echoed(hs.drop_first(), true);
            assert(e == seq![hs[0]] + rest);
            assert forall|i: int, j: int| 0 <= i < j < e.len() implies !(is_content_length(
                #[trigger] e[i].0,
            ) && is_content_length(#[trigger] e[j].0)) by {
                assert(e[j] == rest[j - 1]);
            }
        } else {
            law_single_content_length(hs.drop_first());
            let rest = echoed(hs.drop_first(), false);
            assert(e == seq![hs[0]] + rest);
            assert forall|i: int, j: int| 0 <= i < j < e.len() implies !(is_content_length(
                #[trigger] e[i].0,
            ) && is_content_length(#[trigger] e[j].0)) by {
                assert(e[j] == rest[j - 1]);
                if i > 0 {
                    assert(e[i] == rest[i - 1]);
                }
            }
        }
    }
}

/// Law: a file list read at time `now` is not stale at `now`.
pub proof fn law_fresh_after_renew(t: FileDataTtl, now: u64)
    requires
        t.timestamp == now,
    ensures
        !(now > t.timestamp + t.ttl),
{
}


/// What a request is answered with, before the PHP server has had its say.
pub struct Exchange {
    /// The parsed request, with its body.
    pub request: HttpReq,
    /// The status code.
    pub status: u32,
    /// The content type of the page.
    pub content_type: String,
    /// The page.
    pub page: Vec<u8>,
    /// Whether the PHP server is to produce the page instead.
    pub run_php: bool,
}

/// The request that a raw request holds: its request text parsed, with its body.
pub open spec fn answered_request(raw: Seq<char>) -> HttpReqView {
    let q = request_of(request_text(raw));
    HttpReqView {
        method: q.method,
        path: q.path,
        headers: q.headers,
        params: q.params,
        body: request_body(raw),
    }
}

/// A copy of each entry of a file list.
fn copy_files(files: &Vec<FileData>) -> (r: Vec<FileData>)
    ensures
        file_views(r@) == file_views(files@),
{
    let mut out: Vec<FileData> = Vec::new();
    let mut i: usize = 0;
    while i < files.len()
        invariant
            i <= files.len(),
            file_views(out@) == file_views(files@).take(i as int),
        decreases files.len() - i,
    {
        let c = files[i].duplicate();
        let ghost old_out = out@;
        let ghost cv = c@;
        out.push(c);
        assert(file_views(out@) =~= file_views(old_out).push(cv));
        assert(file_views(files@).take(i + 1) =~= file_views(files@).take(i as int).push(
            files@[i as int]@,
        ));
        i = i + 1;
    }
    assert(file_views(files@).take(files.len() as int) =~= file_views(files@));
    out
}

/// One exchange up to the PHP step: the raw request is split and parsed, the file is
/// looked up by the request path, its page comes from the cache or from `open` (and is
/// then kept), a missing file is answered `404`; PHP runs where the page is a PHP
/// script and PHP is enabled. Fails, leaving the cache alone, exactly where the request
/// text has no line.
pub fn answer<F: FnOnce(FileData) -> Vec<u8>>(
    raw: &str,
    files: &Vec<FileData>,
    cache: &mut PageCache,
    php_enabled: bool,
    open: F,
) -> (r: Result<Exchange, RequestError>)
    requires
        body_parsable(without(raw@, '\0')),
        forall|f: FileData| call_requires(open, (f,)),
    ensures
        r is Err <==> lines(request_text(raw@)).len() == 0,
        r is Err ==> final(cache)@ == old(cache)@,
        r matches Ok(x) ==> x.request@ == answered_request(raw@),
        r matches Ok(x) ==> x.run_php == (x.content_type@ == "application/x-httpd-php"@
            && php_enabled),
        r matches Ok(x) ==> match subdir_index(
            file_views(files@),
            normalize_subdir(answered_request(raw@).path),
        ) {
            Some(i) => x.status == 200 && x.content_type@ == files@[i]@.content_type && match page_index(
                old(cache)@,
                files@[i]@.path,
            ) {
                Some(j) => x.page@ == old(cache)@[j].1 && final(cache)@ == old(cache)@,
                None => (exists|f: FileData| f@ == files@[i]@ && call_ensures(open, (f,), x.page))
                    && final(cache)@ == old(cache)@.push((files@[i]@.path, x.page@)),
            },
            None => x.status == 404 && x.content_type@ == "text/html"@ && x.page@ == encode_utf8(
                "<h1>404 NOT FOUND</h1>"@,
            ) && final(cache)@ == old(cache)@,
        },
{
    let (text, body) = prepare_request(raw);
    let mut req = match parse_request(text.as_str()) {
        Ok(q) => q,
        Err(e) => {
            return Err(e);
        },
    };
    req.body = body;
    assert(req@ == answered_request(raw@));
    let copy = copy_files(files);
    let ghost cv = copy@;
    let ghost ds = file_views(files@);
    let ghost sub = normalize_subdir(req.path@);
    proof {
        lemma_subdir_index(ds, sub);
    }
    let found = FileData::get_by_http_subdir(req.path.clone(), copy);
    let reply = reply_for(&found);
    let page = match found {
        Some(f) => {
            proof {
                let i = subdir_index(ds, sub)->0;
                assert(file_views(cv)[i] == cv[i]@);
                assert(ds[i] == files@[i]@);
                assert(f@ == files@[i]@);
            }
            let key = f.get_path();
            match cache.lookup(&key) {
                Some(p) => p,
                None => {
                    let ghost gf = f;
                    let p = open(f);
                    let kept = vstd::slice::slice_to_vec(p.as_slice());
                    cache.keep(key, kept);
                    assert(gf@ == gf@ && call_ensures(open, (gf,), p));
                    p
                },
            }
        },
        None => not_found_page(),
    };
    let run = runs_php(reply.content_type.as_str(), php_enabled);
    Ok(Exchange { request: req, status: reply.status, content_type: reply.content_type, page, run_php: run })
}

/// Whether a request's headers ask to keep the connection: its `Connection` header is
/// exactly `Keep-Alive: timeout=5, max=1000`.
pub open spec fn keeps_alive(hs: Seq<(Seq<char>, Seq<char>)>) -> bool {
    match key_index(hs, "Connection"@) {
        Some(j) => hs[j].1 == "Keep-Alive: timeout=5, max=1000"@,
        None => false,
    }
}

/// The rest of an exchange: where PHP ran, its output is the page (an error page where
/// it failed, given as `None`) and is HTML; then the response head for that page, and
/// whether the connection stays open. `php_output` counts only where PHP ran.
pub fn finish_exchange(ex: Exchange, php_output: Option<Vec<u8>>) -> (r: (String, Vec<u8>, bool))
    ensures
        ex.run_php ==> match php_output {
            Some(o) => r.1@ == o@,
            None => r.1@ == encode_utf8("<h1>500 Internal Server Error</h1>"@),
        },
        !ex.run_php ==> r.1@ == ex.page@,
        r.0@ == response_head_text(
            ex.status as nat,
            r.1@.len(),
            if ex.run_php {
                "text/html"@
            } else {
                ex.content_type@
            },
            pair_views(ex.request.headers@),
        ),
        r.2 == keeps_alive(pair_views(ex.request.headers@)),
{
    let Exchange { request, status, content_type, page, run_php } = ex;
    let (page, file_type) = if run_php {
        (php_page(php_output), "text/html".to_owned())
    } else {
        (page, content_type)
    };
    let head = build_response_head(status, page.len(), file_type.as_str(), &request.headers);
    let keep = should_keep_alive(get_header(&request.headers, "Connection"));
    (head, page, keep)
}


/// Law: the request of an answered exchange has no headers: the request text is one
/// line, and that line is the request line.
pub proof fn law_answered_request_no_headers(raw: Seq<char>)
    requires
        lines(request_text(raw)).len() > 0,
    ensures
        answered_request(raw).headers.len() == 0,
{
    law_request_text_one_line(raw);
    let t = request_text(raw);
    if t.len() == 0 {
        assert(split_pieces(t, seq!['\n']) == seq![t]) by {
            lemma_split_no_occurrence(t, seq!['\n']);
        }
    }
    law_single_line_no_headers(t);
}

/// Law: a raw request made of a head, `"Content-Length: "`, a length, an empty line
/// and a body, with no NUL, no other `"Content-Length: "` after the head and no other
/// empty line after the first, is answered with exactly that body, as splitting it
/// gives it.
pub proof fn law_answer_carries_body(h: Seq<char>, c: Seq<char>, b: Seq<char>)
    requires
        avoids(h + "Content-Length: "@ + c + "\r\n\r\n"@ + b, '\0'),
        forall|i: int| 0 <= i < h.len() ==> !occurs_at(h + "Content-Length: "@, "Content-Length: "@, i),
        forall|j: int| !occurs_at(c + "\r\n\r\n"@ + b, "Content-Length: "@, j),
        forall|i: int| 0 <= i < c.len() ==> !occurs_at(c + "\r\n\r\n"@, "\r\n\r\n"@, i),
        forall|j: int| !occurs_at(b, "\r\n\r\n"@, j),
    ensures
        request_body(h + "Content-Length: "@ + c + "\r\n\r\n"@ + b) == b,
        answered_request(h + "Content-Length: "@ + c + "\r\n\r\n"@ + b).body == b,
{
    reveal_strlit("Content-Length: ");
    reveal_strlit("\r\n\r\n");
    let cl = "Content-Length: "@;
    let bl = "\r\n\r\n"@;
    let raw = h + cl + c + bl + b;
    let rest = c + bl + b;
    lemma_without_absent(raw, '\0');
    assert(raw =~= h + cl + rest);
    lemma_split_first(h, cl, rest);
    lemma_split_no_occurrence(rest, cl);
    let ps = split_pieces(raw, cl);
    assert(ps =~= seq![h, rest]);
    lemma_split_first(c, bl, b);
    lemma_split_no_occurrence(b, bl);
    assert(split_pieces(rest, bl) =~= seq![c, b]);
    assert(body_of(raw) == Some(b));
}

} // verus!
