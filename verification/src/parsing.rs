//! Reading requests: the path of a `GET` line, the request line and headers, and the
//! content type that a file name implies.

use vstd::prelude::*;
use crate::text::{
    append_chars, chars_of, eq_chars, lemma_split_from_nonempty, replace_all, replace_exec,
    slice_chars, split_exec, split_pieces, string_of, trim, trim_exec, views, lines, lines_exec,
    ws_tokens, ws_tokens_exec, law_trim, is_ws, find_from, find_from_exec, lemma_find_from, lemma_lines_no_newline,
    avoids, lemma_one_line, occurs_at, disjoint_chars, lemma_replace_free, lemma_replace_absent,
};

verus! {

broadcast use vstd::string::group_string_axioms;

/// The content type that the extension `ext` implies; `php` says whether `.php` files
/// are known as PHP scripts.
pub open spec fn mime_type(ext: Seq<char>, php: bool) -> Seq<char> {
    if ext == "html"@ {
        "text/html"@
    } else if php && ext == "php"@ {
        "application/x-httpd-php"@
    } else if ext == "css"@ {
        "text/css"@
    } else if ext == "js"@ {
        "text/javascript"@
    } else if ext == "jpg"@ {
        "image/jpeg"@
    } else if ext == "png"@ {
        "image/png"@
    } else if ext == "gif"@ {
        "image/gif"@
    } else if ext == "ico"@ {
        "image/x-icon"@
    } else if ext == "zip"@ {
        "application/zip"@
    } else if ext == "pdf"@ {
        "application/pdf"@
    } else if ext == "json"@ {
        "application/json"@
    } else if ext == "mp4"@ {
        "video/mp4"@
    } else if ext == "mp3"@ {
        "audio/mpeg"@
    } else {
        "text/html"@
    }
}

/// The part of `path` after its last `'.'`, or all of it where it has none.
pub open spec fn extension(path: Seq<char>) -> Seq<char> {
    split_pieces(path, seq!['.']).last()
}

/// Whether the characters `a` spell the literal `b`.
fn is_lit(a: &Vec<char>, b: &str) -> (r: bool)
    ensures
        r == (a@ == b@),
{
    let bv = chars_of(b);
    eq_chars(a, &bv)
}

/// The content type for the extension `ext`.
pub fn content_type_for(ext: &Vec<char>, php: bool) -> (r: String)
    ensures
        r@ == mime_type(ext@, php),
{
    if is_lit(ext, "html") {
        "text/html".to_owned()
    } else if php && is_lit(ext, "php") {
        "application/x-httpd-php".to_owned()
    } else if is_lit(ext, "css") {
        "text/css".to_owned()
    } else if is_lit(ext, "js") {
        "text/javascript".to_owned()
    } else if is_lit(ext, "jpg") {
        "image/jpeg".to_owned()
    } else if is_lit(ext, "png") {
        "image/png".to_owned()
    } else if is_lit(ext, "gif") {
        "image/gif".to_owned()
    } else if is_lit(ext, "ico") {
        "image/x-icon".to_owned()
    } else if is_lit(ext, "zip") {
        "application/zip".to_owned()
    } else if is_lit(ext, "pdf") {
        "application/pdf".to_owned()
    } else if is_lit(ext, "json") {
        "application/json".to_owned()
    } else if is_lit(ext, "mp4") {
        "video/mp4".to_owned()
    } else if is_lit(ext, "mp3") {
        "audio/mpeg".to_owned()
    } else {
        "text/html".to_owned()
    }
}

/// The part of `path` after its last `'.'`.
pub fn extension_of(path: &str) -> (r: Vec<char>)
    ensures
        r@ == extension(path@),
{
    let pv = chars_of(path);
    let mut dot: Vec<char> = Vec::new();
    dot.push('.');
    assert(dot@ =~= seq!['.']);
    let mut pieces = split_exec(&pv, &dot);
    proof {
        lemma_split_from_nonempty(pv@, dot@, 0);
    }
    let ghost vs = views(pieces@);
    let last = pieces.pop().unwrap();
    assert(last@ == vs.last());
    last
}

/// The content type of a file, from the extension of its path; `.php` files are PHP
/// scripts, and an unknown extension gives `text/html`.
pub fn parse_content_type(path: &str) -> (r: String)
    ensures
        r@ == mime_type(extension(path@), true),
{
    let ext = extension_of(path);
    content_type_for(&ext, true)
}

/// The lines of a request, each with `"%20"` replaced by a space, put together.
pub open spec fn joined_decoded(ls: Seq<Seq<char>>) -> Seq<char>
    decreases ls.len(),
{
    if ls.len() == 0 {
        seq![]
    } else {
        joined_decoded(ls.drop_last()) + replace_all(ls.last(), "%20"@, " "@)
    }
}

/// The text between the first `"GET"` and the next `"GET"` (none where `"GET"` does not
/// occur), cut before its first `"HTTP/1.1"` and trimmed.
pub open spec fn get_target(buffer: Seq<char>) -> Seq<char> {
    let ps = split_pieces(buffer, "GET"@);
    let after = if ps.len() > 1 {
        ps[1]
    } else {
        seq![]
    };
    trim(split_pieces(after, "HTTP/1.1"@)[0])
}

/// The strings of a vector, by their characters.
pub open spec fn string_views(v: Seq<String>) -> Seq<Seq<char>> {
    v.map_values(|x: String| x@)
}

/// The requested path of a `GET` request given as its lines: `"%20"` decoded in each
/// line, the lines put together, and the text after `"GET"` up to `"HTTP/1.1"`, trimmed.
pub fn parse_req_buffer(buf: Vec<String>) -> (r: String)
    ensures
        r@ == get_target(joined_decoded(string_views(buf@))),
{
    let ghost ls = string_views(buf@);
    let pct = chars_of("%20");
    let sp = chars_of(" ");
    let mut buffer: Vec<char> = Vec::new();
    let mut i: usize = 0;
    while i < buf.len()
        invariant
            ls == string_views(buf@),
            i <= buf.len(),
            pct@ == "%20"@,
            sp@ == " "@,
            buffer@ == joined_decoded(ls.take(i as int)),
        decreases buf.len() - i,
    {
        let line = chars_of(buf[i].as_str());
        let decoded = replace_exec(&line, &pct, &sp);
        append_chars(&mut buffer, &decoded);
        assert(ls.take(i + 1).drop_last() =~= ls.take(i as int));
        i = i + 1;
    }
    assert(ls.take(buf.len() as int) =~= ls);
    let target = get_target_exec(&buffer);
    string_of(&target)
}

/// The text after the first `"GET"` up to `"HTTP/1.1"`, trimmed.
pub fn get_target_exec(buffer: &Vec<char>) -> (r: Vec<char>)
    ensures
        r@ == get_target(buffer@),
{
    let get = chars_of("GET");
    let http = chars_of("HTTP/1.1");
    proof {
        reveal_strlit("GET");
        reveal_strlit("HTTP/1.1");
    }
    let ps = split_exec(buffer, &get);
    let after: Vec<char> = if ps.len() > 1 {
        slice_chars(&ps[1], 0, ps[1].len())
    } else {
        Vec::new()
    };
    assert(after@ =~= (if views(ps@).len() > 1 { views(ps@)[1] } else { seq![] }));
    let qs = split_exec(&after, &http);
    proof {
        lemma_split_from_nonempty(after@, http@, 0);
    }
    assert(qs@[0]@ == views(qs@)[0]);
    trim_exec(&qs[0])
}


/// A parsed request. `headers` holds each header name once, in the order in which
/// the names first appeared; a later line with the same name replaces the value.
pub struct HttpReq {
    pub method: String,
    pub path: String,
    pub headers: Vec<(String, String)>,
    pub params: String,
    pub body: String,
}

/// A request as character sequences.
pub struct HttpReqView {
    pub method: Seq<char>,
    pub path: Seq<char>,
    pub headers: Seq<(Seq<char>, Seq<char>)>,
    pub params: Seq<char>,
    pub body: Seq<char>,
}

/// The name-value pairs of a header list, by their characters.
pub open spec fn pair_views(v: Seq<(String, String)>) -> Seq<(Seq<char>, Seq<char>)> {
    v.map_values(|h: (String, String)| (h.0@, h.1@))
}

impl View for HttpReq {
    type V = HttpReqView;

    open spec fn view(&self) -> HttpReqView {
        HttpReqView {
            method: self.method@,
            path: self.path@,
            headers: pair_views(self.headers@),
            params: self.params@,
            body: self.body@,
        }
    }
}

/// Why a request could not be parsed.
pub enum RequestError {
    /// The request has no line at all.
    InvalidData,
}

/// The source of the regular expression that finds the query part of a request line.
pub open spec fn query_pattern() -> Seq<char> {
    seq!['(', '\\', '?', '.', '*', '?', ')', '(', ' ', '|', '$', ')']
}

/// The query part of a line without line feeds: from its first `'?'` up to the next
/// space or the end; none where the line has no `'?'`.
pub open spec fn query_capture(line: Seq<char>) -> Option<Seq<char>> {
    match find_from(line, seq!['?'], 0) {
        None => None,
        Some(i) => {
            let end = match find_from(line, seq![' '], i + 1) {
                Some(j) => j,
                None => line.len() as int,
            };
            Some(line.subrange(i, end))
        },
    }
}

/// Runs the regular expression `pattern` with `regex::Regex::captures` on `haystack` and
/// gives the text of its first group. Of the pattern `(\?.*?)( |$)` on a haystack
/// without line feeds this states what the regex crate matches: the leftmost match
/// starts at the first `'?'`, and the lazy `.*?` stops at the first space after it, or
/// else `$` matches at the end; without a `'?'` there is no match.
#[verifier::external_body]
fn regex_first_group(pattern: &str, haystack: &str) -> (r: Option<String>)
    requires
        pattern@ == query_pattern(),
        forall|m: int| 0 <= m < haystack@.len() ==> haystack@[m] != '\n',
    ensures
        match r {
            Some(g) => query_capture(haystack@) == Some(g@),
            None => query_capture(haystack@) is None,
        },
{
    let re = regex::Regex::new(pattern).unwrap();
    match re.captures(haystack) {
        Some(caps) => Some(caps[1].to_string()),
        None => None,
    }
}

/// The query part of a request line without line feeds, or nothing.
pub fn query_of_line(line: &str) -> (r: String)
    requires
        forall|m: int| 0 <= m < line@.len() ==> line@[m] != '\n',
    ensures
        r@ == match query_capture(line@) {
            Some(q) => q,
            None => seq![],
        },
{
    let pattern = "(\\?.*?)( |$)";
    proof {
        reveal_strlit("(\\?.*?)( |$)");
        assert(pattern@ =~= query_pattern());
    }
    match regex_first_group(pattern, line) {
        Some(g) => g,
        None => String::new(),
    }
}

/// The name and value of a header line: the text before and after its first `':'`,
/// each trimmed; none where the line has no `':'`.
pub open spec fn header_entry(line: Seq<char>) -> Option<(Seq<char>, Seq<char>)> {
    match find_from(line, seq![':'], 0) {
        None => None,
        Some(i) => Some((trim(line.take(i)), trim(line.skip(i + 1)))),
    }
}

/// The position of the first header named `k`.
pub open spec fn key_index(hs: Seq<(Seq<char>, Seq<char>)>, k: Seq<char>) -> Option<int>
    decreases hs.len(),
{
    if hs.len() == 0 {
        None
    } else {
        match key_index(hs.drop_last(), k) {
            Some(j) => Some(j),
            None => if hs.last().0 == k {
                Some(hs.len() - 1)
            } else {
                None
            },
        }
    }
}

/// What `key_index` gives: the least position holding the name `k`.
pub proof fn lemma_key_index(hs: Seq<(Seq<char>, Seq<char>)>, k: Seq<char>)
    ensures
        match key_index(hs, k) {
            Some(j) => 0 <= j < hs.len() && hs[j].0 == k && forall|i: int|
                0 <= i < j ==> hs[i].0 != k,
            None => forall|i: int| 0 <= i < hs.len() ==> hs[i].0 != k,
        },
    decreases hs.len(),
{
    if hs.len() > 0 {
        let init = hs.drop_last();
        lemma_key_index(init, k);
        assert forall|i: int| 0 <= i < init.len() implies init[i] == hs[i] by {}
    }
}

/// The header list after setting `k` to `v`, as `HashMap::insert` does: the value of an
/// existing name is replaced in place, a new name is added at the end.
pub open spec fn insert_header(hs: Seq<(Seq<char>, Seq<char>)>, k: Seq<char>, v: Seq<char>) -> Seq<
    (Seq<char>, Seq<char>),
> {
    match key_index(hs, k) {
        Some(j) => hs.update(j, (k, v)),
        None => hs.push((k, v)),
    }
}

/// The headers that the lines `ls` set, in order.
pub open spec fn headers_from(ls: Seq<Seq<char>>) -> Seq<(Seq<char>, Seq<char>)>
    decreases ls.len(),
{
    if ls.len() == 0 {
        seq![]
    } else {
        let hs = headers_from(ls.drop_last());
        match header_entry(ls.last()) {
            None => hs,
            Some(e) => insert_header(hs, e.0, e.1),
        }
    }
}

/// The request that the text `input` holds, given that it has a line: method and path
/// are the first two words of the first line (empty where missing), the query part of
/// the first line is the parameters and is cut out of the path, and the other lines
/// set the headers.
pub open spec fn request_of(input: Seq<char>) -> HttpReqView {
    let ls = lines(input);
    let first = ls[0];
    let toks = ws_tokens(first);
    let method = if toks.len() > 0 {
        toks[0]
    } else {
        seq![]
    };
    let raw_path = if toks.len() > 1 {
        toks[1]
    } else {
        seq![]
    };
    let params = match query_capture(first) {
        Some(q) => q,
        None => seq![],
    };
    HttpReqView {
        method,
        path: replace_all(raw_path, params, seq![]),
        headers: headers_from(ls.skip(1)),
        params,
        body: seq![],
    }
}

/// Sets header `k` to `v`, as `insert_header` says.
fn set_header(hs: &mut Vec<(String, String)>, k: String, v: String)
    ensures
        pair_views(final(hs)@) == insert_header(pair_views(old(hs)@), k@, v@),
{
    let ghost pv = pair_views(hs@);
    proof {
        lemma_key_index(pv, k@);
    }
    let mut j: usize = 0;
    while j < hs.len()
        invariant
            pv == pair_views(hs@),
            pv == pair_views(old(hs)@),
            j <= hs.len(),
            forall|i: int| 0 <= i < j ==> pv[i].0 != k@,
        decreases hs.len() - j,
    {
        if hs[j].0 == k {
            assert(pv[j as int].0 == k@);
            proof {
                lemma_key_index(pv, k@);
                match key_index(pv, k@) {
                    Some(m) => {
                        if m < j as int {
                            assert(pv[m].0 != k@);
                        }
                        if m > j as int {
                            assert(pv[j as int].0 != k@);
                        }
                    },
                    None => {
                        assert(pv[j as int].0 != k@);
                    },
                }
            }
            assert(key_index(pv, k@) == Some(j as int));
            hs.set(j, (k, v));
            assert(pair_views(hs@) =~= pv.update(j as int, (k@, v@)));
            return;
        }
        j = j + 1;
    }
    proof {
        lemma_key_index(pv, k@);
    }
    assert(key_index(pv, k@) is None);
    let ghost kv = k@;
    let ghost vv = v@;
    hs.push((k, v));
    assert(pair_views(hs@) =~= pv.push((kv, vv)));
}

/// Parses the request line and headers of `input`. Fails exactly where `input` has no
/// line; the body is left empty.
pub fn parse_request(input: &str) -> (r: Result<HttpReq, RequestError>)
    ensures
        r is Err <==> lines(input@).len() == 0,
        r matches Ok(req) ==> req@ == request_of(input@),
{
    let iv = chars_of(input);
    let ls = lines_exec(&iv);
    if ls.len() == 0 {
        return Err(RequestError::InvalidData);
    }
    let ghost lv = views(ls@);
    proof {
        lemma_lines_no_newline(input@);
        assert(lv[0] == ls@[0]@);
    }
    let first_line = string_of(&ls[0]);
    let toks = ws_tokens_exec(&ls[0]);
    let method: String = if toks.len() > 0 {
        string_of(&toks[0])
    } else {
        String::new()
    };
    let raw_path: Vec<char> = if toks.len() > 1 {
        slice_chars(&toks[1], 0, toks[1].len())
    } else {
        Vec::new()
    };
    assert(method@ == (if ws_tokens(lv[0]).len() > 0 { ws_tokens(lv[0])[0] } else { seq![] }));
    assert(raw_path@ =~= (if ws_tokens(lv[0]).len() > 1 { ws_tokens(lv[0])[1] } else { seq![] }));
    let params = query_of_line(first_line.as_str());
    let pv = chars_of(params.as_str());
    let empty: Vec<char> = Vec::new();
    let path_chars = replace_exec(&raw_path, &pv, &empty);
    let path = string_of(&path_chars);
    let mut headers: Vec<(String, String)> = Vec::new();
    let mut colon: Vec<char> = Vec::new();
    colon.push(':');
    assert(colon@ =~= seq![':']);
    let mut i: usize = 1;
    while i < ls.len()
        invariant
            1 <= i <= ls.len(),
            lv == views(ls@),
            colon@ == seq![':'],
            pair_views(headers@) == headers_from(lv.skip(1).take(i - 1)),
        decreases ls.len() - i,
    {
        let line = &ls[i];
        assert(lv.skip(1).take(i as int).drop_last() =~= lv.skip(1).take(i - 1));
        assert(lv.skip(1).take(i as int).last() == line@);
        match find_from_exec(line, &colon, 0) {
            Some(c) => {
                proof {
                    lemma_find_from(line@, colon@, 0);
                }
                let key_chars = slice_chars(line, 0, c);
                let val_chars = slice_chars(line, c + 1, line.len());
                assert(key_chars@ =~= line@.take(c as int));
                assert(val_chars@ =~= line@.skip(c + 1));
                let key = string_of(&trim_exec(&key_chars));
                let value = string_of(&trim_exec(&val_chars));
                set_header(&mut headers, key, value);
            },
            None => {},
        }
        i = i + 1;
    }
    assert(lv.skip(1).take(ls.len() - 1) =~= lv.skip(1));
    Ok(HttpReq { method, path, headers, params, body: String::new() })
}


/// No name occurs twice in a header list.
pub open spec fn names_unique(hs: Seq<(Seq<char>, Seq<char>)>) -> bool {
    forall|i: int, j: int| 0 <= i < j < hs.len() ==> hs[i].0 != hs[j].0
}

/// Setting a header keeps the names unique, and afterwards the name has the value set.
pub proof fn lemma_insert_header(hs: Seq<(Seq<char>, Seq<char>)>, k: Seq<char>, v: Seq<char>)
    requires
        names_unique(hs),
    ensures
        names_unique(insert_header(hs, k, v)),
        match key_index(insert_header(hs, k, v), k) {
            Some(j) => insert_header(hs, k, v)[j].1 == v,
            None => false,
        },
{
    lemma_key_index(hs, k);
    let r = insert_header(hs, k, v);
    lemma_key_index(r, k);
    match key_index(hs, k) {
        Some(j) => {
            assert forall|a: int, b: int| 0 <= a < b < r.len() implies r[a].0 != r[b].0 by {
                assert(r[a].0 == hs[a].0);
                assert(r[b].0 == hs[b].0);
            }
            match key_index(r, k) {
                Some(m) => {
                    if m < j {
                        assert(r[m].0 == hs[m].0);
                    }
                    if m > j {
                        assert(r[j].0 == k);
                    }
                },
                None => {
                    assert(r[j].0 == k);
                },
            }
        },
        None => {
            assert forall|a: int, b: int| 0 <= a < b < r.len() implies r[a].0 != r[b].0 by {
                if b < hs.len() {
                    assert(r[a].0 == hs[a].0);
                    assert(r[b].0 == hs[b].0);
                } else {
                    assert(r[a].0 == hs[a].0);
                }
            }
            match key_index(r, k) {
                Some(m) => {
                    if m < hs.len() {
                        assert(r[m].0 == hs[m].0);
                    }
                },
                None => {
                    assert(r[hs.len() as int].0 == k);
                },
            }
        },
    }
}

/// Law: the headers of a request never name the same header twice.
pub proof fn law_headers_unique(ls: Seq<Seq<char>>)
    ensures
        names_unique(headers_from(ls)),
    decreases ls.len(),
{
    if ls.len() > 0 {
        law_headers_unique(ls.drop_last());
        match header_entry(ls.last()) {
            None => {},
            Some(e) => {
                lemma_insert_header(headers_from(ls.drop_last()), e.0, e.1);
            },
        }
    }
}

/// Law: a header line sets its name to its value, whatever earlier lines set it to.
pub proof fn law_header_last_wins(ls: Seq<Seq<char>>, l: Seq<char>)
    requires
        header_entry(l) is Some,
    ensures
        match key_index(headers_from(ls.push(l)), (header_entry(l)->0).0) {
            Some(j) => headers_from(ls.push(l))[j].1 == (header_entry(l)->0).1,
            None => false,
        },
{
    let all = ls.push(l);
    assert(all.drop_last() =~= ls);
    assert(all.last() == l);
    law_headers_unique(ls);
    let e = header_entry(l)->0;
    lemma_insert_header(headers_from(ls), e.0, e.1);
}

impl HttpReq {
    /// The body as UTF-8 bytes.
    pub fn body_to_u8(&self) -> (r: Vec<u8>)
        ensures
            r@ == vstd::utf8::encode_utf8(self.body@),
    {
        vstd::slice::slice_to_vec(self.body.as_str().as_bytes())
    }
}


/// Law: the requested path of a `GET` request neither starts nor ends with white space.
pub proof fn law_target_trimmed(buffer: Seq<char>)
    ensures
        get_target(buffer).len() > 0 ==> !is_ws(get_target(buffer)[0]) && !is_ws(
            get_target(buffer).last(),
        ),
{
    let ps = split_pieces(buffer, "GET"@);
    let after = if ps.len() > 1 {
        ps[1]
    } else {
        seq![]
    };
    law_trim(split_pieces(after, "HTTP/1.1"@)[0]);
}


/// Law: a request that is a single line has no headers, whatever `':'` it holds; the
/// request line is never read as a header.
pub proof fn law_single_line_no_headers(input: Seq<char>)
    requires
        input.len() > 0,
        avoids(input, '\n'),
    ensures
        request_of(input).headers.len() == 0,
{
    lemma_one_line(input);
    assert(lines(input).skip(1) =~= Seq::<Seq<char>>::empty());
}

/// Law: the headers of a request depend only on its lines after the first: two
/// requests whose later lines agree have the same headers, whatever their first lines.
pub proof fn law_headers_from_later_lines(a: Seq<char>, b: Seq<char>)
    requires
        lines(a).len() > 0,
        lines(b).len() > 0,
        lines(a).skip(1) == lines(b).skip(1),
    ensures
        request_of(a).headers == request_of(b).headers,
{
}

/// Law: decoding a line leaves no `"%20"` in it: every occurrence is decoded, and a
/// space never forms a new one.
pub proof fn law_line_fully_decoded(l: Seq<char>)
    ensures
        forall|j: int| !occurs_at(joined_decoded(seq![l]), "%20"@, j),
{
    reveal_strlit("%20");
    reveal_strlit(" ");
    assert(seq![l].drop_last() =~= Seq::<Seq<char>>::empty());
    assert(joined_decoded(seq![l].drop_last()) == Seq::<char>::empty());
    assert(seq![l].last() == l);
    assert(joined_decoded(seq![l]) =~= replace_all(l, "%20"@, " "@));
    assert(disjoint_chars(" "@, "%20"@));
    lemma_replace_free(l, "%20"@, " "@);
}

/// Law: decoding a decoded line again changes nothing.
pub proof fn law_decoding_settles(l: Seq<char>)
    ensures
        joined_decoded(seq![joined_decoded(seq![l])]) == joined_decoded(seq![l]),
{
    law_line_fully_decoded(l);
    let d = joined_decoded(seq![l]);
    reveal_strlit("%20");
    assert(seq![d].drop_last() =~= Seq::<Seq<char>>::empty());
    assert(joined_decoded(seq![d].drop_last()) == Seq::<char>::empty());
    assert(seq![d].last() == d);
    assert(joined_decoded(seq![d]) =~= replace_all(d, "%20"@, " "@));
    lemma_replace_absent(d, "%20"@, " "@);
}

/// Law: whether PHP is known changes only the content type of `.php` files.
pub proof fn law_php_changes_only_php(ext: Seq<char>)
    requires
        ext != "php"@,
    ensures
        mime_type(ext, false) == mime_type(ext, true),
{
}

/// Law: `.jpg` files are JPEG images, whether PHP is known or not.
pub proof fn law_jpg_is_jpeg(php: bool)
    ensures
        mime_type("jpg"@, php) == "image/jpeg"@,
{
    reveal_strlit("jpg");
    reveal_strlit("html");
    reveal_strlit("php");
    reveal_strlit("css");
    reveal_strlit("js");
    assert("jpg"@.len() == 3 && "html"@.len() == 4);
    assert("jpg"@[0] == 'j' && "php"@[0] == 'p' && "css"@[0] == 'c');
    assert("js"@.len() == 2);
    assert("jpg"@ != "html"@);
    assert("jpg"@ != "php"@);
    assert("jpg"@ != "css"@);
    assert("jpg"@ != "js"@);
}

} // verus!
