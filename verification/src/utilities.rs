//! Files under the document root, the directory listing page, and the bytes of a
//! response.

use vstd::prelude::*;
use vstd::utf8::{encode_scalar, encode_utf8};
use crate::parsing::{content_type_for, extension, extension_of, mime_type};
use crate::text::{
    append_chars, chars_of, decimal, lemma_split_from_nonempty, push_decimal,
    replace_all, replace_exec, slice_chars, split_exec, split_pieces, string_of, trim, trim_exec,
    views,
};

verus! {

broadcast use vstd::string::group_string_axioms;

/// A response, with its header lines written out.
pub struct Response<'a> {
    pub http_version: &'a str,
    pub status_code: u32,
    pub status_text: &'a str,
    pub headers: Vec<&'a str>,
    /// The body, as bytes, so that it may hold more than text.
    pub body: Vec<u8>,
}

/// The texts of a sequence of string slices.
pub open spec fn str_views(v: Seq<&str>) -> Seq<Seq<char>> {
    v.map_values(|x: &str| x@)
}

/// The header lines, each followed by `"\r\n"`.
pub open spec fn header_lines(hs: Seq<Seq<char>>) -> Seq<char>
    decreases hs.len(),
{
    if hs.len() == 0 {
        seq![]
    } else {
        header_lines(hs.drop_last()) + hs.last() + seq!['\r', '\n']
    }
}

/// The text of a response before its body: the version, the status code and text, the
/// header lines and an empty line.
pub open spec fn response_head(
    version: Seq<char>,
    code: nat,
    text: Seq<char>,
    hs: Seq<Seq<char>>,
) -> Seq<char> {
    version + decimal(code) + seq![' '] + text + seq!['\r', '\n'] + header_lines(hs) + seq![
        '\r',
        '\n',
    ]
}

impl<'a> Response<'a> {
    /// The response as bytes: its head in UTF-8, then its body.
    pub fn as_bytes(&self) -> (r: Vec<u8>)
        ensures
            r@ == encode_utf8(
                response_head(
                    self.http_version@,
                    self.status_code as nat,
                    self.status_text@,
                    str_views(self.headers@),
                ),
            ) + self.body@,
    {
        let mut head = chars_of(self.http_version);
        push_decimal(&mut head, self.status_code as u64);
        head.push(' ');
        let text = chars_of(self.status_text);
        append_chars(&mut head, &text);
        head.push('\r');
        head.push('\n');
        let ghost hs = str_views(self.headers@);
        let ghost start = head@;
        let mut i: usize = 0;
        while i < self.headers.len()
            invariant
                hs == str_views(self.headers@),
                i <= self.headers.len(),
                head@ == start + header_lines(hs.take(i as int)),
            decreases self.headers.len() - i,
        {
            let h = chars_of(self.headers[i]);
            append_chars(&mut head, &h);
            head.push('\r');
            head.push('\n');
            assert(hs.take(i + 1).drop_last() =~= hs.take(i as int));
            i = i + 1;
            assert(head@ =~= start + header_lines(hs.take(i as int)));
        }
        assert(hs.take(self.headers.len() as int) =~= hs);
        head.push('\r');
        head.push('\n');
        assert(head@ =~= response_head(
            self.http_version@,
            self.status_code as nat,
            self.status_text@,
            hs,
        ));
        let head_string = string_of(&head);
        let mut res = vstd::slice::slice_to_vec(head_string.as_str().as_bytes());
        let ghost prefix = res@;
        let mut k: usize = 0;
        while k < self.body.len()
            invariant
                k <= self.body.len(),
                res@ == prefix + self.body@.take(k as int),
            decreases self.body.len() - k,
        {
            res.push(self.body[k]);
            k = k + 1;
            assert(res@ =~= prefix + self.body@.take(k as int));
        }
        assert(self.body@.take(self.body.len() as int) =~= self.body@);
        res
    }
}

/// A request with its header lines kept as text; no function reads it yet.
pub struct Request {
    http_version: String,
    method: String,
    path: String,
    headers: Vec<String>,
    body: String,
}

/// A file or directory under the document root.
#[derive(Clone, Debug)]
pub struct FileData {
    path: String,
    name: String,
    http_subdir: String,
    content_type: String,
    is_dir: bool,
}

/// A file entry as character sequences.
pub struct FileDataView {
    /// Where the file is on disk.
    pub path: Seq<char>,
    /// Its name, as the listing shows it.
    pub name: Seq<char>,
    /// The URL path under which it is served.
    pub http_subdir: Seq<char>,
    /// The content type it is served with.
    pub content_type: Seq<char>,
    /// Whether it is a directory.
    pub is_dir: bool,
}

impl View for FileData {
    type V = FileDataView;

    closed spec fn view(&self) -> FileDataView {
        FileDataView {
            path: self.path@,
            name: self.name@,
            http_subdir: self.http_subdir@,
            content_type: self.content_type@,
            is_dir: self.is_dir,
        }
    }
}

/// The entries of a file list.
pub open spec fn file_views(v: Seq<FileData>) -> Seq<FileDataView> {
    v.map_values(|f: FileData| f@)
}

/// A request path without one trailing `'/'`, unless the path is just `"/"`.
pub open spec fn normalize_subdir(s: Seq<char>) -> Seq<char> {
    if s.len() > 1 && s.last() == '/' {
        s.drop_last()
    } else {
        s
    }
}

/// The position of the first entry served under `sub`.
pub open spec fn subdir_index(ds: Seq<FileDataView>, sub: Seq<char>) -> Option<int>
    decreases ds.len(),
{
    if ds.len() == 0 {
        None
    } else {
        match subdir_index(ds.drop_last(), sub) {
            Some(j) => Some(j),
            None => if ds.last().http_subdir == sub {
                Some(ds.len() - 1)
            } else {
                None
            },
        }
    }
}

/// What `subdir_index` gives: the least position of an entry served under `sub`.
pub proof fn lemma_subdir_index(ds: Seq<FileDataView>, sub: Seq<char>)
    ensures
        match subdir_index(ds, sub) {
            Some(j) => 0 <= j < ds.len() && ds[j].http_subdir == sub && forall|i: int|
                0 <= i < j ==> ds[i].http_subdir != sub,
            None => forall|i: int| 0 <= i < ds.len() ==> ds[i].http_subdir != sub,
        },
    decreases ds.len(),
{
    if ds.len() > 0 {
        let init = ds.drop_last();
        lemma_subdir_index(init, sub);
        assert forall|i: int| 0 <= i < init.len() implies init[i] == ds[i] by {}
    }
}

/// The position of the first entry named `name`.
pub open spec fn name_index(ds: Seq<FileDataView>, name: Seq<char>) -> Option<int>
    decreases ds.len(),
{
    if ds.len() == 0 {
        None
    } else {
        match name_index(ds.drop_last(), name) {
            Some(j) => Some(j),
            None => if ds.last().name == name {
                Some(ds.len() - 1)
            } else {
                None
            },
        }
    }
}

/// What `name_index` gives: the least position of an entry named `name`.
pub proof fn lemma_name_index(ds: Seq<FileDataView>, name: Seq<char>)
    ensures
        match name_index(ds, name) {
            Some(j) => 0 <= j < ds.len() && ds[j].name == name && forall|i: int|
                0 <= i < j ==> ds[i].name != name,
            None => forall|i: int| 0 <= i < ds.len() ==> ds[i].name != name,
        },
    decreases ds.len(),
{
    if ds.len() > 0 {
        let init = ds.drop_last();
        lemma_name_index(init, name);
        assert forall|i: int| 0 <= i < init.len() implies init[i] == ds[i] by {}
    }
}

impl FileData {
    /// Where the file is on disk.
    pub fn get_path(&self) -> (r: String)
        ensures
            r@ == self@.path,
    {
        self.path.clone()
    }

    /// The name of the file.
    pub fn get_name(&self) -> (r: String)
        ensures
            r@ == self@.name,
    {
        self.name.clone()
    }

    /// The URL path under which the file is served.
    pub fn get_http_subdir(&self) -> (r: String)
        ensures
            r@ == self@.http_subdir,
    {
        self.http_subdir.clone()
    }

    /// The content type the file is served with.
    pub fn get_content_type(&self) -> (r: String)
        ensures
            r@ == self@.content_type,
    {
        self.content_type.clone()
    }

    /// Whether the entry is a directory.
    pub fn is_dir(&self) -> (r: bool)
        ensures
            r == self@.is_dir,
    {
        self.is_dir
    }

    /// A copy of the entry.
    pub fn duplicate(&self) -> (r: FileData)
        ensures
            r@ == self@,
    {
        FileData {
            path: self.path.clone(),
            name: self.name.clone(),
            http_subdir: self.http_subdir.clone(),
            content_type: self.content_type.clone(),
            is_dir: self.is_dir,
        }
    }

    /// The first entry served under the request path `subdir`, where one trailing `'/'`
    /// of `subdir` does not count unless `subdir` is `"/"`.
    pub fn get_by_http_subdir(subdir: String, dirs: Vec<FileData>) -> (r: Option<FileData>)
        ensures
            match subdir_index(file_views(dirs@), normalize_subdir(subdir@)) {
                Some(i) => r is Some && r->0@ == dirs@[i]@,
                None => r is None,
            },
    {
        let mut sv = chars_of(subdir.as_str());
        if sv.len() > 1 && sv[sv.len() - 1] == '/' {
            sv.pop();
        }
        assert(sv@ =~= normalize_subdir(subdir@));
        let sub = string_of(&sv);
        let ghost ds = file_views(dirs@);
        let ghost orig = dirs@;
        let mut list = dirs;
        let mut i: usize = 0;
        while i < list.len()
            invariant
                ds == file_views(list@),
                list@ == orig,
                orig == dirs@,
                sub@ == normalize_subdir(subdir@),
                i <= list.len(),
                forall|k: int| 0 <= k < i ==> ds[k].http_subdir != sub@,
            decreases list.len() - i,
        {
            if list[i].http_subdir == sub {
                proof {
                    lemma_subdir_index(ds, sub@);
                    assert(ds[i as int].http_subdir == sub@);
                    match subdir_index(ds, sub@) {
                        Some(m) => {
                            if m < i as int {
                                assert(ds[m].http_subdir != sub@);
                            }
                            if m > i as int {
                                assert(ds[i as int].http_subdir != sub@);
                            }
                        },
                        None => {
                            assert(ds[i as int].http_subdir != sub@);
                        },
                    }
                }
                assert(subdir_index(ds, sub@) == Some(i as int));
                let ghost before = list@;
                let found = list.swap_remove(i);
                assert(found == before[i as int]);
                assert(ds[i as int] == found@);
                assert(orig[i as int]@ == found@);
                return Some(found);
            }
            i = i + 1;
        }
        proof {
            lemma_subdir_index(ds, sub@);
        }
        None
    }

    /// A copy of each entry of the list, in order.
    #[allow(non_snake_case)]
    pub fn cloneVec(vec: Vec<FileData>) -> (r: Vec<FileData>)
        ensures
            file_views(r@) == file_views(vec@),
    {
        let mut out: Vec<FileData> = Vec::new();
        let mut i: usize = 0;
        while i < vec.len()
            invariant
                i <= vec.len(),
                file_views(out@) == file_views(vec@).take(i as int),
            decreases vec.len() - i,
        {
            let c = vec[i].duplicate();
            let ghost old_out = out@;
            let ghost cv = c@;
            out.push(c);
            assert(file_views(out@) =~= file_views(old_out).push(cv));
            assert(file_views(vec@).take(i + 1) =~= file_views(vec@).take(i as int).push(vec@[i as int]@));
            assert(file_views(out@) =~= file_views(vec@).take(i + 1));
            i = i + 1;
        }
        assert(file_views(vec@).take(vec.len() as int) =~= file_views(vec@));
        out
    }
}


/// A directory entry as the directory walk reports it.
pub struct EntryInfo {
    /// The entry's path, as the walk formed it from the directory's path.
    pub path: String,
    /// The entry's file name.
    pub file_name: String,
    /// Whether the entry is a directory.
    pub is_dir: bool,
}

/// `s` without the characters that make up its first `n` bytes in UTF-8; none where
/// `n` does not end at a character boundary within `s`.
pub open spec fn cut_bytes(s: Seq<char>, n: int) -> Option<Seq<char>>
    decreases s.len(),
{
    if n == 0 {
        Some(s)
    } else if n < 0 || s.len() == 0 {
        None
    } else {
        cut_bytes(s.drop_first(), n - encode_scalar(s[0] as u32).len())
    }
}

/// The number of bytes that `c` takes in UTF-8.
fn utf8_width(c: char) -> (w: usize)
    ensures
        w == encode_scalar(c as u32).len(),
        1 <= w <= 4,
{
    proof {
        vstd::utf8::char_is_scalar(c);
    }
    let u = c as u32;
    if u <= 0x7f {
        1
    } else if u <= 0x7ff {
        2
    } else if u <= 0xffff {
        3
    } else {
        4
    }
}

/// The characters of `s` after its first `n` bytes in UTF-8.
fn cut_bytes_exec(s: &Vec<char>, n: usize) -> (r: Vec<char>)
    requires
        cut_bytes(s@, n as int) is Some,
    ensures
        r@ == cut_bytes(s@, n as int)->0,
{
    let mut i: usize = 0;
    let mut left: usize = n;
    assert(s@.skip(0) =~= s@);
    while left > 0
        invariant
            i <= s.len(),
            left <= n,
            cut_bytes(s@, n as int) == cut_bytes(s@.skip(i as int), left as int),
            cut_bytes(s@, n as int) is Some,
        decreases left,
    {
        assert(s@.skip(i as int).len() > 0);
        let w = utf8_width(s[i]);
        assert(s@.skip(i as int).drop_first() =~= s@.skip(i + 1));
        assert(w <= left) by {
            if w > left {
                assert(cut_bytes(s@.skip(i + 1), left - w) is None);
            }
        }
        left = left - w;
        i = i + 1;
    }
    slice_chars(s, i, s.len())
}

/// The entry that a directory walk gives for `e`: its name with spaces written as
/// backslashes, its URL path its path without the first five bytes, and its content
/// type from its extension, where `.php` is not special.
pub open spec fn entry_view(e: EntryInfo) -> FileDataView {
    FileDataView {
        path: e.path@,
        name: replace_all(replace_all(e.file_name@, "'"@, "'"@), " "@, "\\"@),
        http_subdir: cut_bytes(e.path@, 5)->0,
        content_type: mime_type(extension(e.path@), false),
        is_dir: e.is_dir,
    }
}

/// Whether each entry's path has a character boundary after its fifth byte.
pub open spec fn entries_cuttable(es: Seq<EntryInfo>) -> bool {
    forall|k: int| 0 <= k < es.len() ==> cut_bytes(#[trigger] es[k].path@, 5) is Some
}

/// The entries of a directory walk, as file entries.
pub open spec fn entry_views(es: Seq<EntryInfo>) -> Seq<FileDataView> {
    es.map_values(|e: EntryInfo| entry_view(e))
}

/// The content type of a file from the extension of its path, where `.php` is not special.
fn parse_content_type(path: &str) -> (r: String)
    ensures
        r@ == mime_type(extension(path@), false),
{
    let ext = extension_of(path);
    content_type_for(&ext, false)
}

/// The file entry for one directory entry.
pub fn file_data_of_entry(e: &EntryInfo) -> (r: FileData)
    requires
        cut_bytes(e.path@, 5) is Some,
    ensures
        r@ == entry_view(*e),
{
    let fname = e.file_name.as_str();
    let step = crate::text::replace_str(fname, "'", "'");
    let name = crate::text::replace_str(step.as_str(), " ", "\\");
    let pv = chars_of(e.path.as_str());
    let sub = cut_bytes_exec(&pv, 5);
    FileData {
        path: e.path.clone(),
        name,
        http_subdir: string_of(&sub),
        content_type: parse_content_type(e.path.as_str()),
        is_dir: e.is_dir,
    }
}

/// Appends to `files` the file entry of each directory entry, in order.
pub fn process_directory(entries: &Vec<EntryInfo>, files: &mut Vec<FileData>)
    requires
        entries_cuttable(entries@),
    ensures
        file_views(final(files)@) == file_views(old(files)@) + entry_views(entries@),
{
    let mut i: usize = 0;
    while i < entries.len()
        invariant
            entries_cuttable(entries@),
            i <= entries.len(),
            file_views(files@) == file_views(old(files)@) + entry_views(entries@).take(i as int),
        decreases entries.len() - i,
    {
        let f = file_data_of_entry(&entries[i]);
        let ghost before = files@;
        let ghost fv = f@;
        files.push(f);
        assert(file_views(files@) =~= file_views(before).push(fv));
        assert(entry_views(entries@).take(i + 1) =~= entry_views(entries@).take(i as int).push(
            entry_view(entries@[i as int]),
        ));
        i = i + 1;
    }
    assert(entry_views(entries@).take(entries.len() as int) =~= entry_views(entries@));
}

/// The file entries of the entries of one directory.
pub fn look_for_files_in_this_dir(entries: Vec<EntryInfo>) -> (r: Vec<FileData>)
    requires
        entries_cuttable(entries@),
    ensures
        file_views(r@) == entry_views(entries@),
{
    let mut files: Vec<FileData> = Vec::new();
    process_directory(&entries, &mut files);
    assert(file_views(files@) =~= entry_views(entries@));
    files
}

/// The entry of the document root itself.
pub open spec fn root_view() -> FileDataView {
    FileDataView {
        path: "./web"@,
        name: "web"@,
        http_subdir: "/"@,
        content_type: "text/html"@,
        is_dir: true,
    }
}

/// The document root's entry, then the file entries of everything under it.
pub fn look_for_dirs_and_subdirs(entries: Vec<EntryInfo>) -> (r: Vec<FileData>)
    requires
        entries_cuttable(entries@),
    ensures
        file_views(r@) == seq![root_view()] + entry_views(entries@),
{
    let mut files: Vec<FileData> = Vec::new();
    files.push(
        FileData {
            path: "./web".to_owned(),
            name: "web".to_owned(),
            http_subdir: "/".to_owned(),
            content_type: "text/html".to_owned(),
            is_dir: true,
        },
    );
    assert(file_views(files@) =~= seq![root_view()]);
    process_directory(&entries, &mut files);
    files
}

/// The listing page items for the entries `ds`.
pub open spec fn listing_items(ds: Seq<FileDataView>) -> Seq<char>
    decreases ds.len(),
{
    if ds.len() == 0 {
        seq![]
    } else {
        listing_items(ds.drop_last()) + "<ul>"@ + "<li>"@ + "<a href=\""@ + ds.last().http_subdir
            + "\">"@ + ds.last().name + "</a>"@ + "</li>"@ + "</ul>"@
    }
}

/// The listing page of a directory whose entries are `ds`.
pub open spec fn listing_page(ds: Seq<FileDataView>) -> Seq<char> {
    "<h1>Directory</h1>"@ + listing_items(ds) + "</ul>"@
}

/// Appends the characters of `t` to `out`.
fn push_str(out: &mut Vec<char>, t: &str)
    ensures
        final(out)@ == old(out)@ + t@,
{
    let tv = chars_of(t);
    append_chars(out, &tv);
}

/// The listing page of a directory whose entries are `listing`: a heading, then a link
/// to each entry, each in a list of its own.
pub fn process_if_path_is_dir(listing: Vec<FileData>) -> (r: String)
    ensures
        r@ == listing_page(file_views(listing@)),
{
    let ghost ds = file_views(listing@);
    let mut out: Vec<char> = Vec::new();
    push_str(&mut out, "<h1>Directory</h1>");
    let ghost start = out@;
    let mut i: usize = 0;
    while i < listing.len()
        invariant
            ds == file_views(listing@),
            i <= listing.len(),
            out@ == start + listing_items(ds.take(i as int)),
        decreases listing.len() - i,
    {
        let d = &listing[i];
        push_str(&mut out, "<ul>");
        push_str(&mut out, "<li>");
        push_str(&mut out, "<a href=\"");
        let sub = chars_of(d.http_subdir.as_str());
        append_chars(&mut out, &sub);
        push_str(&mut out, "\">");
        let name = chars_of(d.name.as_str());
        append_chars(&mut out, &name);
        push_str(&mut out, "</a>");
        push_str(&mut out, "</li>");
        push_str(&mut out, "</ul>");
        assert(ds.take(i + 1).drop_last() =~= ds.take(i as int));
        assert(ds.take(i + 1).last() == d@);
        i = i + 1;
        assert(out@ =~= start + listing_items(ds.take(i as int)));
    }
    assert(ds.take(listing.len() as int) =~= ds);
    push_str(&mut out, "</ul>");
    assert(out@ =~= listing_page(ds));
    string_of(&out)
}

/// The listing page of the directory `path`, with the entries that `list_dir` gives for
/// the directory's path; nothing else of `path` counts.
pub fn directory_page<F: FnOnce(String) -> Vec<FileData>>(path: &FileData, list_dir: F) -> (r:
    String)
    requires
        forall|s: String| s@ == path@.path ==> call_requires(list_dir, (s,)),
    ensures
        exists|s: String, l: Vec<FileData>|
            s@ == path@.path && call_ensures(list_dir, (s,), l) && r@ == listing_page(
                file_views(l@),
            ),
{
    let p = path.get_path();
    let ghost gp = p;
    let listing = list_dir(p);
    let ghost gl = listing;
    let page = process_if_path_is_dir(listing);
    assert(gp@ == path@.path && call_ensures(list_dir, (gp,), gl) && page@ == listing_page(
        file_views(gl@),
    ));
    page
}

/// What serving an entry takes: reading a file at a path, or listing a directory.
pub enum OpenTarget {
    /// Read the file at this path.
    ReadFile(String),
    /// Show the directory's listing page.
    Listing,
}

/// Whether the directory's `index.html` stands in for it and is itself a file, or
/// there is none; an `index.html` that is a directory would be opened again forever.
pub open spec fn index_is_file(files: Seq<FileDataView>) -> bool {
    match name_index(files, "index.html"@) {
        Some(j) => !files[j].is_dir,
        None => true,
    }
}

/// What serving `path` takes: a file is read; a directory is served by the first entry
/// of `files` named `index.html` where there is one, else by its listing page.
pub fn open_target(path: &FileData, files: &Vec<FileData>) -> (r: OpenTarget)
    requires
        path@.is_dir ==> index_is_file(file_views(files@)),
    ensures
        !path@.is_dir ==> (r matches OpenTarget::ReadFile(p) && p@ == path@.path),
        path@.is_dir ==> match name_index(file_views(files@), "index.html"@) {
            Some(j) => r matches OpenTarget::ReadFile(p) && p@ == files@[j]@.path,
            None => r is Listing,
        },
{
    if !path.is_dir {
        return OpenTarget::ReadFile(path.path.clone());
    }
    let ghost ds = file_views(files@);
    let index = "index.html".to_owned();
    let mut i: usize = 0;
    while i < files.len()
        invariant
            ds == file_views(files@),
            path@.is_dir,
            index@ == "index.html"@,
            i <= files.len(),
            forall|k: int| 0 <= k < i ==> ds[k].name != "index.html"@,
        decreases files.len() - i,
    {
        if files[i].name == index {
            proof {
                lemma_name_index(ds, "index.html"@);
                match name_index(ds, "index.html"@) {
                    Some(m) => {
                        if m < i as int {
                            assert(ds[m].name != "index.html"@);
                        }
                        if m > i as int {
                            assert(ds[i as int].name != "index.html"@);
                        }
                    },
                    None => {
                        assert(ds[i as int].name != "index.html"@);
                    },
                }
            }
            return OpenTarget::ReadFile(files[i].path.clone());
        }
        i = i + 1;
    }
    proof {
        lemma_name_index(ds, "index.html"@);
    }
    OpenTarget::Listing
}

/// The lines put together.
pub open spec fn joined(ls: Seq<Seq<char>>) -> Seq<char>
    decreases ls.len(),
{
    if ls.len() == 0 {
        seq![]
    } else {
        joined(ls.drop_last()) + ls.last()
    }
}

/// The requested path of a request that holds `"GET"`, decoded last: the text
/// between the first `"GET"` and the next `"GET"`, cut before its first `"HTTP/1.1"`,
/// trimmed, with `"%20"` replaced by a space.
pub open spec fn target_decoded_last(buffer: Seq<char>) -> Seq<char> {
    let after = split_pieces(buffer, "GET"@)[1];
    replace_all(trim(split_pieces(after, "HTTP/1.1"@)[0]), "%20"@, " "@)
}

/// The requested path of a `GET` request given as its lines, decoded last: the
/// lines put together, the text after `"GET"` up to `"HTTP/1.1"`, trimmed, and then
/// `"%20"` decoded.
pub fn parse_req_buffer(buf: Vec<String>) -> (r: String)
    requires
        split_pieces(joined(crate::parsing::string_views(buf@)), "GET"@).len() > 1,
    ensures
        r@ == target_decoded_last(joined(crate::parsing::string_views(buf@))),
{
    let ghost ls = crate::parsing::string_views(buf@);
    let mut buffer: Vec<char> = Vec::new();
    let mut i: usize = 0;
    while i < buf.len()
        invariant
            ls == crate::parsing::string_views(buf@),
            i <= buf.len(),
            buffer@ == joined(ls.take(i as int)),
        decreases buf.len() - i,
    {
        let line = chars_of(buf[i].as_str());
        append_chars(&mut buffer, &line);
        assert(ls.take(i + 1).drop_last() =~= ls.take(i as int));
        i = i + 1;
    }
    assert(ls.take(buf.len() as int) =~= ls);
    let get = chars_of("GET");
    let http = chars_of("HTTP/1.1");
    proof {
        reveal_strlit("GET");
        reveal_strlit("HTTP/1.1");
    }
    let ps = split_exec(&buffer, &get);
    assert(views(ps@)[1] == ps@[1]@);
    let qs = split_exec(&ps[1], &http);
    proof {
        lemma_split_from_nonempty(ps@[1]@, http@, 0);
    }
    assert(views(qs@)[0] == qs@[0]@);
    let trimmed = trim_exec(&qs[0]);
    let pct = chars_of("%20");
    let sp = chars_of(" ");
    let decoded = replace_exec(&trimmed, &pct, &sp);
    string_of(&decoded)
}


/// Law: a request path with one trailing `'/'` finds the same entry as the path
/// without it.
pub proof fn law_trailing_slash(ds: Seq<FileDataView>, s: Seq<char>)
    requires
        s.len() >= 1,
        s.last() != '/',
    ensures
        subdir_index(ds, normalize_subdir(s.push('/'))) == subdir_index(ds, normalize_subdir(s)),
{
    assert(s.push('/').drop_last() =~= s);
}


/// Law: in a file list that starts with the document root's entry, the request path
/// `"/"` finds the root.
pub proof fn law_root_served_at_slash(rest: Seq<FileDataView>)
    ensures
        subdir_index(seq![root_view()] + rest, normalize_subdir("/"@)) == Some(0int),
{
    reveal_strlit("/");
    let ds = seq![root_view()] + rest;
    lemma_subdir_index(ds, "/"@);
    assert(ds[0] == root_view());
}


/// Cutting the first five bytes off a path that starts with `./web` leaves the rest of
/// its characters.
pub proof fn lemma_cut_web_prefix(path: Seq<char>)
    requires
        path.len() >= 5,
        path.take(5) == "./web"@,
    ensures
        cut_bytes(path, 5) == Some(path.skip(5)),
{
    reveal_strlit("./web");
    assert(path[0] == '.' && path[1] == '/' && path[2] == 'w' && path[3] == 'e' && path[4] == 'b')
        by {
        assert(path.take(5)[0] == path[0]);
        assert(path.take(5)[1] == path[1]);
        assert(path.take(5)[2] == path[2]);
        assert(path.take(5)[3] == path[3]);
        assert(path.take(5)[4] == path[4]);
    }
    let s1 = path.drop_first();
    let s2 = s1.drop_first();
    let s3 = s2.drop_first();
    let s4 = s3.drop_first();
    let s5 = s4.drop_first();
    assert(s1[0] == path[1]);
    assert(s2[0] == path[2]);
    assert(s3[0] == path[3]);
    assert(s4[0] == path[4]);
    assert(s4.drop_first() == s5);
    assert(encode_scalar(path[0] as u32).len() == 1);
    assert(encode_scalar(s1[0] as u32).len() == 1);
    assert(encode_scalar(s2[0] as u32).len() == 1);
    assert(encode_scalar(s3[0] as u32).len() == 1);
    assert(encode_scalar(s4[0] as u32).len() == 1);
    assert(cut_bytes(s5, 0) == Some(s5));
    assert(cut_bytes(s4, 1) == Some(s5));
    assert(cut_bytes(s3, 2) == Some(s5));
    assert(cut_bytes(s2, 3) == Some(s5));
    assert(cut_bytes(s1, 4) == Some(s5));
    assert(s5 =~= path.skip(5));
}

/// Each entry path starts with `./web/`, has a name after it, and no two are equal.
pub open spec fn walk_paths_ok(es: Seq<EntryInfo>) -> bool {
    &&& forall|k: int|
        0 <= k < es.len() ==> #[trigger] es[k].path@.take(6) == "./web/"@ && es[k].path@.len() > 6
    &&& forall|i: int, j: int| 0 <= i < j < es.len() ==> es[i].path@ != es[j].path@
}

/// Law: when the walk gives distinct paths under `./web/`, each URL path of the file
/// list is the entry's path from its sixth character on, no two URL paths are equal
/// (the root's `"/"` included), and so a lookup by an entry's URL path finds that
/// entry.
pub proof fn law_walk_subdirs_distinct(es: Seq<EntryInfo>)
    requires
        walk_paths_ok(es),
    ensures
        entries_cuttable(es),
        forall|k: int|
            0 <= k < es.len() ==> #[trigger] entry_view(es[k]).http_subdir == es[k].path@.skip(5),
        forall|i: int, j: int|
            0 <= i < j < es.len() + 1 ==> (seq![root_view()] + entry_views(es))[i].http_subdir
                != (seq![root_view()] + entry_views(es))[j].http_subdir,
        forall|i: int|
            0 <= i < es.len() + 1 ==> subdir_index(
                seq![root_view()] + entry_views(es),
                #[trigger] (seq![root_view()] + entry_views(es))[i].http_subdir,
            ) == Some(i),
{
    reveal_strlit("./web/");
    reveal_strlit("./web");
    reveal_strlit("/");
    let ds = seq![root_view()] + entry_views(es);
    assert forall|k: int| 0 <= k < es.len() implies cut_bytes(#[trigger] es[k].path@, 5) is Some
        && entry_view(es[k]).http_subdir == es[k].path@.skip(5) && es[k].path@.skip(5).len() > 1
        && es[k].path@.skip(5)[0] == '/' by {
        let p = es[k].path@;
        assert(p.take(6) == "./web/"@);
        assert(p.take(5) =~= "./web"@) by {
            assert forall|m: int| 0 <= m < 5 implies p.take(5)[m] == "./web"@[m] by {
                assert(p.take(6)[m] == p[m]);
            }
        }
        lemma_cut_web_prefix(p);
        assert(p.skip(5)[0] == p.take(6)[5]);
    }
    assert(ds.len() == es.len() + 1);
    assert forall|i: int| 1 <= i < ds.len() implies #[trigger] ds[i] == entry_view(es[i - 1]) by {}
    assert forall|k: int| 0 <= k < es.len() implies (#[trigger] es[k].path@).take(6) == "./web/"@
        && es[k].path@.len() > 6 by {
        assert(es[k].path@.take(6) == "./web/"@);
    }
    assert forall|i: int, j: int| 0 <= i < j < ds.len() implies ds[i].http_subdir
        != ds[j].http_subdir by {
        let pj = es[j - 1].path@;
        assert(pj.take(6) == "./web/"@ && pj.len() > 6);
        assert(ds[j].http_subdir == pj.skip(5));
        if i == 0 {
            assert(ds[0].http_subdir == "/"@);
            assert(pj.skip(5).len() > 1);
        } else {
            let pi = es[i - 1].path@;
            assert(pi.take(6) == "./web/"@ && pi.len() > 6);
            assert(ds[i].http_subdir == pi.skip(5));
            if pi.skip(5) == pj.skip(5) {
                assert(pi.take(5) =~= pj.take(5)) by {
                    assert forall|m: int| 0 <= m < 5 implies pi.take(5)[m] == pj.take(5)[m] by {
                        assert(pi.take(6)[m] == pi[m]);
                        assert(pj.take(6)[m] == pj[m]);
                    }
                }
                assert(pi =~= pi.take(5) + pi.skip(5));
                assert(pj =~= pj.take(5) + pj.skip(5));
                assert(pi == pj);
                assert(es[i - 1].path@ != es[j - 1].path@);
            }
        }
    }
    assert forall|i: int| 0 <= i < ds.len() implies subdir_index(
        ds,
        #[trigger] ds[i].http_subdir,
    ) == Some(i) by {
        lemma_subdir_index(ds, ds[i].http_subdir);
        match subdir_index(ds, ds[i].http_subdir) {
            Some(m) => {
                if m < i {
                    assert(ds[m].http_subdir != ds[i].http_subdir);
                }
                if m > i {
                    assert(ds[i].http_subdir != ds[m].http_subdir);
                }
            },
            None => {},
        }
    }
}

/// Law: the listing page of an empty directory is the heading and a closing tag.
pub proof fn law_empty_listing()
    ensures
        listing_page(seq![]) == "<h1>Directory</h1>"@ + "</ul>"@,
{
    assert(listing_page(seq![]) =~= "<h1>Directory</h1>"@ + "</ul>"@);
}


/// Law: adding an entry to a directory adds exactly its link item to the listing page,
/// just before the closing tag.
pub proof fn law_listing_append(ds: Seq<FileDataView>, d: FileDataView)
    ensures
        listing_page(ds.push(d)) == listing_page(ds).subrange(
            0,
            listing_page(ds).len() - "</ul>"@.len(),
        ) + "<ul>"@ + "<li>"@ + "<a href=\""@ + d.http_subdir + "\">"@ + d.name + "</a>"@
            + "</li>"@ + "</ul>"@ + "</ul>"@,
{
    assert(ds.push(d).drop_last() =~= ds);
    let head = "<h1>Directory</h1>"@ + listing_items(ds);
    assert(listing_page(ds) == head + "</ul>"@);
    assert(listing_page(ds).subrange(0, listing_page(ds).len() - "</ul>"@.len()) =~= head);
    assert(listing_page(ds.push(d)) =~= head + "<ul>"@ + "<li>"@ + "<a href=\""@ + d.http_subdir
        + "\">"@ + d.name + "</a>"@ + "</li>"@ + "</ul>"@ + "</ul>"@);
}

} // verus!
