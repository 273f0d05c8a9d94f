//! Character-sequence operations on strings, each stated over `Seq<char>`.

use vstd::prelude::*;

verus! {

broadcast use vstd::string::group_string_axioms;

/// The Unicode `White_Space` property, which `char::is_whitespace` and `str::trim` use.
pub open spec fn is_ws(c: char) -> bool {
    let u = c as u32;
    ||| u == 0x20
    ||| 0x09 <= u <= 0x0d
    ||| u == 0x85
    ||| u == 0xa0
    ||| u == 0x1680
    ||| 0x2000 <= u <= 0x200a
    ||| u == 0x2028
    ||| u == 0x2029
    ||| u == 0x202f
    ||| u == 0x205f
    ||| u == 0x3000
}

/// Whether `c` is white space in the sense of `is_ws`.
pub fn is_whitespace(c: char) -> (r: bool)
    ensures
        r == is_ws(c),
{
    let u = c as u32;
    u == 0x20 || (0x09 <= u && u <= 0x0d) || u == 0x85 || u == 0xa0 || u == 0x1680 || (0x2000
        <= u && u <= 0x200a) || u == 0x2028 || u == 0x2029 || u == 0x202f || u == 0x205f || u
        == 0x3000
}

/// Appends one character to a string, by `String::push`.
#[verifier::external_body]
fn push_char(s: &mut String, c: char)
    ensures
        final(s)@ == old(s)@.push(c),
{
    s.push(c);
}

/// The characters of `s`, in order.
pub fn chars_of(s: &str) -> (r: Vec<char>)
    ensures
        r@ == s@,
{
    let mut v: Vec<char> = Vec::new();
    for c in it: s.chars()
        invariant
            v@ == it.seq().take(it.index() as int),
    {
        v.push(c);
    }
    v
}

/// The string made of the characters `v`.
pub fn string_of(v: &Vec<char>) -> (r: String)
    ensures
        r@ == v@,
{
    let mut s = String::new();
    let mut i: usize = 0;
    while i < v.len()
        invariant
            i <= v.len(),
            s@ == v@.take(i as int),
        decreases v.len() - i,
    {
        push_char(&mut s, v[i]);
        i = i + 1;
        assert(v@.take(i as int) =~= v@.take(i - 1).push(v@[i - 1]));
    }
    assert(v@.take(v.len() as int) =~= v@);
    s
}


/// The characters of `s` from `a` up to `b`.
pub fn slice_chars(s: &Vec<char>, a: usize, b: usize) -> (r: Vec<char>)
    requires
        a <= b <= s.len(),
    ensures
        r@ == s@.subrange(a as int, b as int),
{
    let mut r: Vec<char> = Vec::new();
    let mut i: usize = a;
    while i < b
        invariant
            a <= i <= b <= s.len(),
            r@ == s@.subrange(a as int, i as int),
        decreases b - i,
    {
        r.push(s[i]);
        i = i + 1;
        assert(r@ =~= s@.subrange(a as int, i as int));
    }
    r
}

/// Appends the characters `t` to `out`.
pub fn append_chars(out: &mut Vec<char>, t: &Vec<char>)
    ensures
        final(out)@ == old(out)@ + t@,
{
    let mut i: usize = 0;
    while i < t.len()
        invariant
            i <= t.len(),
            out@ == old(out)@ + t@.take(i as int),
        decreases t.len() - i,
    {
        out.push(t[i]);
        i = i + 1;
        assert(out@ =~= old(out)@ + t@.take(i as int));
    }
    assert(t@.take(t.len() as int) =~= t@);
}

/// Whether two character sequences are equal.
pub fn eq_chars(a: &Vec<char>, b: &Vec<char>) -> (r: bool)
    ensures
        r == (a@ == b@),
{
    if a.len() != b.len() {
        return false;
    }
    let mut i: usize = 0;
    while i < a.len()
        invariant
            a.len() == b.len(),
            i <= a.len(),
            forall|k: int| 0 <= k < i ==> a@[k] == b@[k],
        decreases a.len() - i,
    {
        if a[i] != b[i] {
            return false;
        }
        i = i + 1;
    }
    assert(a@ =~= b@);
    true
}

/// `p` occurs in `s` at position `i`.
pub open spec fn occurs_at(s: Seq<char>, p: Seq<char>, i: int) -> bool {
    0 <= i && i + p.len() <= s.len() && s.subrange(i, i + p.len()) == p
}

/// The first position at or after `from` at which `p` occurs in `s`.
pub open spec fn find_from(s: Seq<char>, p: Seq<char>, from: int) -> Option<int>
    decreases s.len() + 1 - from,
{
    if from < 0 || from + p.len() > s.len() {
        None
    } else if occurs_at(s, p, from) {
        Some(from)
    } else {
        find_from(s, p, from + 1)
    }
}

/// What `find_from` returns: the least position at or after `from` where `p` occurs.
pub proof fn lemma_find_from(s: Seq<char>, p: Seq<char>, from: int)
    requires
        0 <= from,
    ensures
        match find_from(s, p, from) {
            Some(i) => from <= i && i + p.len() <= s.len() && occurs_at(s, p, i) && forall|j: int|
                from <= j < i ==> !occurs_at(s, p, j),
            None => forall|j: int| from <= j ==> !occurs_at(s, p, j),
        },
    decreases s.len() + 1 - from,
{
    if from + p.len() > s.len() {
    } else if occurs_at(s, p, from) {
    } else {
        lemma_find_from(s, p, from + 1);
    }
}

/// Whether `p` occurs in `s` at position `i`.
pub fn occurs_at_exec(s: &Vec<char>, p: &Vec<char>, i: usize) -> (r: bool)
    ensures
        r == occurs_at(s@, p@, i as int),
{
    if i > s.len() || p.len() > s.len() - i {
        return false;
    }
    let mut k: usize = 0;
    while k < p.len()
        invariant
            i + p.len() <= s.len(),
            k <= p.len(),
            forall|j: int| 0 <= j < k ==> s@[i + j] == p@[j],
        decreases p.len() - k,
    {
        if s[i + k] != p[k] {
            assert(s@.subrange(i as int, i + p.len())[k as int] != p@[k as int]);
            return false;
        }
        k = k + 1;
    }
    assert(s@.subrange(i as int, i + p.len()) =~= p@);
    true
}

/// The first position at or after `from` at which `p` occurs in `s`.
pub fn find_from_exec(s: &Vec<char>, p: &Vec<char>, from: usize) -> (r: Option<usize>)
    ensures
        match r {
            Some(i) => find_from(s@, p@, from as int) == Some(i as int),
            None => find_from(s@, p@, from as int) is None,
        },
{
    if p.len() > s.len() {
        return None;
    }
    let mut i: usize = from;
    while i <= s.len() - p.len()
        invariant
            from <= i,
            p.len() <= s.len(),
            find_from(s@, p@, from as int) == find_from(s@, p@, i as int),
        decreases s.len() + 1 - i,
    {
        if occurs_at_exec(s, p, i) {
            return Some(i);
        }
        assert(p@.len() > 0) by {
            if p@.len() == 0 {
                assert(s@.subrange(i as int, i as int) =~= p@);
            }
        }
        i = i + 1;
    }
    None
}


/// The pieces of `s` from `start` on, cut at each non-overlapping occurrence of `p`
/// found from the left, as `str::split` cuts them for a non-empty pattern.
pub open spec fn split_from(s: Seq<char>, p: Seq<char>, start: int) -> Seq<Seq<char>>
    decreases s.len() + 1 - start,
{
    if p.len() == 0 || start < 0 || start > s.len() {
        seq![]
    } else {
        match find_from(s, p, start) {
            None => seq![s.subrange(start, s.len() as int)],
            Some(i) => {
                proof {
                    lemma_find_from(s, p, start);
                }
                seq![s.subrange(start, i)] + split_from(s, p, i + p.len())
            },
        }
    }
}

/// The pieces of `s` cut at the occurrences of the non-empty pattern `p`.
pub open spec fn split_pieces(s: Seq<char>, p: Seq<char>) -> Seq<Seq<char>> {
    split_from(s, p, 0)
}

/// The character sequences held by a vector of character vectors.
pub open spec fn views(v: Seq<Vec<char>>) -> Seq<Seq<char>> {
    v.map_values(|x: Vec<char>| x@)
}

/// A split always yields at least one piece.
pub proof fn lemma_split_from_nonempty(s: Seq<char>, p: Seq<char>, start: int)
    requires
        p.len() > 0,
        0 <= start <= s.len(),
    ensures
        split_from(s, p, start).len() >= 1,
{
}

/// The pieces of `s` cut at the occurrences of the non-empty pattern `p`.
pub fn split_exec(s: &Vec<char>, p: &Vec<char>) -> (r: Vec<Vec<char>>)
    requires
        p.len() > 0,
    ensures
        views(r@) == split_pieces(s@, p@),
{
    let mut out: Vec<Vec<char>> = Vec::new();
    let mut start: usize = 0;
    loop
        invariant
            p.len() > 0,
            start <= s.len(),
            views(out@) + split_from(s@, p@, start as int) == split_from(s@, p@, 0),
        decreases s.len() + 1 - start,
    {
        match find_from_exec(s, p, start) {
            None => {
                let piece = slice_chars(s, start, s.len());
                let ghost old_out = out@;
                out.push(piece);
                assert(views(out@) =~= views(old_out) + seq![piece@]);
                assert(split_from(s@, p@, start as int) == seq![piece@]);
                return out;
            },
            Some(i) => {
                proof {
                    lemma_find_from(s@, p@, start as int);
                }
                let piece = slice_chars(s, start, i);
                let ghost old_out = out@;
                out.push(piece);
                assert(views(out@) =~= views(old_out) + seq![piece@]);
                assert(split_from(s@, p@, start as int) == seq![piece@] + split_from(
                    s@,
                    p@,
                    i + p@.len(),
                ));
                assert(views(out@) + split_from(s@, p@, (i + p.len()) as int) =~= views(old_out)
                    + split_from(s@, p@, start as int));
                start = i + p.len();
            },
        }
    }
}


/// The pieces joined together with `sep` between each two of them.
pub open spec fn join(pieces: Seq<Seq<char>>, sep: Seq<char>) -> Seq<char>
    decreases pieces.len(),
{
    if pieces.len() == 0 {
        seq![]
    } else if pieces.len() == 1 {
        pieces[0]
    } else {
        join(pieces.drop_last(), sep) + sep + pieces.last()
    }
}

/// `t` before each character of `s` and once more at its end: what replacing the
/// empty pattern with `t` gives.
pub open spec fn interleave(s: Seq<char>, t: Seq<char>) -> Seq<char>
    decreases s.len(),
{
    if s.len() == 0 {
        t
    } else {
        interleave(s.drop_last(), t) + seq![s.last()] + t
    }
}

/// `s` with every non-overlapping occurrence of `p`, found from the left, replaced by
/// `t`, as `str::replace` does it.
pub open spec fn replace_all(s: Seq<char>, p: Seq<char>, t: Seq<char>) -> Seq<char> {
    if p.len() == 0 {
        interleave(s, t)
    } else {
        join(split_pieces(s, p), t)
    }
}

/// The pieces joined together with `sep` between each two of them.
pub fn join_exec(pieces: &Vec<Vec<char>>, sep: &Vec<char>) -> (r: Vec<char>)
    ensures
        r@ == join(views(pieces@), sep@),
{
    let ghost vs = views(pieces@);
    let mut out: Vec<char> = Vec::new();
    let mut k: usize = 0;
    while k < pieces.len()
        invariant
            vs == views(pieces@),
            k <= pieces.len(),
            out@ == join(vs.take(k as int), sep@),
        decreases pieces.len() - k,
    {
        assert(vs.take(k + 1).drop_last() =~= vs.take(k as int));
        assert(vs.take(k + 1).last() == pieces@[k as int]@);
        if k == 0 {
            append_chars(&mut out, &pieces[k]);
            assert(out@ =~= join(vs.take(k + 1), sep@));
        } else {
            append_chars(&mut out, sep);
            append_chars(&mut out, &pieces[k]);
        }
        k = k + 1;
    }
    assert(vs.take(pieces.len() as int) =~= vs);
    out
}

/// `s` with every non-overlapping occurrence of `p` replaced by `t`.
pub fn replace_exec(s: &Vec<char>, p: &Vec<char>, t: &Vec<char>) -> (r: Vec<char>)
    ensures
        r@ == replace_all(s@, p@, t@),
{
    if p.len() == 0 {
        let mut out: Vec<char> = Vec::new();
        append_chars(&mut out, t);
        let mut i: usize = 0;
        while i < s.len()
            invariant
                i <= s.len(),
                out@ == interleave(s@.take(i as int), t@),
            decreases s.len() - i,
        {
            assert(s@.take(i + 1).drop_last() =~= s@.take(i as int));
            out.push(s[i]);
            append_chars(&mut out, t);
            i = i + 1;
        }
        assert(s@.take(s.len() as int) =~= s@);
        out
    } else {
        let pieces = split_exec(s, p);
        join_exec(&pieces, t)
    }
}

/// The string `s` with every occurrence of `p` replaced by `t`, as `str::replace` gives it.
pub fn replace_str(s: &str, p: &str, t: &str) -> (r: String)
    ensures
        r@ == replace_all(s@, p@, t@),
{
    let sv = chars_of(s);
    let pv = chars_of(p);
    let tv = chars_of(t);
    let rv = replace_exec(&sv, &pv, &tv);
    string_of(&rv)
}

/// `s` without any occurrence of the character `c`.
pub open spec fn without(s: Seq<char>, c: char) -> Seq<char>
    decreases s.len(),
{
    if s.len() == 0 {
        s
    } else if s.last() == c {
        without(s.drop_last(), c)
    } else {
        without(s.drop_last(), c).push(s.last())
    }
}

/// `s` without any occurrence of `c`, as `String::retain` with `|x| x != c` leaves it.
pub fn without_exec(s: &Vec<char>, c: char) -> (r: Vec<char>)
    ensures
        r@ == without(s@, c),
{
    let mut out: Vec<char> = Vec::new();
    let mut i: usize = 0;
    while i < s.len()
        invariant
            i <= s.len(),
            out@ == without(s@.take(i as int), c),
        decreases s.len() - i,
    {
        assert(s@.take(i + 1).drop_last() =~= s@.take(i as int));
        if s[i] != c {
            out.push(s[i]);
        }
        i = i + 1;
    }
    assert(s@.take(s.len() as int) =~= s@);
    out
}

/// `s` without its leading white space.
pub open spec fn trim_start(s: Seq<char>) -> Seq<char>
    decreases s.len(),
{
    if s.len() > 0 && is_ws(s[0]) {
        trim_start(s.drop_first())
    } else {
        s
    }
}

/// `s` without its trailing white space.
pub open spec fn trim_end(s: Seq<char>) -> Seq<char>
    decreases s.len(),
{
    if s.len() > 0 && is_ws(s.last()) {
        trim_end(s.drop_last())
    } else {
        s
    }
}

/// `s` without leading and trailing white space, as `str::trim` leaves it.
pub open spec fn trim(s: Seq<char>) -> Seq<char> {
    trim_end(trim_start(s))
}

/// `s` without leading and trailing white space.
pub fn trim_exec(s: &Vec<char>) -> (r: Vec<char>)
    ensures
        r@ == trim(s@),
{
    let mut a: usize = 0;
    assert(s@.skip(0) =~= s@);
    while a < s.len() && is_whitespace(s[a])
        invariant
            a <= s.len(),
            trim_start(s@) == trim_start(s@.skip(a as int)),
        decreases s.len() - a,
    {
        assert(s@.skip(a as int).drop_first() =~= s@.skip(a + 1));
        a = a + 1;
    }
    assert(trim_start(s@) == s@.skip(a as int));
    let mut b: usize = s.len();
    assert(s@.skip(a as int) =~= s@.subrange(a as int, b as int));
    while b > a && is_whitespace(s[b - 1])
        invariant
            a <= b <= s.len(),
            trim(s@) == trim_end(s@.subrange(a as int, b as int)),
        decreases b,
    {
        assert(s@.subrange(a as int, b as int).drop_last() =~= s@.subrange(a as int, b - 1));
        b = b - 1;
    }
    slice_chars(s, a, b)
}

/// The string `s` without leading and trailing white space.
pub fn trim_str(s: &str) -> (r: String)
    ensures
        r@ == trim(s@),
{
    let v = chars_of(s);
    let t = trim_exec(&v);
    string_of(&t)
}


/// The number of leading characters of `s` that are not white space.
pub open spec fn word_len(s: Seq<char>) -> nat
    decreases s.len(),
{
    if s.len() == 0 || is_ws(s[0]) {
        0
    } else {
        1 + word_len(s.drop_first())
    }
}

/// `word_len(s)` counts exactly the leading characters that are not white space.
pub proof fn lemma_word_len(s: Seq<char>)
    ensures
        word_len(s) <= s.len(),
        forall|k: int| 0 <= k < word_len(s) ==> !is_ws(#[trigger] s[k]),
        word_len(s) < s.len() ==> is_ws(s[word_len(s) as int]),
        s.len() > 0 && !is_ws(s[0]) ==> word_len(s) >= 1,
    decreases s.len(),
{
    if s.len() > 0 && !is_ws(s[0]) {
        lemma_word_len(s.drop_first());
        assert forall|k: int| 0 <= k < word_len(s) implies !is_ws(#[trigger] s[k]) by {
            if k > 0 {
                assert(s[k] == s.drop_first()[k - 1]);
            }
        }
    }
}

/// The maximal runs of characters that are not white space, in order, as
/// `str::split_whitespace` yields them.
pub open spec fn ws_tokens(s: Seq<char>) -> Seq<Seq<char>>
    decreases s.len(),
{
    if s.len() == 0 {
        seq![]
    } else if is_ws(s[0]) {
        ws_tokens(s.drop_first())
    } else {
        proof {
            lemma_word_len(s);
        }
        seq![s.take(word_len(s) as int)] + ws_tokens(s.skip(word_len(s) as int))
    }
}

/// The white-space separated words of `s`.
pub fn ws_tokens_exec(s: &Vec<char>) -> (r: Vec<Vec<char>>)
    ensures
        views(r@) == ws_tokens(s@),
{
    let mut out: Vec<Vec<char>> = Vec::new();
    let mut i: usize = 0;
    assert(s@.skip(0) =~= s@);
    while i < s.len()
        invariant
            i <= s.len(),
            views(out@) + ws_tokens(s@.skip(i as int)) == ws_tokens(s@),
        decreases s.len() - i,
    {
        if is_whitespace(s[i]) {
            assert(s@.skip(i as int).drop_first() =~= s@.skip(i + 1));
            i = i + 1;
        } else {
            let mut j: usize = i;
            while j < s.len() && !is_whitespace(s[j])
                invariant
                    i <= j <= s.len(),
                    word_len(s@.skip(i as int)) == (j - i) + word_len(s@.skip(j as int)),
                decreases s.len() - j,
            {
                assert(s@.skip(j as int).drop_first() =~= s@.skip(j + 1));
                j = j + 1;
            }
            assert(word_len(s@.skip(j as int)) == 0);
            let tok = slice_chars(s, i, j);
            assert(tok@ =~= s@.skip(i as int).take(j - i));
            assert(s@.skip(i as int).skip(j - i) =~= s@.skip(j as int));
            let ghost old_out = out@;
            out.push(tok);
            assert(views(out@) =~= views(old_out) + seq![tok@]);
            assert(views(out@) + ws_tokens(s@.skip(j as int)) =~= views(old_out) + ws_tokens(
                s@.skip(i as int),
            ));
            i = j;
        }
    }
    assert(ws_tokens(s@.skip(i as int)) =~= Seq::<Seq<char>>::empty());
    out
}

/// A line without the carriage return that ends it, if one does.
pub open spec fn strip_cr(l: Seq<char>) -> Seq<char> {
    if l.len() > 0 && l.last() == '\r' {
        l.drop_last()
    } else {
        l
    }
}

/// The lines of `s` as `str::lines` yields them: cut at each `'\n'`, a `'\r'` that
/// stands right before a `'\n'` dropped, and no empty line after a final `'\n'`.
pub open spec fn lines(s: Seq<char>) -> Seq<Seq<char>> {
    let ps = split_pieces(s, seq!['\n']);
    let n: int = if ps.last().len() == 0 {
        ps.len() - 1
    } else {
        ps.len() as int
    };
    Seq::new(n as nat, |i: int| if i < ps.len() - 1 { strip_cr(ps[i]) } else { ps[i] })
}

/// The lines of `s`.
pub fn lines_exec(s: &Vec<char>) -> (r: Vec<Vec<char>>)
    ensures
        views(r@) == lines(s@),
{
    let mut nl: Vec<char> = Vec::new();
    nl.push('\n');
    assert(nl@ =~= seq!['\n']);
    let ps = split_exec(s, &nl);
    proof {
        lemma_split_from_nonempty(s@, nl@, 0);
    }
    let n: usize = if ps[ps.len() - 1].len() == 0 {
        ps.len() - 1
    } else {
        ps.len()
    };
    let ghost target = lines(s@);
    let mut out: Vec<Vec<char>> = Vec::new();
    let mut i: usize = 0;
    while i < n
        invariant
            n <= ps.len(),
            views(ps@) == split_pieces(s@, seq!['\n']),
            target == lines(s@),
            target.len() == n,
            i <= n,
            views(out@) == target.take(i as int),
        decreases n - i,
    {
        let ghost old_out = out@;
        let l = &ps[i];
        if i + 1 < ps.len() && l.len() > 0 && l[l.len() - 1] == '\r' {
            let stripped = slice_chars(l, 0, l.len() - 1);
            assert(stripped@ =~= l@.drop_last());
            out.push(stripped);
        } else {
            let kept = slice_chars(l, 0, l.len());
            assert(kept@ =~= l@);
            out.push(kept);
        }
        assert(views(out@) =~= views(old_out) + seq![out@[i as int]@]);
        i = i + 1;
        assert(views(out@) =~= target.take(i as int));
    }
    assert(target.take(n as int) =~= target);
    out
}

/// The decimal digit character for `d < 10`.
pub open spec fn digit_char(d: nat) -> char {
    (48 + d) as char
}

/// The decimal notation of `n`, without leading zeros, as `format!("{}", n)` writes it.
pub open spec fn decimal(n: nat) -> Seq<char>
    decreases n,
{
    if n < 10 {
        seq![digit_char(n)]
    } else {
        decimal(n / 10) + seq![digit_char(n % 10)]
    }
}

/// Appends the decimal notation of `n` to `out`.
pub fn push_decimal(out: &mut Vec<char>, n: u64)
    ensures
        final(out)@ == old(out)@ + decimal(n as nat),
    decreases n,
{
    if n >= 10 {
        push_decimal(out, n / 10);
    }
    let d: u8 = (n % 10) as u8;
    let c: char = (48u8 + d) as char;
    assert(c == digit_char((n % 10) as nat));
    out.push(c);
    assert(out@ =~= old(out)@ + decimal(n as nat));
}

/// The character with ASCII upper-case letters mapped to lower case.
pub open spec fn ascii_lower(c: char) -> char {
    if 65 <= c as u32 <= 90 {
        ((c as u32) + 32) as char
    } else {
        c
    }
}

/// Equality up to ASCII case, as `str::eq_ignore_ascii_case` decides it.
pub open spec fn eq_ignore_case(a: Seq<char>, b: Seq<char>) -> bool {
    a.len() == b.len() && forall|i: int| 0 <= i < a.len() ==> ascii_lower(a[i]) == ascii_lower(
        b[i],
    )
}

/// The character with ASCII upper-case letters mapped to lower case.
pub fn ascii_lower_exec(c: char) -> (r: char)
    ensures
        r == ascii_lower(c),
{
    let u = c as u32;
    if 65 <= u && u <= 90 {
        let l: u8 = (u + 32) as u8;
        l as char
    } else {
        c
    }
}

/// Equality up to ASCII case.
pub fn eq_ignore_case_exec(a: &Vec<char>, b: &Vec<char>) -> (r: bool)
    ensures
        r == eq_ignore_case(a@, b@),
{
    if a.len() != b.len() {
        return false;
    }
    let mut i: usize = 0;
    while i < a.len()
        invariant
            a.len() == b.len(),
            i <= a.len(),
            forall|k: int| 0 <= k < i ==> ascii_lower(a@[k]) == ascii_lower(b@[k]),
        decreases a.len() - i,
    {
        if ascii_lower_exec(a[i]) != ascii_lower_exec(b[i]) {
            return false;
        }
        i = i + 1;
    }
    true
}


/// No piece of a split at a single character holds that character.
pub proof fn lemma_split_char_pieces(s: Seq<char>, c: char, start: int)
    requires
        0 <= start <= s.len(),
    ensures
        forall|k: int, m: int|
            0 <= k < split_from(s, seq![c], start).len() && 0 <= m < split_from(
                s,
                seq![c],
                start,
            )[k].len() ==> #[trigger] split_from(s, seq![c], start)[k][m] != c,
    decreases s.len() + 1 - start,
{
    let p = seq![c];
    lemma_find_from(s, p, start);
    let ps = split_from(s, p, start);
    match find_from(s, p, start) {
        None => {
            assert forall|k: int, m: int| 0 <= k < ps.len() && 0 <= m < ps[k].len() implies #[trigger] ps[k][m] != c by {
                assert(ps[k] == s.subrange(start, s.len() as int));
                if ps[k][m] == c {
                    assert(s.subrange(start + m, start + m + 1) =~= p);
                    assert(occurs_at(s, p, start + m));
                }
            }
        },
        Some(i) => {
            lemma_split_char_pieces(s, c, i + 1);
            let rest = split_from(s, p, i + 1);
            assert(ps == seq![s.subrange(start, i)] + rest);
            assert forall|k: int, m: int| 0 <= k < ps.len() && 0 <= m < ps[k].len() implies #[trigger] ps[k][m] != c by {
                if k == 0 {
                    assert(ps[k] == s.subrange(start, i));
                    if ps[k][m] == c {
                        assert(s.subrange(start + m, start + m + 1) =~= p);
                        assert(occurs_at(s, p, start + m));
                    }
                } else {
                    assert(ps[k] == rest[k - 1]);
                    assert(rest[k - 1][m] != c);
                }
            }
        },
    }
}

/// No line holds a line feed.
pub proof fn lemma_lines_no_newline(s: Seq<char>)
    ensures
        forall|k: int, m: int|
            0 <= k < lines(s).len() && 0 <= m < lines(s)[k].len() ==> #[trigger] lines(s)[k][m]
                != '\n',
{
    lemma_split_char_pieces(s, '\n', 0);
    let ps = split_pieces(s, seq!['\n']);
    assert forall|k: int, m: int| 0 <= k < lines(s).len() && 0 <= m < lines(s)[k].len() implies #[trigger] lines(s)[k][m] != '\n' by {
        assert(ps[k][m] != '\n');
        if k < ps.len() - 1 && ps[k].len() > 0 && ps[k].last() == '\r' {
            assert(lines(s)[k] == ps[k].drop_last());
            assert(lines(s)[k][m] == ps[k][m]);
        }
    }
}


/// Joining a first piece to a non-empty rest puts the separator between them.
pub proof fn lemma_join_cons(a: Seq<char>, rest: Seq<Seq<char>>, sep: Seq<char>)
    requires
        rest.len() >= 1,
    ensures
        join(seq![a] + rest, sep) == a + sep + join(rest, sep),
    decreases rest.len(),
{
    let all = seq![a] + rest;
    if rest.len() == 1 {
        assert(all.drop_last() =~= seq![a]);
        assert(join(seq![a], sep) == a);
        assert(all.last() == rest[0]);
        assert(join(rest, sep) == rest[0]);
        assert(join(all, sep) == join(all.drop_last(), sep) + sep + all.last());
    } else {
        lemma_join_cons(a, rest.drop_last(), sep);
        assert(all.drop_last() =~= seq![a] + rest.drop_last());
        assert(all.last() == rest.last());
        assert(join(all, sep) =~= a + sep + join(rest, sep));
    }
}

/// Joining the pieces of a split with the pattern gives back what was split.
pub proof fn lemma_join_split_from(s: Seq<char>, p: Seq<char>, start: int)
    requires
        p.len() > 0,
        0 <= start <= s.len(),
    ensures
        join(split_from(s, p, start), p) == s.subrange(start, s.len() as int),
    decreases s.len() + 1 - start,
{
    lemma_find_from(s, p, start);
    match find_from(s, p, start) {
        None => {},
        Some(i) => {
            lemma_join_split_from(s, p, i + p.len());
            lemma_split_from_nonempty(s, p, i + p.len());
            lemma_join_cons(s.subrange(start, i), split_from(s, p, i + p.len()), p);
            assert(s.subrange(start, s.len() as int) =~= s.subrange(start, i) + p + s.subrange(
                i + p.len(),
                s.len() as int,
            ));
        },
    }
}

/// Law: the pieces of `s` cut at a non-empty pattern, joined again with that pattern,
/// give `s`.
pub proof fn law_join_split(s: Seq<char>, p: Seq<char>)
    requires
        p.len() > 0,
    ensures
        join(split_pieces(s, p), p) == s,
{
    lemma_join_split_from(s, p, 0);
    assert(s.subrange(0, s.len() as int) =~= s);
}

/// Law: replacing a pattern by itself leaves a string as it was.
pub proof fn law_replace_same(s: Seq<char>, p: Seq<char>)
    ensures
        replace_all(s, p, p) == s,
    decreases s.len(),
{
    if p.len() > 0 {
        law_join_split(s, p);
    } else if s.len() > 0 {
        law_replace_same(s.drop_last(), p);
        assert(interleave(s, p) =~= s);
    } else {
        assert(interleave(s, p) =~= s);
    }
}

/// Law: removing a character leaves no occurrence of it, and removing it again
/// changes nothing.
pub proof fn law_without(s: Seq<char>, c: char)
    ensures
        forall|i: int| 0 <= i < without(s, c).len() ==> #[trigger] without(s, c)[i] != c,
        without(without(s, c), c) == without(s, c),
    decreases s.len(),
{
    if s.len() > 0 {
        law_without(s.drop_last(), c);
        let w = without(s.drop_last(), c);
        if s.last() != c {
            assert(w.push(s.last()).drop_last() =~= w);
            assert forall|i: int| 0 <= i < without(s, c).len() implies #[trigger] without(s, c)[i]
                != c by {
                if i < w.len() {
                    assert(without(s, c)[i] == w[i]);
                }
            }
        }
    }
}

/// `trim_start` leaves nothing or a first character that is not white space.
proof fn lemma_trim_start(s: Seq<char>)
    ensures
        trim_start(s).len() > 0 ==> !is_ws(trim_start(s)[0]),
        trim_start(trim_start(s)) == trim_start(s),
    decreases s.len(),
{
    if s.len() > 0 && is_ws(s[0]) {
        lemma_trim_start(s.drop_first());
    }
}

/// `trim_end` keeps a prefix, whose last character, if any, is not white space.
proof fn lemma_trim_end(s: Seq<char>)
    ensures
        trim_end(s).len() <= s.len(),
        trim_end(s) == s.take(trim_end(s).len() as int),
        trim_end(s).len() > 0 ==> !is_ws(trim_end(s).last()),
        trim_end(trim_end(s)) == trim_end(s),
    decreases s.len(),
{
    if s.len() > 0 && is_ws(s.last()) {
        lemma_trim_end(s.drop_last());
        let t = trim_end(s.drop_last());
        assert(s.drop_last().take(t.len() as int) =~= s.take(t.len() as int));
    } else {
        assert(s.take(s.len() as int) =~= s);
    }
}

/// Law: trimming twice is trimming once, and what is left neither starts nor ends
/// with white space.
pub proof fn law_trim(s: Seq<char>)
    ensures
        trim(trim(s)) == trim(s),
        trim(s).len() > 0 ==> !is_ws(trim(s)[0]) && !is_ws(trim(s).last()),
{
    let x = trim_start(s);
    lemma_trim_start(s);
    lemma_trim_end(x);
    let y = trim_end(x);
    if y.len() > 0 {
        assert(y[0] == x[0]);
    }
    assert(trim_start(y) == y);
    lemma_trim_end(y);
}


/// No character of `s` is `c`.
pub open spec fn avoids(s: Seq<char>, c: char) -> bool {
    forall|i: int| 0 <= i < s.len() ==> s[i] != c
}

/// Joining pieces that avoid `c` with a separator that avoids `c` avoids `c`.
pub proof fn lemma_join_avoids(ps: Seq<Seq<char>>, sep: Seq<char>, c: char)
    requires
        forall|k: int| 0 <= k < ps.len() ==> avoids(#[trigger] ps[k], c),
        avoids(sep, c),
    ensures
        avoids(join(ps, sep), c),
    decreases ps.len(),
{
    if ps.len() > 1 {
        let init = ps.drop_last();
        assert forall|k: int| 0 <= k < init.len() implies avoids(#[trigger] init[k], c) by {
            assert(init[k] == ps[k]);
        }
        lemma_join_avoids(init, sep, c);
        assert(avoids(ps.last(), c));
        let j = join(ps, sep);
        let a = join(init, sep);
        assert forall|i: int| 0 <= i < j.len() implies j[i] != c by {
            if i < a.len() {
                assert(j[i] == a[i]);
            } else if i < a.len() + sep.len() {
                assert(j[i] == sep[i - a.len()]);
            } else {
                assert(j[i] == ps.last()[i - a.len() - sep.len()]);
            }
        }
    } else if ps.len() == 1 {
        assert(avoids(ps[0], c));
    }
}

/// The pieces of a split of a string that avoids `c` avoid `c`.
pub proof fn lemma_split_avoids(s: Seq<char>, p: Seq<char>, start: int, c: char)
    requires
        avoids(s, c),
        0 <= start <= s.len(),
    ensures
        forall|k: int|
            0 <= k < split_from(s, p, start).len() ==> avoids(#[trigger] split_from(s, p, start)[k], c),
    decreases s.len() + 1 - start,
{
    if p.len() > 0 {
        lemma_find_from(s, p, start);
        let ps = split_from(s, p, start);
        match find_from(s, p, start) {
            None => {
                assert forall|k: int| 0 <= k < ps.len() implies avoids(#[trigger] ps[k], c) by {
                    let piece = s.subrange(start, s.len() as int);
                    assert(ps[k] == piece);
                    assert forall|m: int| 0 <= m < piece.len() implies piece[m] != c by {
                        assert(piece[m] == s[start + m]);
                    }
                }
            },
            Some(i) => {
                lemma_split_avoids(s, p, i + p.len(), c);
                let rest = split_from(s, p, i + p.len());
                assert forall|k: int| 0 <= k < ps.len() implies avoids(#[trigger] ps[k], c) by {
                    if k == 0 {
                        let piece = s.subrange(start, i);
                        assert(ps[k] == piece);
                        assert forall|m: int| 0 <= m < piece.len() implies piece[m] != c by {
                            assert(piece[m] == s[start + m]);
                        }
                    } else {
                        assert(ps[k] == rest[k - 1]);
                    }
                }
            },
        }
    }
}

/// Interleaving a string that avoids `c` with a text that avoids `c` avoids `c`.
proof fn lemma_interleave_avoids(s: Seq<char>, t: Seq<char>, c: char)
    requires
        avoids(s, c),
        avoids(t, c),
    ensures
        avoids(interleave(s, t), c),
    decreases s.len(),
{
    if s.len() > 0 {
        assert(avoids(s.drop_last(), c)) by {
            assert forall|i: int| 0 <= i < s.drop_last().len() implies s.drop_last()[i] != c by {
                assert(s.drop_last()[i] == s[i]);
            }
        }
        lemma_interleave_avoids(s.drop_last(), t, c);
        let a = interleave(s.drop_last(), t);
        let r = interleave(s, t);
        assert forall|i: int| 0 <= i < r.len() implies r[i] != c by {
            if i < a.len() {
                assert(r[i] == a[i]);
            } else if i == a.len() {
                assert(r[i] == s.last());
            } else {
                assert(r[i] == t[i - a.len() - 1]);
            }
        }
    }
}

/// Replacing in a string that avoids `c` with a text that avoids `c` avoids `c`.
pub proof fn lemma_replace_avoids(s: Seq<char>, p: Seq<char>, t: Seq<char>, c: char)
    requires
        avoids(s, c),
        avoids(t, c),
    ensures
        avoids(replace_all(s, p, t), c),
{
    if p.len() == 0 {
        lemma_interleave_avoids(s, t, c);
    } else {
        lemma_split_avoids(s, p, 0, c);
        lemma_join_avoids(split_pieces(s, p), t, c);
    }
}

/// Replacing every `c` by a text that avoids `c` leaves no `c`.
pub proof fn lemma_replace_char_avoids(s: Seq<char>, c: char, t: Seq<char>)
    requires
        avoids(t, c),
    ensures
        avoids(replace_all(s, seq![c], t), c),
{
    lemma_split_char_pieces(s, c, 0);
    let ps = split_pieces(s, seq![c]);
    assert forall|k: int| 0 <= k < ps.len() implies avoids(#[trigger] ps[k], c) by {
        assert forall|m: int| 0 <= m < ps[k].len() implies ps[k][m] != c by {
            assert(ps[k][m] != c);
        }
    }
    lemma_join_avoids(ps, t, c);
}


/// Removing a character keeps a string clear of any other character it avoided.
pub proof fn lemma_without_avoids(s: Seq<char>, c: char, d: char)
    requires
        avoids(s, d),
    ensures
        avoids(without(s, c), d),
    decreases s.len(),
{
    if s.len() > 0 {
        assert(avoids(s.drop_last(), d)) by {
            assert forall|i: int| 0 <= i < s.drop_last().len() implies s.drop_last()[i] != d by {
                assert(s.drop_last()[i] == s[i]);
            }
        }
        lemma_without_avoids(s.drop_last(), c, d);
        let w = without(s.drop_last(), c);
        if s.last() != c {
            assert forall|i: int| 0 <= i < without(s, c).len() implies without(s, c)[i] != d by {
                if i < w.len() {
                    assert(without(s, c)[i] == w[i]);
                }
            }
        }
    }
}

/// A string without line feeds is one line, or none where it is empty.
pub proof fn lemma_lines_of_one_line(s: Seq<char>)
    requires
        avoids(s, '\n'),
    ensures
        lines(s).len() <= 1,
{
    lemma_find_from(s, seq!['\n'], 0);
    match find_from(s, seq!['\n'], 0) {
        Some(i) => {
            assert(s.subrange(i, i + 1)[0] == s[i]);
        },
        None => {},
    }
}


/// Searching `pre + y` from a position inside `y` finds what searching `y` finds,
/// shifted by the length of `pre`.
pub proof fn lemma_find_shift(pre: Seq<char>, y: Seq<char>, p: Seq<char>, k: int)
    requires
        0 <= k,
    ensures
        find_from(pre + y, p, pre.len() + k) == match find_from(y, p, k) {
            Some(i) => Some(i + pre.len()),
            None => None,
        },
    decreases y.len() + 1 - k,
{
    let s = pre + y;
    let from = pre.len() + k;
    if from + p.len() > s.len() {
    } else {
        assert(s.subrange(from, from + p.len()) =~= y.subrange(k, k + p.len()));
        assert(occurs_at(s, p, from) == occurs_at(y, p, k));
        if !occurs_at(y, p, k) {
            lemma_find_shift(pre, y, p, k + 1);
        }
    }
}

/// Splitting `pre + y` from a position inside `y` gives the pieces of `y` from there.
pub proof fn lemma_split_shift(pre: Seq<char>, y: Seq<char>, p: Seq<char>, k: int)
    requires
        p.len() > 0,
        0 <= k <= y.len(),
    ensures
        split_from(pre + y, p, pre.len() + k) == split_from(y, p, k),
    decreases y.len() + 1 - k,
{
    let s = pre + y;
    lemma_find_shift(pre, y, p, k);
    lemma_find_from(y, p, k);
    match find_from(y, p, k) {
        None => {
            assert(s.subrange(pre.len() + k, s.len() as int) =~= y.subrange(k, y.len() as int));
        },
        Some(i) => {
            lemma_split_shift(pre, y, p, i + p.len());
            assert(s.subrange(pre.len() + k, i + pre.len()) =~= y.subrange(k, i));
            assert(pre.len() + (i + p.len()) == (i + pre.len()) + p.len());
        },
    }
}

/// A string in which the pattern does not occur is one piece.
pub proof fn lemma_split_no_occurrence(s: Seq<char>, p: Seq<char>)
    requires
        p.len() > 0,
        forall|j: int| !occurs_at(s, p, j),
    ensures
        split_pieces(s, p) == seq![s],
{
    lemma_find_from(s, p, 0);
    if find_from(s, p, 0) is Some {
        assert(occurs_at(s, p, find_from(s, p, 0)->0));
    }
    assert(s.subrange(0, s.len() as int) =~= s);
}

/// Where the first occurrence of `p` in `x + p + y` is the one after `x`, the first
/// piece is `x` and the rest are the pieces of `y`.
pub proof fn lemma_split_first(x: Seq<char>, p: Seq<char>, y: Seq<char>)
    requires
        p.len() > 0,
        forall|i: int| 0 <= i < x.len() ==> !occurs_at(x + p, p, i),
    ensures
        split_pieces(x + p + y, p) == seq![x] + split_pieces(y, p),
{
    let s = x + p + y;
    assert forall|i: int| 0 <= i < x.len() implies !occurs_at(s, p, i) by {
        if occurs_at(s, p, i) {
            assert(s.subrange(i, i + p.len()) =~= (x + p).subrange(i, i + p.len()));
            assert(occurs_at(x + p, p, i));
        }
    }
    assert(s.subrange(x.len() as int, (x.len() + p.len()) as int) =~= p);
    lemma_find_from(s, p, 0);
    match find_from(s, p, 0) {
        Some(m) => {
            if m > x.len() {
                assert(occurs_at(s, p, x.len() as int));
            }
        },
        None => {
            assert(occurs_at(s, p, x.len() as int));
        },
    }
    assert(s.subrange(0, x.len() as int) =~= x);
    assert(s =~= (x + p) + y);
    lemma_split_shift(x + p, y, p, 0);
}

/// No piece of a split holds an occurrence of the pattern.
pub proof fn lemma_pieces_free(s: Seq<char>, p: Seq<char>, start: int)
    requires
        p.len() > 0,
        0 <= start <= s.len(),
    ensures
        forall|k: int, j: int|
            0 <= k < split_from(s, p, start).len() ==> !#[trigger] occurs_at(
                split_from(s, p, start)[k],
                p,
                j,
            ),
    decreases s.len() + 1 - start,
{
    lemma_find_from(s, p, start);
    let ps = split_from(s, p, start);
    match find_from(s, p, start) {
        None => {
            assert forall|k: int, j: int| 0 <= k < ps.len() implies !#[trigger] occurs_at(ps[k], p, j) by {
                let piece = s.subrange(start, s.len() as int);
                assert(ps[k] == piece);
                if occurs_at(piece, p, j) {
                    assert(piece.subrange(j, j + p.len()) =~= s.subrange(start + j, start + j + p.len()));
                    assert(occurs_at(s, p, start + j));
                }
            }
        },
        Some(i) => {
            lemma_pieces_free(s, p, i + p.len());
            let rest = split_from(s, p, i + p.len());
            assert forall|k: int, j: int| 0 <= k < ps.len() implies !#[trigger] occurs_at(ps[k], p, j) by {
                if k == 0 {
                    let piece = s.subrange(start, i);
                    assert(ps[k] == piece);
                    if occurs_at(piece, p, j) {
                        assert(piece.subrange(j, j + p.len()) =~= s.subrange(
                            start + j,
                            start + j + p.len(),
                        ));
                        assert(occurs_at(s, p, start + j));
                    }
                } else {
                    assert(ps[k] == rest[k - 1]);
                }
            }
        },
    }
}

/// No character of `t` occurs in `p`.
pub open spec fn disjoint_chars(t: Seq<char>, p: Seq<char>) -> bool {
    forall|a: int, b: int| 0 <= a < t.len() && 0 <= b < p.len() ==> t[a] != p[b]
}

/// Joining pieces free of `p` with a non-empty separator that shares no character with
/// `p` gives a text free of `p`.
pub proof fn lemma_join_free(ps: Seq<Seq<char>>, p: Seq<char>, t: Seq<char>)
    requires
        p.len() > 0,
        t.len() > 0,
        disjoint_chars(t, p),
        forall|k: int, j: int| 0 <= k < ps.len() ==> !#[trigger] occurs_at(ps[k], p, j),
    ensures
        forall|j: int| !occurs_at(join(ps, t), p, j),
    decreases ps.len(),
{
    if ps.len() == 1 {
        assert forall|j: int| !occurs_at(join(ps, t), p, j) by {
            assert(!occurs_at(ps[0], p, j));
        }
    } else if ps.len() > 1 {
        let init = ps.drop_last();
        assert forall|k: int, j: int| 0 <= k < init.len() implies !#[trigger] occurs_at(init[k], p, j) by {
            assert(init[k] == ps[k]);
        }
        lemma_join_free(init, p, t);
        let a = join(init, t);
        let l = ps.last();
        let all = join(ps, t);
        assert(all == a + t + l);
        assert forall|j: int| !occurs_at(all, p, j) by {
            if occurs_at(all, p, j) {
                let w = all.subrange(j, j + p.len());
                if j + p.len() <= a.len() {
                    assert(w =~= a.subrange(j, j + p.len()));
                    assert(occurs_at(a, p, j));
                } else if j >= a.len() + t.len() {
                    let jj = j - a.len() - t.len();
                    assert(w =~= l.subrange(jj, jj + p.len()));
                    assert(occurs_at(l, p, jj));
                    assert(!occurs_at(ps[ps.len() - 1], p, jj));
                } else {
                    let pos: int = if j <= a.len() {
                        a.len() as int
                    } else {
                        j
                    };
                    assert(all[pos] == t[pos - a.len()]);
                    assert(w[pos - j] == all[pos]);
                    assert(p[pos - j] == w[pos - j]);
                }
            }
        }
    }
}

/// Replacing a non-empty pattern with a non-empty text that shares no character with it
/// leaves no occurrence of the pattern.
pub proof fn lemma_replace_free(s: Seq<char>, p: Seq<char>, t: Seq<char>)
    requires
        p.len() > 0,
        t.len() > 0,
        disjoint_chars(t, p),
    ensures
        forall|j: int| !occurs_at(replace_all(s, p, t), p, j),
{
    lemma_pieces_free(s, p, 0);
    lemma_join_free(split_pieces(s, p), p, t);
}

/// Replacing a pattern that does not occur changes nothing.
pub proof fn lemma_replace_absent(s: Seq<char>, p: Seq<char>, t: Seq<char>)
    requires
        p.len() > 0,
        forall|j: int| !occurs_at(s, p, j),
    ensures
        replace_all(s, p, t) == s,
{
    lemma_split_no_occurrence(s, p);
    assert(join(seq![s], t) == s);
}

/// Removing a character that does not occur changes nothing.
pub proof fn lemma_without_absent(s: Seq<char>, c: char)
    requires
        avoids(s, c),
    ensures
        without(s, c) == s,
    decreases s.len(),
{
    if s.len() > 0 {
        assert(avoids(s.drop_last(), c)) by {
            assert forall|i: int| 0 <= i < s.drop_last().len() implies s.drop_last()[i] != c by {
                assert(s.drop_last()[i] == s[i]);
            }
        }
        lemma_without_absent(s.drop_last(), c);
        assert(s.last() != c);
        assert(s.drop_last().push(s.last()) =~= s);
    }
}

/// A non-empty string without line feeds is exactly one line.
pub proof fn lemma_one_line(s: Seq<char>)
    requires
        s.len() > 0,
        avoids(s, '\n'),
    ensures
        lines(s).len() == 1,
{
    assert forall|j: int| !occurs_at(s, seq!['\n'], j) by {
        if occurs_at(s, seq!['\n'], j) {
            assert(s.subrange(j, j + 1)[0] == s[j]);
        }
    }
    lemma_split_no_occurrence(s, seq!['\n']);
}

} // verus!
