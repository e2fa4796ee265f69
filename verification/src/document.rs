//! The shape of a ticket document: a header between two delimiter lines, then
//! a heading line with the title, then the free text.
//!
//! ```text
//! ---
//! <header>
//! ---
//!
//! # <title>
//!
//! <body>
//! ```
//!
//! This module frames documents. What stands between the delimiters is handed
//! on as text.

use crate::error::{Error, Malformed};
use crate::text::{
    count_leading_space, find, first_occurrence, has_prefix, is_space, is_whitespace, leading_space,
    lemma_first_occurrence_bounds, lemma_first_occurrence_extend, lemma_leading_space,
    lemma_trailing_space_bounds, lemma_trim_after_space, lemma_trim_before_space,
    lemma_trim_bounds, lemma_trim_is, occurs_at, string_of, to_chars, trailing_space, trim,
    trim_end, trimmed,
};
use vstd::prelude::*;
use vstd::slice::*;
use vstd::string::*;

verus! {

/// The line that opens the header.
pub open spec fn delimiter() -> Seq<char> {
    seq!['-', '-', '-']
}

/// What closes the header: a line break and the delimiter.
pub open spec fn closing() -> Seq<char> {
    seq!['\n', '-', '-', '-']
}

/// What a title line begins with.
pub open spec fn heading() -> Seq<char> {
    seq!['#', ' ']
}

/// The title of a text without a title line.
pub open spec fn untitled() -> Seq<char> {
    "Untitled"@
}

/// The header and the text of the document `content`, both trimmed.
pub open spec fn frame_of(content: Seq<char>) -> Result<(Seq<char>, Seq<char>), Malformed> {
    let text = trim(content);
    if !delimiter().is_prefix_of(text) {
        Err(Malformed::MissingHeader)
    } else {
        let rest = text.skip(3);
        match first_occurrence(rest, closing()) {
            None => Err(Malformed::UnclosedHeader),
            Some(end) => Ok((trim(rest.take(end)), trim(rest.skip(end + 4)))),
        }
    }
}

/// Where the line that holds the place `from` ends: at the next line break, or
/// at the end of `s`.
pub open spec fn line_end(s: Seq<char>, from: int) -> int
    decreases s.len() - from,
{
    if from < 0 || from >= s.len() {
        s.len() as int
    } else if s[from] == '\n' {
        from
    } else {
        line_end(s, from + 1)
    }
}

/// Where the text of that line ends: a carriage return before the line break
/// belongs to the break.
pub open spec fn content_end(s: Seq<char>, from: int) -> int {
    let nl = line_end(s, from);
    if from < nl < s.len() && s[nl - 1] == '\r' {
        nl - 1
    } else {
        nl
    }
}

/// How many line breaks `s` begins with.
pub open spec fn leading_breaks(s: Seq<char>) -> nat
    decreases s.len(),
{
    if s.len() > 0 && s[0] == '\n' {
        1 + leading_breaks(s.drop_first())
    } else {
        0
    }
}

/// The title and the text under it, where the first line of `body` that is not
/// blank is a title line: the heading mark, a space, and the title. The text
/// is what follows that line, without the line breaks it begins with.
pub open spec fn title_of(body: Seq<char>) -> Option<(Seq<char>, Seq<char>)> {
    let k = leading_space(body) as int;
    let e = content_end(body, k);
    let line = trim(body.subrange(k, e));
    if k < body.len() && heading().is_prefix_of(line) {
        let rest = body.skip(e);
        Some((trim(line.skip(2)), rest.skip(leading_breaks(rest) as int)))
    } else {
        None
    }
}

/// The title and text of `body`; without a title line the title is `Untitled`
/// and the text is all of `body`.
pub open spec fn title_and_text(body: Seq<char>) -> (Seq<char>, Seq<char>) {
    match title_of(body) {
        Some(found) => found,
        None => (untitled(), body),
    }
}

/// The document with the given header, title and text. A text that is not
/// empty is set off by an empty line and ends with a line break.
pub open spec fn document_of(header: Seq<char>, title: Seq<char>, body: Seq<char>) -> Seq<char> {
    let top = delimiter() + seq!['\n'] + header + delimiter() + seq!['\n', '\n'] + heading() + title
        + seq!['\n'];
    if body.len() == 0 {
        top
    } else if body.last() == '\n' {
        top + seq!['\n'] + body
    } else {
        top + seq!['\n'] + body + seq!['\n']
    }
}

/// A header that can be framed: set between the delimiter lines, the first
/// closing delimiter is the one after it. Such a header is empty or ends with a
/// line break, and no line of it begins with the delimiter.
pub open spec fn is_header(header: Seq<char>) -> bool {
    first_occurrence(seq!['\n'] + header + delimiter(), closing()) == Some(header.len() as int)
}

/// A title that can stand on a title line: not empty, on one line, with no
/// white space at either end.
pub open spec fn is_title(title: Seq<char>) -> bool {
    &&& title.len() > 0
    &&& !is_space(title[0])
    &&& !is_space(title.last())
    &&& forall|i: int| 0 <= i < title.len() ==> title[i] != '\n'
}

/// What is read back of a text that was written into a document: the text
/// without the white space at its end and the line breaks at its start.
pub open spec fn text_as_read(body: Seq<char>) -> Seq<char> {
    let kept = trim_end(body);
    kept.skip(leading_breaks(kept) as int)
}

/// What follows the header in a document, as it is read back.
spec fn text_part(title: Seq<char>, body: Seq<char>) -> Seq<char> {
    let kept = trim_end(body);
    if kept.len() > 0 {
        heading() + title + seq!['\n', '\n'] + kept
    } else {
        heading() + title
    }
}

proof fn lemma_trim_document(header: Seq<char>, title: Seq<char>, body: Seq<char>)
    requires
        is_title(title),
    ensures
        trim(document_of(header, title, body)) == delimiter() + seq!['\n'] + header + delimiter()
            + seq!['\n', '\n'] + text_part(title, body),
{
    let d = document_of(header, title, body);
    let p = delimiter() + seq!['\n'] + header + delimiter() + seq!['\n', '\n'] + heading() + title;
    let kept = trim_end(body);
    let want = delimiter() + seq!['\n'] + header + delimiter() + seq!['\n', '\n'] + text_part(
        title,
        body,
    );
    lemma_trailing_space_bounds(body);
    assert(p.len() == header.len() + title.len() + 11);
    assert(p[p.len() - 1] == title.last());
    assert(d[0] == '-');
    assert(is_space('\n'));
    if kept.len() > 0 {
        let hi = (p.len() + 2 + kept.len()) as int;
        assert(d.len() >= p.len() + 2 + body.len());
        assert forall|j: int| p.len() + 2 <= j < p.len() + 2 + body.len() implies d[j] == body[j
            - p.len() - 2] by {}
        assert(d[hi - 1] == body[kept.len() - 1]);
        assert forall|j: int| hi <= j < d.len() implies is_space(#[trigger] d[j]) by {
            if j < p.len() + 2 + body.len() {
                assert(d[j] == body[j - p.len() - 2]);
            }
        }
        lemma_trim_is(d, 0, hi);
        assert(d.subrange(0, hi) =~= want);
    } else {
        let hi = p.len() as int;
        assert forall|j: int| hi <= j < d.len() implies is_space(#[trigger] d[j]) by {
            if p.len() + 2 <= j < p.len() + 2 + body.len() {
                assert(d[j] == body[j - p.len() - 2]);
            }
        }
        assert(d[hi - 1] == title.last());
        lemma_trim_is(d, 0, hi);
        assert(d.subrange(0, hi) =~= want);
    }
}

proof fn lemma_frame(header: Seq<char>, title: Seq<char>, body: Seq<char>)
    requires
        is_header(header),
        is_title(title),
    ensures
        frame_of(document_of(header, title, body)) == Ok::<(Seq<char>, Seq<char>), Malformed>(
            (trim(header), text_part(title, body)),
        ),
{
    let d = document_of(header, title, body);
    let h = header.len() as int;
    lemma_trim_document(header, title, body);
    let text = trim(d);
    assert(delimiter().is_prefix_of(text));
    let rest = text.skip(3);
    let a = seq!['\n'] + header + delimiter();
    let b = seq!['\n', '\n'] + text_part(title, body);
    assert(rest =~= a + b);
    lemma_first_occurrence_extend(a, b, closing(), h);
    lemma_first_occurrence_bounds(a, closing(), 0);
    assert(occurs_at(a, closing(), h));
    assert(a.subrange(h, h + 4)[0] == closing()[0]);
    assert(a[h] == '\n');
    assert(is_space('\n'));
    // the header
    if h == 0 {
        assert(rest.take(h) =~= header);
    } else {
        let inner = header.drop_last();
        assert(header.last() == a[h]);
        assert(header =~= inner.push('\n'));
        assert(rest.take(h) =~= seq!['\n'] + inner);
        lemma_trim_after_space('\n', inner);
        lemma_trim_before_space(inner, '\n');
    }
    // the text
    let part = text_part(title, body);
    lemma_trailing_space_bounds(body);
    assert(rest.skip(h + 4) =~= b);
    assert(part[0] == '#');
    assert(b[2] == '#');
    let kept = trim_end(body);
    if kept.len() > 0 {
        assert(b[b.len() - 1] == body[kept.len() - 1]);
    } else {
        assert(b[b.len() - 1] == title.last());
    }
    lemma_trim_is(b, 2, b.len() as int);
    assert(b.subrange(2, b.len() as int) =~= part);
}

proof fn lemma_title(title: Seq<char>, body: Seq<char>)
    requires
        is_title(title),
    ensures
        title_of(text_part(title, body)) == Some((title, text_as_read(body))),
{
    let part = text_part(title, body);
    let kept = trim_end(body);
    let t = title.len() as int;
    assert(part[0] == '#');
    lemma_leading_space(part, 0);
    assert forall|j: int| 0 <= j < 2 + t implies part[j] != '\n' by {
        if j >= 2 {
            assert(part[j] == title[j - 2]);
        }
    }
    lemma_line_end(part, 0, 2 + t);
    assert(part[2 + t - 1] == title.last());
    assert(is_space('\r'));
    assert(content_end(part, 0) == 2 + t);
    let first = part.subrange(0, 2 + t);
    assert(first =~= heading() + title);
    lemma_trim_is(first, 0, 2 + t);
    assert(first.subrange(0, 2 + t) =~= first);
    assert(heading().is_prefix_of(first));
    assert(first.skip(2) =~= title);
    lemma_trim_is(title, 0, t);
    assert(title.subrange(0, t) =~= title);
    let rest = part.skip(2 + t);
    if kept.len() > 0 {
        assert(rest =~= seq!['\n', '\n'] + kept);
        let one = rest.drop_first();
        assert(one =~= seq!['\n'] + kept);
        assert(one.drop_first() =~= kept);
        assert(rest[0] == '\n');
        assert(leading_breaks(rest) == 1 + leading_breaks(one));
        assert(one[0] == '\n');
        assert(leading_breaks(one) == 1 + leading_breaks(kept));
        lemma_leading_breaks_bound(kept);
        assert(rest.skip(leading_breaks(rest) as int) =~= kept.skip(leading_breaks(kept) as int));
    } else {
        assert(rest =~= kept);
    }
}

/// Writing a header, a title and a text into a document and reading the
/// document again gives back the header, trimmed, the title, and the text
/// without the white space at its end and the line breaks at its start.
pub proof fn lemma_document_round_trip(header: Seq<char>, title: Seq<char>, body: Seq<char>)
    requires
        is_header(header),
        is_title(title),
    ensures
        frame_of(document_of(header, title, body)) is Ok,
        frame_of(document_of(header, title, body))->Ok_0.0 == trim(header),
        title_and_text(frame_of(document_of(header, title, body))->Ok_0.1) == (
            title,
            text_as_read(body),
        ),
{
    lemma_frame(header, title, body);
    lemma_title(title, body);
}

/// A text that neither begins with a line break nor ends with white space is
/// read back as it was written.
pub proof fn lemma_text_kept(body: Seq<char>)
    requires
        body.len() > 0 ==> body[0] != '\n' && !is_space(body.last()),
    ensures
        text_as_read(body) == body,
{
    assert(trailing_space(body) == 0);
    assert(trim_end(body) =~= body);
    assert(leading_breaks(body) == 0);
    assert(body.skip(0) =~= body);
}

proof fn lemma_line_end(s: Seq<char>, from: int, nl: int)
    requires
        0 <= from <= nl <= s.len(),
        forall|j: int| from <= j < nl ==> s[j] != '\n',
        nl == s.len() || s[nl] == '\n',
    ensures
        line_end(s, from) == nl,
    decreases nl - from,
{
    if from < nl {
        lemma_line_end(s, from + 1, nl);
    }
}

proof fn lemma_leading_breaks_bound(s: Seq<char>)
    ensures
        leading_breaks(s) <= s.len(),
    decreases s.len(),
{
    if s.len() > 0 && s[0] == '\n' {
        lemma_leading_breaks_bound(s.drop_first());
    }
}

proof fn lemma_leading_breaks(s: Seq<char>, k: int)
    requires
        0 <= k <= s.len(),
        forall|j: int| 0 <= j < k ==> s[j] == '\n',
        k == s.len() || s[k] != '\n',
    ensures
        leading_breaks(s) == k,
    decreases k,
{
    if k > 0 {
        let t = s.drop_first();
        assert forall|j: int| 0 <= j < k - 1 implies t[j] == '\n' by {
            assert(t[j] == s[j + 1]);
        }
        lemma_leading_breaks(t, k - 1);
    }
}

/// The header and the text of a document, both trimmed.
///
/// The document must begin, white space aside, with the delimiter; the header
/// runs up to the first line break that the delimiter follows.
pub fn split_document(content: &str) -> (r: Result<(String, String), Error>)
    ensures
        match frame_of(content@) {
            Ok(parts) => r is Ok && r->Ok_0.0@ == parts.0 && r->Ok_0.1@ == parts.1,
            Err(e) => r == Err::<(String, String), Error>(Error::Parse(e)),
        },
{
    let chars = to_chars(content);
    let text = trimmed(chars.as_slice());
    let open: Vec<char> = vec!['-', '-', '-'];
    let close: Vec<char> = vec!['\n', '-', '-', '-'];
    assert(open@ == delimiter());
    assert(close@ == closing());
    if !has_prefix(text, open.as_slice()) {
        return Err(Error::Parse(Malformed::MissingHeader));
    }
    let rest = slice_subrange(text, 3, text.len());
    assert(rest@ == trim(content@).skip(3));
    match find(rest, close.as_slice()) {
        None => Err(Error::Parse(Malformed::UnclosedHeader)),
        Some(end) => {
            proof {
                lemma_first_occurrence_bounds(rest@, close@, 0);
            }
            let header = trimmed(slice_subrange(rest, 0, end));
            let body = trimmed(slice_subrange(rest, end + 4, rest.len()));
            assert(rest@.subrange(0, end as int) == rest@.take(end as int));
            assert(rest@.subrange(end + 4, rest.len() as int) == rest@.skip(end + 4));
            Ok((string_of(header), string_of(body)))
        },
    }
}

/// The title of `body` and the text under it.
///
/// The first line that is not blank gives the title if it is a heading line;
/// the text is then what follows that line, without the line breaks it begins
/// with. Otherwise the title is `Untitled` and the text is all of `body`.
pub fn extract_title(body: &str) -> (r: (String, &str))
    ensures
        r.0@ == title_and_text(body@).0,
        r.1@ == title_and_text(body@).1,
{
    let v = to_chars(body);
    let n: usize = v.len();
    let k: usize = count_leading_space(v.as_slice());
    if k == n {
        return ("Untitled".to_owned(), body);
    }
    let mut nl: usize = k;
    while nl < n && v[nl] != '\n'
        invariant
            k <= nl <= n,
            n == v.len(),
            forall|j: int| k <= j < nl ==> v@[j] != '\n',
        decreases n - nl,
    {
        nl += 1;
    }
    proof {
        lemma_line_end(v@, k as int, nl as int);
    }
    let e: usize = if k < nl && nl < n && v[nl - 1] == '\r' {
        nl - 1
    } else {
        nl
    };
    let line = trimmed(slice_subrange(v.as_slice(), k, e));
    let mark: Vec<char> = vec!['#', ' '];
    assert(mark@ == heading());
    if !has_prefix(line, mark.as_slice()) {
        return ("Untitled".to_owned(), body);
    }
    let title = string_of(trimmed(slice_subrange(line, 2, line.len())));
    assert(line@.subrange(2, line.len() as int) == line@.skip(2));
    let mut from: usize = e;
    while from < n && v[from] == '\n'
        invariant
            e <= from <= n,
            n == v.len(),
            forall|j: int| e <= j < from ==> v@[j] == '\n',
        decreases n - from,
    {
        from += 1;
    }
    proof {
        let rest = v@.skip(e as int);
        assert forall|j: int| 0 <= j < from - e implies rest[j] == '\n' by {
            assert(rest[j] == v@[e + j]);
        }
        lemma_leading_breaks(rest, from - e);
        assert(rest.skip(from - e) == v@.subrange(from as int, n as int));
    }
    (title, body.substring_char(from, n))
}

/// The document with the given header, title and text.
pub fn render_document(header: &str, title: &str, body: &str) -> (r: String)
    ensures
        r@ == document_of(header@, title@, body@),
{
    let mut r = String::new();
    r.push('-');
    r.push('-');
    r.push('-');
    r.push('\n');
    r.append(header);
    r.push('-');
    r.push('-');
    r.push('-');
    r.push('\n');
    r.push('\n');
    r.push('#');
    r.push(' ');
    r.append(title);
    r.push('\n');
    let text = to_chars(body);
    if text.len() > 0 {
        r.push('\n');
        r.append(body);
        if text[text.len() - 1] != '\n' {
            r.push('\n');
        }
    }
    assert(r@ == document_of(header@, title@, body@));
    r
}

/// The title that `title_and_text` finds can stand on a title line again.
pub proof fn lemma_title_found_is_title(body: Seq<char>)
    ensures
        is_title(title_and_text(body).0),
{
    match title_of(body) {
        None => {
            reveal_strlit("Untitled");
            assert(untitled().len() == 8);
        },
        Some(found) => {
            let k = leading_space(body) as int;
            let e = content_end(body, k);
            let line = trim(body.subrange(k, e));
            // the line has no break, and neither has any part of it
            lemma_line_bounds(body, k);
            let whole = body.subrange(k, e);
            let (a, b) = lemma_trim_bounds(whole);
            assert(line == whole.subrange(a, b));
            let rest = line.skip(2);
            let (c, d) = lemma_trim_bounds(rest);
            let title = rest.subrange(c, d);
            assert(found.0 == title);
            // the line ends with a character that is not white space, after the mark
            assert(line.len() >= 2);
            assert(line[1] == ' ');
            assert(b - a >= 2);
            assert(!is_space(whole[b - 1]));
            assert(line[line.len() - 1] == whole[b - 1]);
            assert(line.len() > 2);
            assert(rest[rest.len() - 1] == line[line.len() - 1]);
            assert(c < d) by {
                if c >= d {
                    assert(is_space(rest[rest.len() - 1]));
                }
            }
            assert(title[0] == rest[c]);
            assert(title.last() == rest[d - 1]);
            assert forall|i: int| 0 <= i < title.len() implies title[i] != '\n' by {
                assert(title[i] == rest[c + i]);
                assert(rest[c + i] == line[c + i + 2]);
                assert(line[c + i + 2] == whole[a + c + i + 2]);
                assert(whole[a + c + i + 2] == body[k + a + c + i + 2]);
            }
        },
    }
}

/// The line from `from` on holds no line break before its end.
proof fn lemma_line_bounds(s: Seq<char>, from: int)
    requires
        0 <= from <= s.len(),
    ensures
        from <= content_end(s, from) <= line_end(s, from) <= s.len(),
        forall|j: int| from <= j < line_end(s, from) ==> s[j] != '\n',
    decreases s.len() - from,
{
    if from < s.len() && s[from] != '\n' {
        lemma_line_bounds(s, from + 1);
    }
}

/// Whether `header` can be framed. See `is_header`.
pub fn fits_as_header(header: &str) -> (b: bool)
    ensures
        b == is_header(header@),
{
    let chars = to_chars(header);
    let mut framed: Vec<char> = Vec::new();
    framed.push('\n');
    let mut i: usize = 0;
    while i < chars.len()
        invariant
            i <= chars.len(),
            framed@ == seq!['\n'] + chars@.take(i as int),
        decreases chars.len() - i,
    {
        framed.push(chars[i]);
        assert(chars@.take(i + 1) =~= chars@.take(i as int).push(chars@[i as int]));
        assert(framed@ =~= seq!['\n'] + chars@.take(i + 1));
        i += 1;
    }
    assert(chars@.take(i as int) =~= chars@);
    framed.push('-');
    framed.push('-');
    framed.push('-');
    assert(framed@ =~= seq!['\n'] + header@ + delimiter());
    let close: Vec<char> = vec!['\n', '-', '-', '-'];
    assert(close@ == closing());
    match find(framed.as_slice(), close.as_slice()) {
        Some(at) => at == chars.len(),
        None => false,
    }
}

/// Whether `title` can stand on a title line. See `is_title`.
pub fn fits_as_title(title: &str) -> (b: bool)
    ensures
        b == is_title(title@),
{
    let chars = to_chars(title);
    let n: usize = chars.len();
    if n == 0 || is_whitespace(chars[0]) || is_whitespace(chars[n - 1]) {
        return false;
    }
    let mut i: usize = 0;
    while i < n
        invariant
            i <= n,
            n == chars.len(),
            chars@ == title@,
            forall|j: int| 0 <= j < i ==> chars@[j] != '\n',
        decreases n - i,
    {
        if chars[i] == '\n' {
            return false;
        }
        i += 1;
    }
    true
}

/// The document with the given header, title and text, if it can be read
/// back: the header and the title must fit. What is then read from the
/// document is the header, trimmed, the title, and the text without the white
/// space at its end and the line breaks at its start.
pub fn compose_document(header: &str, title: &str, body: &str) -> (r: Result<String, Error>)
    ensures
        !is_header(header@) ==> r == Err::<String, Error>(Error::Parse(Malformed::UnfitHeader)),
        is_header(header@) && !is_title(title@) ==> r == Err::<String, Error>(
            Error::Parse(Malformed::UnfitTitle),
        ),
        is_header(header@) && is_title(title@) ==> {
            &&& r is Ok
            &&& r->Ok_0@ == document_of(header@, title@, body@)
            &&& frame_of(r->Ok_0@) is Ok
            &&& frame_of(r->Ok_0@)->Ok_0.0 == trim(header@)
            &&& title_and_text(frame_of(r->Ok_0@)->Ok_0.1) == (title@, text_as_read(body@))
        },
{
    if !fits_as_header(header) {
        return Err(Error::Parse(Malformed::UnfitHeader));
    }
    if !fits_as_title(title) {
        return Err(Error::Parse(Malformed::UnfitTitle));
    }
    proof {
        lemma_document_round_trip(header@, title@, body@);
    }
    Ok(render_document(header, title, body))
}

} // verus!
