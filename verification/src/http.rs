//! The text of HTTP/1.1: what a request line and its headers say, and how a
//! response is written.

use vstd::prelude::*;

use crate::console::{Response, ResponseView};
use crate::text;

verus! {

/// The longest body that is read.
pub const BODY_LIMIT: usize = 1_048_576;

/// A small letter for a capital one, of those in ASCII.
pub open spec fn lower(c: char) -> char {
    if 'A' <= c && c <= 'Z' {
        ((c as u32 + 32) as u8) as char
    } else {
        c
    }
}

/// The name of the header that gives the length of the body, with its colon.
pub open spec fn length_header() -> Seq<char> {
    "content-length:"@
}

/// What a header line says.
pub enum HeaderView {
    /// The headers are over.
    End,
    /// The body has this length.
    Length(nat),
    /// Something that does not matter here.
    Other,
}

/// What a header line says: an empty one ends the headers; a length that is not a
/// number counts as none.
pub open spec fn header(line: Seq<char>) -> HeaderView {
    let s = text::without_tail(line, |c: char| text::is_space(c)).map_values(|c: char| lower(c));
    let name = length_header();
    if s.len() == 0 {
        HeaderView::End
    } else if s.len() >= name.len() && s.take(name.len() as int) == name {
        HeaderView::Length(
            match text::number(text::trimmed(s.skip(name.len() as int)), usize::MAX as nat) {
                Some(n) => n,
                None => 0,
            },
        )
    } else {
        HeaderView::Other
    }
}

/// The method and the path in a request line: its first two words.
pub open spec fn request_words(line: Seq<char>) -> Option<(Seq<char>, Seq<char>)> {
    let space = |c: char| text::is_space(c);
    let word = |c: char| !text::is_space(c);
    let a = text::past(line, 0, space);
    let b = text::past(line, a, word);
    let c = text::past(line, b, space);
    let d = text::past(line, c, word);
    if a < b && c < d {
        Some((line.subrange(a, b), line.subrange(c, d)))
    } else {
        None
    }
}

/// The phrase that goes with a status.
pub open spec fn reason_phrase(status: u16) -> Seq<char> {
    if status == 200 {
        "OK"@
    } else if status == 201 {
        "Created"@
    } else if status == 400 {
        "Bad Request"@
    } else if status == 404 {
        "Not Found"@
    } else if status == 429 {
        "Too Many Requests"@
    } else if status == 507 {
        "Insufficient Storage"@
    } else {
        "Internal Server Error"@
    }
}

/// A response as it is sent.
pub open spec fn response_message(r: ResponseView) -> Seq<char> {
    "HTTP/1.1 "@ + text::decimal(r.status as nat) + " "@ + reason_phrase(r.status) + "\r\nContent-Type: "@
        + r.content_type + "\r\nContent-Length: "@ + text::decimal(vstd::utf8::encode_utf8(r.body).len())
        + "\r\nConnection: close\r\n\r\n"@ + r.body
}

/// What a header line says.
#[derive(Debug, Clone, Copy, PartialEq, Eq, Structural)]
pub enum HeaderLine {
    End,
    Length(usize),
    Other,
}

impl View for HeaderLine {
    type V = HeaderView;

    open spec fn view(&self) -> HeaderView {
        match *self {
            HeaderLine::End => HeaderView::End,
            HeaderLine::Length(n) => HeaderView::Length(n as nat),
            HeaderLine::Other => HeaderView::Other,
        }
    }
}

fn lower_of(c: char) -> (r: char)
    ensures
        r == lower(c),
{
    if 'A' <= c && c <= 'Z' {
        ((c as u32 + 32) as u8) as char
    } else {
        c
    }
}

/// Whether a text begins with another.
fn begins_with(s: &Vec<char>, head: &Vec<char>) -> (r: bool)
    ensures
        r == (s@.len() >= head@.len() && s@.take(head@.len() as int) == head@),
{
    if s.len() < head.len() {
        return false;
    }
    let mut k: usize = 0;
    while k < head.len()
        invariant
            k <= head@.len() <= s@.len(),
            forall|j: int| 0 <= j < k ==> s@[j] == head@[j],
        decreases head.len() - k,
    {
        if s[k] != head[k] {
            assert(s@.take(head@.len() as int)[k as int] != head@[k as int]);
            return false;
        }
        k += 1;
    }
    assert(s@.take(head@.len() as int) =~= head@);
    true
}

/// Reads a header line.
pub fn read_header(line: &str) -> (r: HeaderLine)
    ensures
        r@ == header(line@),
{
    let s = text::chars_of(line);
    let name = text::chars_of("content-length:");
    let ghost space = |c: char| text::is_space(c);
    let mut n: usize = s.len();
    while n > 0 && text::space(s[n - 1])
        invariant
            n <= s@.len(),
            space == (|c: char| text::is_space(c)),
            text::before(s@, s@.len() as int, space) == text::before(s@, n as int, space),
        decreases n,
    {
        n -= 1;
    }
    let mut low: Vec<char> = Vec::new();
    let mut i: usize = 0;
    let ghost want = s@.take(n as int).map_values(|c: char| lower(c));
    while i < n
        invariant
            i <= n <= s@.len(),
            want == s@.take(n as int).map_values(|c: char| lower(c)),
            low@ == want.take(i as int),
        decreases n - i,
    {
        low.push(lower_of(s[i]));
        assert(want.take(i + 1) =~= want.take(i as int).push(want[i as int]));
        i += 1;
    }
    assert(low@ =~= want);
    if low.len() == 0 {
        return HeaderLine::End;
    }
    if !begins_with(&low, &name) {
        return HeaderLine::Other;
    }
    let rest = text::part(&low, name.len(), low.len());
    assert(rest@ =~= low@.skip(name@.len() as int));
    match text::parse_number(&text::trim(&rest), usize::MAX as u64) {
        Some(v) => HeaderLine::Length(v as usize),
        None => HeaderLine::Length(0),
    }
}

/// How much of a body of the given length is read: no more than the limit.
pub open spec fn read_of(content_length: usize) -> usize {
    if content_length < BODY_LIMIT {
        content_length
    } else {
        BODY_LIMIT
    }
}

/// How much of a body of the given length is read.
pub fn body_to_read(content_length: usize) -> (n: usize)
    ensures
        n == read_of(content_length),
{
    if content_length < BODY_LIMIT {
        content_length
    } else {
        BODY_LIMIT
    }
}

fn skip_space(s: &Vec<char>, i: usize) -> (r: usize)
    requires
        i <= s@.len(),
    ensures
        r == text::past(s@, i as int, |c: char| text::is_space(c)),
        i <= r <= s@.len(),
{
    let ghost p = |c: char| text::is_space(c);
    let mut k: usize = i;
    while k < s.len() && text::space(s[k])
        invariant
            i <= k <= s@.len(),
            p == (|c: char| text::is_space(c)),
            text::past(s@, i as int, p) == text::past(s@, k as int, p),
        decreases s.len() - k,
    {
        k += 1;
    }
    k
}

fn skip_word(s: &Vec<char>, i: usize) -> (r: usize)
    requires
        i <= s@.len(),
    ensures
        r == text::past(s@, i as int, |c: char| !text::is_space(c)),
        i <= r <= s@.len(),
{
    let ghost p = |c: char| !text::is_space(c);
    let mut k: usize = i;
    while k < s.len() && !text::space(s[k])
        invariant
            i <= k <= s@.len(),
            p == (|c: char| !text::is_space(c)),
            text::past(s@, i as int, p) == text::past(s@, k as int, p),
        decreases s.len() - k,
    {
        k += 1;
    }
    k
}

/// Reads a request line: the method and the path.
pub fn read_request_line(line: &str) -> (r: Option<(String, String)>)
    ensures
        match r {
            Some((method, path)) => request_words(line@) == Some((method@, path@)),
            None => request_words(line@) is None,
        },
{
    let s = text::chars_of(line);
    let a: usize = skip_space(&s, 0);
    let b: usize = skip_word(&s, a);
    let c: usize = skip_space(&s, b);
    let d: usize = skip_word(&s, c);
    if a < b && c < d {
        Some((text::text_of(&text::part(&s, a, b)), text::text_of(&text::part(&s, c, d))))
    } else {
        None
    }
}

fn reason(status: u16) -> (s: &'static str)
    ensures
        s@ == reason_phrase(status),
{
    if status == 200 {
        "OK"
    } else if status == 201 {
        "Created"
    } else if status == 400 {
        "Bad Request"
    } else if status == 404 {
        "Not Found"
    } else if status == 429 {
        "Too Many Requests"
    } else if status == 507 {
        "Insufficient Storage"
    } else {
        "Internal Server Error"
    }
}

/// Writes a response as it is sent.
pub fn response_text(r: &Response) -> (s: String)
    ensures
        s@ == response_message(r@),
{
    let mut s = text::around("HTTP/1.1 ", r.status as u64, " ");
    s.append(reason(r.status));
    s.append("\r\nContent-Type: ");
    s.append(r.content_type);
    s.append("\r\nContent-Length: ");
    s.append(text::decimal_text(r.body.as_str().as_bytes().len() as u64).as_str());
    s.append("\r\nConnection: close\r\n\r\n");
    s.append(r.body.as_str());
    s
}

/// A request line gives its first two words, whatever blanks stand around them: neither
/// holds white space, and only white space stands before, between and after. With fewer
/// words it gives nothing.
pub proof fn law_request_lines_have_two_words(line: Seq<char>)
    ensures
        match request_words(line) {
            Some((method, path)) => exists|a: int, b: int, c: int, d: int|
                {
                    &&& 0 <= a < b < c < d <= line.len()
                    &&& method == #[trigger] line.subrange(a, b) && path == #[trigger] line.subrange(c, d)
                    &&& forall|k: int| 0 <= k < a || b <= k < c ==> text::is_space(#[trigger] line[k])
                    &&& forall|k: int| a <= k < b || c <= k < d ==> !text::is_space(#[trigger] line[k])
                    &&& d < line.len() ==> text::is_space(line[d])
                },
            None => exists|a: int, b: int|
                {
                    &&& 0 <= a <= b <= line.len()
                    &&& forall|k: int| 0 <= k < a || b <= k < line.len() ==> text::is_space(#[trigger] line[k])
                    &&& forall|k: int| a <= k < b ==> !text::is_space(#[trigger] line[k])
                    &&& #[trigger] line.subrange(a, b).len() == b - a
                },
        },
{
    let space = |c: char| text::is_space(c);
    let word = |c: char| !text::is_space(c);
    let a = text::past(line, 0, space);
    text::law_runs_are_taken_whole(line, 0, space);
    let b = text::past(line, a, word);
    text::law_runs_are_taken_whole(line, a, word);
    let c = text::past(line, b, space);
    text::law_runs_are_taken_whole(line, b, space);
    let d = text::past(line, c, word);
    text::law_runs_are_taken_whole(line, c, word);
    assert forall|k: int| 0 <= k < a || b <= k < c implies text::is_space(#[trigger] line[k]) by {
        assert(space(line[k]));
    }
    assert forall|k: int| a <= k < b || c <= k < d implies !text::is_space(#[trigger] line[k]) by {
        assert(word(line[k]));
    }
    if a < b && c < d {
        assert(!word(line[b]));
        if d < line.len() {
            assert(!word(line[d]));
        }
        assert(request_words(line) == Some((line.subrange(a, b), line.subrange(c, d))));
    } else {
        if a < line.len() {
            assert(!space(line[a]));
        }
        if c < line.len() {
            assert(!space(line[c]));
        }
        assert(c == line.len());
        assert(line.subrange(a, b).len() == b - a);
    }
}

/// Capitals do not matter in a header, and a line of white space ends the headers. The
/// length of the body is the number after the name, blanks around it aside, and none if it
/// is not a number.
pub proof fn law_headers(line: Seq<char>, other: Seq<char>, value: Seq<char>)
    requires
        value.len() > 0,
        !text::is_space(value.last()),
    ensures
        line.len() == other.len() && (forall|i: int|
            0 <= i < line.len() ==> text::is_space(#[trigger] line[i]) == text::is_space(other[i]) && lower(line[i])
                == lower(other[i])) ==> header(line) == header(other),
        header(line) is End <==> forall|i: int| 0 <= i < line.len() ==> text::is_space(#[trigger] line[i]),
        header("content-length:"@ + value) == HeaderView::Length(
            match text::number(text::trimmed(value.map_values(|c: char| lower(c))), usize::MAX as nat) {
                Some(n) => n,
                None => 0,
            },
        ),
{
    let space = |c: char| text::is_space(c);
    let n = text::before(line, line.len() as int, space);
    lemma_tail(line, line.len() as int);
    if line.len() == other.len() && (forall|i: int|
        0 <= i < line.len() ==> text::is_space(#[trigger] line[i]) == text::is_space(other[i]) && lower(line[i])
            == lower(other[i])) {
        lemma_same_tail(line, other, line.len() as int);
        lemma_tail(other, other.len() as int);
        let a = text::without_tail(line, space).map_values(|c: char| lower(c));
        let b = text::without_tail(other, space).map_values(|c: char| lower(c));
        assert forall|i: int| 0 <= i < a.len() implies a[i] == b[i] by {
            assert(text::is_space(line[i]) == text::is_space(other[i]));
        }
        assert(a =~= b);
    }
    if forall|i: int| 0 <= i < line.len() ==> text::is_space(#[trigger] line[i]) {
        if n > 0 {
            assert(text::is_space(line[n - 1]));
        }
    }
    let s = text::without_tail(line, space).map_values(|c: char| lower(c));
    assert(s.len() == n);
    reveal_strlit("content-length:");
    let name = "content-length:"@;
    let whole = name + value;
    assert(whole.last() == value.last());
    assert(text::before(whole, whole.len() as int, space) == whole.len());
    let t = text::without_tail(whole, space).map_values(|c: char| lower(c));
    assert(text::without_tail(whole, space) =~= whole);
    assert forall|i: int| 0 <= i < name.len() implies lower(#[trigger] name[i]) == name[i] by {
    }
    assert(t.take(name.len() as int) =~= name);
    assert(t.skip(name.len() as int) =~= value.map_values(|c: char| lower(c)));
}

/// The white space at the end of a line.
proof fn lemma_tail(s: Seq<char>, n: int)
    requires
        0 <= n <= s.len(),
    ensures
        ({
            let m = text::before(s, n, |c: char| text::is_space(c));
            &&& 0 <= m <= n
            &&& forall|k: int| m <= k < n ==> text::is_space(#[trigger] s[k])
            &&& m > 0 ==> !text::is_space(s[m - 1])
        }),
    decreases n,
{
    if n > 0 && text::is_space(s[n - 1]) {
        lemma_tail(s, n - 1);
    }
}

/// Lines with white space in the same places have as much of it at the end.
proof fn lemma_same_tail(s: Seq<char>, t: Seq<char>, n: int)
    requires
        0 <= n <= s.len(),
        s.len() == t.len(),
        forall|i: int| 0 <= i < s.len() ==> text::is_space(#[trigger] s[i]) == text::is_space(t[i]),
    ensures
        text::before(s, n, |c: char| text::is_space(c)) == text::before(t, n, |c: char| text::is_space(c)),
    decreases n,
{
    if n > 0 {
        assert(text::is_space(s[n - 1]) == text::is_space(t[n - 1]));
        lemma_same_tail(s, t, n - 1);
    }
}

/// Small letters for capitals, of those in ASCII, and nothing else.
pub proof fn law_small_letters(c: char)
    ensures
        'A' <= c && c <= 'Z' ==> lower(c) as u32 == c as u32 + 32,
        lower('A') == 'a' && lower('L') == 'l' && lower('Z') == 'z',
        !('A' <= c && c <= 'Z') ==> lower(c) == c,
{
}

/// The phrases of the statuses that the console answers with; any other is an error of
/// the server.
pub proof fn law_reason_phrases(status: u16)
    ensures
        reason_phrase(200) == "OK"@,
        reason_phrase(201) == "Created"@,
        reason_phrase(400) == "Bad Request"@,
        reason_phrase(404) == "Not Found"@,
        reason_phrase(429) == "Too Many Requests"@,
        reason_phrase(507) == "Insufficient Storage"@,
        status != 200 && status != 201 && status != 400 && status != 404 && status != 429 && status != 507
            ==> reason_phrase(status) == "Internal Server Error"@,
{
}

/// A response ends with its body, after a blank line; before that it says the status with
/// its phrase, the type of the body, its length in bytes, and that the connection closes.
pub proof fn law_responses_end_with_the_body(r: ResponseView)
    ensures
        ({
            let m = response_message(r);
            let n = text::decimal(vstd::utf8::encode_utf8(r.body).len());
            let first = "HTTP/1.1 "@ + text::decimal(r.status as nat) + " "@ + reason_phrase(r.status);
            let kind = "\r\nContent-Type: "@ + r.content_type;
            let length = "\r\nContent-Length: "@ + n;
            let end = "\r\nConnection: close\r\n\r\n"@;
            let head = first.len() + kind.len() + length.len() + end.len();
            &&& m.len() == head + r.body.len()
            &&& m.skip(head as int) == r.body
            &&& m.take(first.len() as int) == first
            &&& m.subrange(first.len() as int, (first.len() + kind.len()) as int) == kind
            &&& m.subrange((first.len() + kind.len()) as int, (head - end.len()) as int) == length
            &&& m.subrange((head - end.len()) as int, head as int) == end
        }),
{
}

/// A body is read whole up to one mebibyte, and of a longer one that much.
pub proof fn law_bodies_are_read_up_to_a_limit(content_length: usize)
    ensures
        content_length <= 1024 * 1024 ==> read_of(content_length) == content_length,
        content_length > 1024 * 1024 ==> read_of(content_length) == 1024 * 1024,
{
}

} // verus!
