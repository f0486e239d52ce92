//! The requests that the local control interface reads, and the answers that it gives.

use crate::text::{
    after_space, after_word, cat3, chars_of, decimal, drop_space, find_char, is_digit, is_space,
    lemma_decimal_digits, lemma_decimal_reads_back, lemma_position, lossy_text, lowered, number,
    parse, parsed, position, same_ignoring_case, same_text_ignoring_case, skip_space, skip_word,
    text_from_bytes, text_of, trim, trimmed,
};
use vstd::prelude::*;
use vstd::slice::slice_subrange;

verus! {

/// A request of more bytes than this is refused, unless it is complete.
pub const MAX_REQUEST_BYTES: usize = 2_097_152;

// ---------------------------------------------------------------------------------------------
// The head of a request
// ---------------------------------------------------------------------------------------------

/// Whether a blank line begins at an index: the end of a line, and right after it another one.
pub open spec fn blank_line_at(data: Seq<u8>, i: int) -> bool {
    &&& 0 <= i
    &&& i + 4 <= data.len()
    &&& data[i] == 13
    &&& data[i + 1] == 10
    &&& data[i + 2] == 13
    &&& data[i + 3] == 10
}

/// Where the head of a request ends: the first blank line.
pub open spec fn header_end(data: Seq<u8>) -> Option<int> {
    header_end_from(data, 0)
}

/// The first blank line at or after an index.
pub open spec fn header_end_from(data: Seq<u8>, from: int) -> Option<int>
    decreases data.len() - from,
{
    if from >= data.len() {
        None
    } else if blank_line_at(data, from) {
        Some(from)
    } else {
        header_end_from(data, from + 1)
    }
}

/// What `header_end_from` says: the place holds a blank line, and no place before it does.
pub proof fn lemma_header_end(data: Seq<u8>, from: int)
    requires
        0 <= from,
    ensures
        match header_end_from(data, from) {
            Some(e) => {
                &&& from <= e
                &&& blank_line_at(data, e)
                &&& forall|j: int| from <= j < e ==> !blank_line_at(data, j)
            },
            None => forall|j: int| from <= j ==> !blank_line_at(data, j),
        },
    decreases data.len() - from,
{
    if from < data.len() {
        lemma_header_end(data, from + 1);
    }
}

/// Where the head of a request ends.
pub fn find_header_end(data: &[u8]) -> (r: Option<usize>)
    ensures
        match r {
            Some(e) => header_end(data@) == Some(e as int) && e + 4 <= data@.len(),
            None => header_end(data@) is None,
        },
{
    let mut i: usize = 0;
    while i < data.len()
        invariant
            i <= data@.len(),
            header_end(data@) == header_end_from(data@, i as int),
        decreases data@.len() - i,
    {
        if data.len() - i >= 4 && data[i] == 13 && data[i + 1] == 10 && data[i + 2] == 13 && data[i
            + 3] == 10 {
            return Some(i);
        }
        i += 1;
    }
    None
}

/// The index of the line after the one that begins at `from`; the length of the text, where that
/// is the last one.
pub open spec fn next_line(s: Seq<char>, from: int) -> int {
    let end = position(s, '\n', from);
    if end < s.len() {
        end + 1
    } else {
        s.len() as int
    }
}

/// The line that begins at `from`, without its end.
pub open spec fn line_at(s: Seq<char>, from: int) -> Seq<char> {
    let end = position(s, '\n', from);
    if end < s.len() && end > from && s[end - 1] == '\r' {
        s.subrange(from, end - 1)
    } else {
        s.subrange(from, end)
    }
}

/// The number of bytes that a line of the head announces for the body.
pub open spec fn announced_by(line: Seq<char>) -> Option<nat> {
    let colon = position(line, ':', 0);
    if colon < line.len() && same_ignoring_case(line.take(colon), "content-length"@) {
        parsed(trimmed(line.skip(colon + 1)), usize::MAX as nat)
    } else {
        None
    }
}

/// The number of bytes that the first such line from `from` on announces for the body.
pub open spec fn announced_from(head: Seq<char>, from: int) -> Option<nat>
    decreases head.len() - from,
{
    if from < 0 || from >= head.len() {
        None
    } else {
        proof {
            lemma_position(head, '\n', from);
        }
        match announced_by(line_at(head, from)) {
            Some(n) => Some(n),
            None => announced_from(head, next_line(head, from)),
        }
    }
}

/// How long a body the head of a request announces: none, where it is silent.
pub open spec fn body_length(head: Seq<char>) -> nat {
    match announced_from(head, 0) {
        Some(n) => n,
        None => 0,
    }
}

fn line_end(chars: &Vec<char>, from: usize, newline: usize) -> (end: usize)
    requires
        from <= chars@.len(),
        newline == position(chars@, '\n', from as int),
        from <= newline <= chars@.len(),
    ensures
        from <= end <= newline,
        chars@.subrange(from as int, end as int) == line_at(chars@, from as int),
{
    if newline < chars.len() && newline > from && chars[newline - 1] == '\r' {
        newline - 1
    } else {
        newline
    }
}

fn announced(line: &str) -> (r: Option<usize>)
    ensures
        match r {
            Some(n) => announced_by(line@) == Some(n as nat),
            None => announced_by(line@) is None,
        },
{
    let chars = chars_of(line);
    let colon = find_char(&chars, ':', 0);
    if colon < chars.len() {
        let name = text_of(&chars, 0, colon);
        assert(name@ =~= line@.take(colon as int));
        if same_text_ignoring_case(name.as_str(), "content-length") {
            let value = text_of(&chars, colon + 1, chars.len());
            assert(value@ =~= line@.skip(colon + 1));
            match parse(trim(value.as_str()).as_str(), usize::MAX as u64) {
                Some(n) => {
                    return Some(n as usize);
                },
                None => {
                    return None;
                },
            }
        }
    }
    None
}

/// How long a body the head of a request announces.
pub fn content_length(head: &str) -> (r: usize)
    ensures
        r == body_length(head@),
{
    let chars = chars_of(head);
    let mut from: usize = 0;
    while from < chars.len()
        invariant
            chars@ == head@,
            from <= chars@.len(),
            announced_from(head@, 0) == announced_from(head@, from as int),
        decreases chars@.len() - from,
    {
        let newline = find_char(&chars, '\n', from);
        let end = line_end(&chars, from, newline);
        let line = text_of(&chars, from, end);
        match announced(line.as_str()) {
            Some(n) => {
                return n;
            },
            None => {},
        }
        from = if newline < chars.len() {
            newline + 1
        } else {
            newline
        };
    }
    0
}

/// The first word of a text; nothing, where there is none.
pub open spec fn first_word(s: Seq<char>) -> Seq<char> {
    let from = skip_space(s, 0);
    s.subrange(from, skip_word(s, from))
}

/// Where the second word of a text begins; the length of the text, where there is none.
pub open spec fn second_word_start(s: Seq<char>) -> int {
    skip_space(s, skip_word(s, skip_space(s, 0)))
}

/// The second word of a text; a slash, where there is none.
pub open spec fn second_word(s: Seq<char>) -> Seq<char> {
    let from = second_word_start(s);
    if from < s.len() {
        s.subrange(from, skip_word(s, from))
    } else {
        "/"@
    }
}

/// A text up to its first question mark.
pub open spec fn without_query(s: Seq<char>) -> Seq<char> {
    s.take(position(s, '?', 0))
}

/// The method that a request line names.
pub open spec fn method_of(head: Seq<char>) -> Seq<char> {
    first_word(line_at(head, 0))
}

/// The path that a request line names, without its query.
pub open spec fn path_of(head: Seq<char>) -> Seq<char> {
    without_query(second_word(line_at(head, 0)))
}

/// The method and the path that the head of a request names. An empty head names none.
pub fn request_line(head: &str) -> (r: Result<(String, String), String>)
    ensures
        match r {
            Ok((method, path)) => head@.len() > 0 && method@ == method_of(head@) && path@
                == path_of(head@),
            Err(e) => head@.len() == 0 && e@ == "Invalid HTTP request line."@,
        },
{
    let chars = chars_of(head);
    if chars.len() == 0 {
        return Err("Invalid HTTP request line.".to_string());
    }
    let newline = find_char(&chars, '\n', 0);
    let end = line_end(&chars, 0, newline);
    let line_text = text_of(&chars, 0, end);
    let line = chars_of(line_text.as_str());
    let start = after_space(&line, 0);
    let stop = after_word(&line, start);
    let method = text_of(&line, start, stop);
    let second = after_space(&line, stop);
    let raw_path = if second < line.len() {
        text_of(&line, second, after_word(&line, second))
    } else {
        "/".to_string()
    };
    let raw = chars_of(raw_path.as_str());
    let query = find_char(&raw, '?', 0);
    let path = text_of(&raw, 0, query);
    assert(path@ =~= path_of(head@));
    Ok((method, path))
}

// ---------------------------------------------------------------------------------------------
// Requests
// ---------------------------------------------------------------------------------------------

/// A request.
pub struct HttpRequest {
    pub method: String,
    pub path: String,
    pub body: Vec<u8>,
}

/// How long a request is, once its head is there: the head, a blank line, and the body that the
/// head announces.
pub open spec fn expected_len(data: Seq<u8>) -> Option<nat> {
    match header_end(data) {
        Some(e) => Some((e + 4 + body_length(lossy_text(data.take(e)))) as nat),
        None => None,
    }
}

/// What bytes are as a request, or what is wrong with them.
pub open spec fn is_request(data: Seq<u8>, r: Result<HttpRequest, String>) -> bool {
    match (header_end(data), r) {
        (None, Err(e)) => e@ == "Invalid HTTP request."@,
        (Some(end), Ok(request)) => {
            let head = lossy_text(data.take(end));
            &&& head.len() > 0
            &&& request.method@ == method_of(head)
            &&& request.path@ == path_of(head)
            &&& request.body@ == data.skip(end + 4)
        },
        (Some(end), Err(e)) => lossy_text(data.take(end)).len() == 0 && e@
            == "Invalid HTTP request line."@,
        (None, Ok(_)) => false,
    }
}

/// What is to be done once bytes of a request have come in.
#[derive(Clone, Copy, Debug, PartialEq, Eq, Structural)]
pub enum ReadStep {
    /// Read on.
    More,
    /// The request is there, or the other side has sent all that it will.
    Complete,
    /// The request is too long: refuse it.
    TooLarge,
    /// The length that the request announces cannot be counted: refuse it.
    Uncountable,
}

/// What is to be done with all of the bytes that have come in. No further byte means that the
/// other side has sent all that it will.
pub open spec fn read_step(data: Seq<u8>, at_end: bool) -> ReadStep {
    if at_end {
        ReadStep::Complete
    } else {
        match expected_len(data) {
            Some(n) => if n > usize::MAX {
                ReadStep::Uncountable
            } else if data.len() >= n {
                ReadStep::Complete
            } else if data.len() > MAX_REQUEST_BYTES {
                ReadStep::TooLarge
            } else {
                ReadStep::More
            },
            None => if data.len() > MAX_REQUEST_BYTES {
                ReadStep::TooLarge
            } else {
                ReadStep::More
            },
        }
    }
}

/// A request that is being read.
pub struct RequestReader {
    data: Vec<u8>,
    known_len: Option<usize>,
}

impl View for RequestReader {
    type V = Seq<u8>;

    /// What has come in.
    closed spec fn view(&self) -> Seq<u8> {
        self.data@
    }
}

/// More bytes do not move the end of a head that is there.
pub proof fn law_header_end_is_stable(data: Seq<u8>, more: Seq<u8>)
    requires
        header_end(data) is Some,
    ensures
        header_end(data + more) == header_end(data),
        expected_len(data + more) == expected_len(data),
{
    let e = header_end(data)->0;
    let all = data + more;
    lemma_header_end(data, 0);
    lemma_header_end(all, 0);
    assert(blank_line_at(all, e));
    assert(header_end(all) is Some);
    let f = header_end(all)->0;
    if f < e {
        assert(blank_line_at(data, f));
    }
    assert(all.take(e) =~= data.take(e));
}

impl RequestReader {
    /// The length that is held is that of the request, and it is held once it is known and can
    /// be counted.
    #[verifier::type_invariant]
    spec fn inv(&self) -> bool {
        match self.known_len {
            Some(n) => expected_len(self.data@) == Some(n as nat),
            None => expected_len(self.data@) matches Some(n) ==> n > usize::MAX,
        }
    }

    /// Nothing has come in yet.
    pub fn new() -> (reader: RequestReader)
        ensures
            reader@.len() == 0,
    {
        RequestReader { data: Vec::new(), known_len: None }
    }

    /// Takes the bytes that have come in; none, where the other side has sent all that it will.
    pub fn feed(&mut self, chunk: &[u8]) -> (r: ReadStep)
        ensures
            final(self)@ == old(self)@ + chunk@,
            r == read_step(final(self)@, chunk@.len() == 0),
    {
        proof {
            use_type_invariant(&*self);
        }
        let ghost before = self@;
        if chunk.len() == 0 {
            assert(before + chunk@ =~= before);
            return ReadStep::Complete;
        }
        let mut reader = RequestReader::new();
        std::mem::swap(self, &mut reader);
        let RequestReader { mut data, mut known_len } = reader;
        data.extend_from_slice(chunk);
        assert(data@ =~= before + chunk@);
        proof {
            if header_end(before) is Some {
                law_header_end_is_stable(before, chunk@);
            }
        }
        let total = data.len();
        if known_len.is_none() {
            match find_header_end(data.as_slice()) {
                Some(end) => {
                    assert(end + 4 <= total);
                    let head = text_from_bytes(slice_subrange(data.as_slice(), 0, end));
                    assert(data@.subrange(0, end as int) =~= data@.take(end as int));
                    let body = content_length(head.as_str());
                    known_len = (end + 4).checked_add(body);
                    if known_len.is_none() {
                        *self = RequestReader { data, known_len };
                        return ReadStep::Uncountable;
                    }
                },
                None => {},
            }
        }
        *self = RequestReader { data, known_len };
        match known_len {
            Some(n) => {
                if total >= n {
                    return ReadStep::Complete;
                }
            },
            None => {},
        }
        if total > MAX_REQUEST_BYTES {
            ReadStep::TooLarge
        } else {
            ReadStep::More
        }
    }

    /// What has come in, as a request.
    pub fn finish(&self) -> (r: Result<HttpRequest, String>)
        ensures
            is_request(self@, r),
    {
        let total = self.data.len();
        match find_header_end(self.data.as_slice()) {
            Some(end) => {
                let head = text_from_bytes(slice_subrange(self.data.as_slice(), 0, end));
                assert(self.data@.subrange(0, end as int) =~= self.data@.take(end as int));
                match request_line(head.as_str()) {
                    Ok((method, path)) => {
                        let rest = slice_subrange(self.data.as_slice(), end + 4, total);
                        let body = vstd::slice::slice_to_vec(rest);
                        assert(body@ =~= self.data@.skip(end + 4));
                        Ok(HttpRequest { method, path, body })
                    },
                    Err(e) => Err(e),
                }
            },
            None => Err("Invalid HTTP request.".to_string()),
        }
    }
}

/// The bytes of the end of a line and a blank line.
pub open spec fn blank_line() -> Seq<u8> {
    seq![13u8, 10, 13, 10]
}

/// A head ends at the first blank line: of a head without one, a blank line and a body, the body is what
/// the request carries, all of it and nothing else.
pub proof fn law_body_follows_blank_line(head: Seq<u8>, body: Seq<u8>)
    requires
        forall|j: int| 0 <= j < head.len() ==> !#[trigger] blank_line_at(head + blank_line(), j),
    ensures
        header_end(head + blank_line() + body) == Some(head.len() as int),
        forall|r: HttpRequest|
            is_request(head + blank_line() + body, Ok(r)) ==> (#[trigger] r.body)@ == body,
{
    let start = head + blank_line();
    let all = start + body;
    let n = head.len() as int;
    lemma_header_end(start, 0);
    assert(blank_line_at(start, n));
    let e = header_end(start)->0;
    assert(header_end(start) is Some);
    if e < n {
        assert(!blank_line_at(start, e));
    }
    law_header_end_is_stable(start, body);
    assert(all.skip(n + 4) =~= body);
}

/// A request is read on only up to two mebibytes, and refused as too long only beyond that.
pub proof fn law_requests_are_limited(data: Seq<u8>)
    ensures
        read_step(data, false) == ReadStep::More ==> data.len() <= 2 * 1024 * 1024,
        read_step(data, false) == ReadStep::TooLarge ==> data.len() > 2 * 1024 * 1024,
        read_step(data, true) == ReadStep::Complete,
{
}

/// A request whose head and announced length are there is complete exactly once that many bytes of the
/// body are there.
pub proof fn law_request_is_complete_with_its_body(data: Seq<u8>)
    requires
        header_end(data) is Some,
        header_end(data)->0 + 4 + body_length(lossy_text(data.take(header_end(data)->0)))
            <= usize::MAX,
    ensures
        read_step(data, false) == ReadStep::Complete <==> data.len() - header_end(data)->0 - 4
            >= body_length(lossy_text(data.take(header_end(data)->0))),
{
    lemma_header_end(data, 0);
}

/// What is said of a request that is too long.
pub fn too_large_message() -> (r: String)
    ensures
        r@ == "Agent request is too large."@,
{
    "Agent request is too large.".to_string()
}

/// A request that is complete before the other side stops sending has all of the body that its
/// head announces.
pub proof fn law_complete_request_has_its_body(data: Seq<u8>, request: HttpRequest)
    requires
        read_step(data, false) == ReadStep::Complete,
        is_request(data, Ok(request)),
    ensures
        request.body@.len() >= body_length(lossy_text(data.take(header_end(data)->0))),
{
    lemma_header_end(data, 0);
}

/// As long as reading goes on, what has come in is shorter than the request.
pub proof fn law_reading_stops_in_time(first: Seq<u8>, second: Seq<u8>)
    requires
        read_step(first, false) == ReadStep::More,
        expected_len(first + second) is Some,
    ensures
        first.len() < expected_len(first + second)->0,
{
    if header_end(first) is Some {
        law_header_end_is_stable(first, second);
    } else {
        let all = first + second;
        lemma_header_end(all, 0);
        lemma_header_end(first, 0);
        let e = header_end(all)->0;
        if e + 4 <= first.len() {
            assert(blank_line_at(first, e));
        }
    }
}

// ---------------------------------------------------------------------------------------------
// What is read of a request as it is usually written
// ---------------------------------------------------------------------------------------------

/// Whether a text is a word: it is not empty, and holds no white space.
pub open spec fn is_word(s: Seq<char>) -> bool {
    s.len() > 0 && forall|i: int| 0 <= i < s.len() ==> !is_space(#[trigger] s[i])
}

proof fn lemma_word_end(s: Seq<char>, from: int, to: int)
    requires
        0 <= from <= to < s.len(),
        forall|i: int| from <= i < to ==> !is_space(#[trigger] s[i]),
        is_space(s[to]),
    ensures
        skip_word(s, from) == to,
    decreases to - from,
{
    if from < to {
        assert(!is_space(s[from]));
        lemma_word_end(s, from + 1, to);
    }
}

/// Of a request that begins with a method, a space, a path and another space, the method and the
/// path are read as they are, but for the query of the path.
pub proof fn law_request_line_is_read_back(method: Seq<char>, path: Seq<char>, rest: Seq<char>)
    requires
        is_word(method),
        is_word(path),
    ensures
        method_of(method + seq![' '] + path + seq![' '] + rest) == method,
        path_of(method + seq![' '] + path + seq![' '] + rest) == without_query(path),
{
    let head = method + seq![' '] + path + seq![' '] + rest;
    let m = method.len() as int;
    let n = m + 1 + path.len();
    assert forall|i: int| 0 <= i < m implies head[i] == method[i] by {}
    assert forall|i: int| m + 1 <= i < n implies head[i] == path[i - m - 1] by {}
    assert(head[m] == ' ' && head[n] == ' ');
    lemma_position(head, '\n', 0);
    let newline = position(head, '\n', 0);
    if newline <= n && newline < head.len() {
        assert(is_space(head[newline]));
        if newline < m {
            assert(!is_space(method[newline]));
        } else if m < newline < n {
            assert(!is_space(path[newline - m - 1]));
        }
    }
    assert(newline > n);
    let line = line_at(head, 0);
    assert(line.len() > n);
    assert forall|i: int| 0 <= i <= n implies line[i] == head[i] by {}
    assert(!is_space(method[0]) && line[0] == method[0]);
    assert forall|i: int| 0 <= i < m implies !is_space(#[trigger] line[i]) by {
        assert(!is_space(method[i]));
    }
    lemma_word_end(line, 0, m);
    assert(first_word(line) =~= method);
    assert(!is_space(path[0]) && line[m + 1] == path[0]);
    assert(skip_space(line, m + 1) == m + 1);
    assert(skip_space(line, m) == m + 1);
    assert forall|i: int| m + 1 <= i < n implies !is_space(#[trigger] line[i]) by {
        assert(!is_space(path[i - m - 1]));
    }
    lemma_word_end(line, m + 1, n);
    assert(second_word(line) =~= path);
}

/// The query of a path is what follows the first question mark, and is left out.
pub proof fn law_query_is_left_out(path: Seq<char>, query: Seq<char>)
    requires
        forall|i: int| 0 <= i < path.len() ==> path[i] != '?',
    ensures
        without_query(path + seq!['?'] + query) == path,
        without_query(path) == path,
{
    let s = path + seq!['?'] + query;
    let n = path.len() as int;
    lemma_position(s, '?', 0);
    assert(s[n] == '?');
    let p = position(s, '?', 0);
    if p < n {
        assert(s[p] == path[p]);
    }
    assert(s.take(n) =~= path);
    lemma_position(path, '?', 0);
    assert(path.take(n) =~= path);
}

proof fn lemma_trimmed_number(n: nat)
    ensures
        trimmed(seq![' '] + decimal(n)) == decimal(n),
{
    let s = seq![' '] + decimal(n);
    lemma_decimal_digits(n);
    assert(is_digit(decimal(n)[0]));
    assert(s[1] == decimal(n)[0]);
    assert(skip_space(s, 1) == 1);
    assert(skip_space(s, 0) == 1);
    assert(is_digit(decimal(n)[decimal(n).len() - 1]));
    assert(s[s.len() - 1] == decimal(n)[decimal(n).len() - 1]);
    assert(drop_space(s, 1, s.len() as int) == s.len());
    assert(s.subrange(1, s.len() as int) =~= decimal(n));
}

/// The line that announces a body of `n` bytes.
pub open spec fn length_line(n: nat) -> Seq<char> {
    "Content-Length:"@ + (seq![' '] + decimal(n))
}

proof fn lemma_length_line(n: nat)
    requires
        n <= usize::MAX,
    ensures
        announced_by(length_line(n)) == Some(n),
        forall|i: int| 0 <= i < length_line(n).len() ==> length_line(n)[i] != '\n',
{
    reveal_strlit("Content-Length:");
    reveal_strlit("content-length");
    let name = "Content-Length:"@;
    let line = length_line(n);
    lemma_decimal_digits(n);
    assert(name.len() == 15);
    assert forall|i: int| 0 <= i < line.len() implies line[i] != '\n' by {
        if i > 15 {
            assert(line[i] == decimal(n)[i - 16]);
            assert(is_digit(decimal(n)[i - 16]));
        }
    }
    lemma_position(line, ':', 0);
    assert(line[14] == ':');
    let colon = position(line, ':', 0);
    assert(colon <= 14);
    if colon < 14 {
        assert(name[colon] == ':');
    }
    assert(lowered(line.take(14)) =~= lowered("content-length"@));
    assert(line.skip(15) =~= seq![' '] + decimal(n));
    lemma_trimmed_number(n);
    lemma_decimal_reads_back(n, usize::MAX as nat);
}

/// The length of the body is read from the second line of a head, if the first announces none.
/// `rest` is what follows the line: nothing, or the end of the line and more.
pub proof fn law_announced_length_is_read_back(first: Seq<char>, n: nat, rest: Seq<char>)
    requires
        n <= usize::MAX,
        announced_by(first) is None,
        forall|i: int| 0 <= i < first.len() ==> first[i] != '\n',
        rest.len() == 0 || (rest.len() >= 2 && rest[0] == '\r' && rest[1] == '\n'),
    ensures
        body_length(first + seq!['\r', '\n'] + length_line(n) + rest) == n,
{
    let line = length_line(n);
    let head = first + seq!['\r', '\n'] + line + rest;
    let k = first.len() as int;
    lemma_length_line(n);
    lemma_position(head, '\n', 0);
    assert(head[k] == '\r' && head[k + 1] == '\n');
    let newline = position(head, '\n', 0);
    assert(newline <= k + 1);
    if newline < k {
        assert(head[newline] == first[newline]);
    }
    assert(newline == k + 1);
    assert(line_at(head, 0) =~= first);
    let from = k + 2;
    assert(next_line(head, 0) == from);
    assert(line.len() > 0) by {
        reveal_strlit("Content-Length:");
    }
    let end = from + line.len();
    assert forall|i: int| from <= i < end implies head[i] == line[i - from] by {}
    lemma_position(head, '\n', from);
    let second = position(head, '\n', from);
    if from <= second < end {
        assert(head[second] == line[second - from]);
    }
    if rest.len() > 0 {
        assert(head[end] == '\r' && head[end + 1] == '\n');
        assert(second == end + 1);
    }
    assert(line_at(head, from) =~= line);
    reveal_with_fuel(announced_from, 2);
}

proof fn lemma_position_shift(a: Seq<char>, b: Seq<char>, c: char, i: int)
    requires
        0 <= i <= b.len(),
    ensures
        position(a + b, c, a.len() + i) == a.len() + position(b, c, i),
    decreases b.len() - i,
{
    if i < b.len() {
        assert((a + b)[a.len() + i] == b[i]);
        if b[i] != c {
            lemma_position_shift(a, b, c, i + 1);
        }
    }
}

proof fn lemma_announced_shift(a: Seq<char>, b: Seq<char>, i: int)
    requires
        0 <= i <= b.len(),
    ensures
        announced_from(a + b, a.len() + i) == announced_from(b, i),
    decreases b.len() - i,
{
    let all = a + b;
    let n = a.len() as int;
    if i < b.len() {
        lemma_position_shift(a, b, '\n', i);
        lemma_position(b, '\n', i);
        let end = position(b, '\n', i);
        if end < b.len() && end > i {
            assert(all[n + end - 1] == b[end - 1]);
        }
        assert(line_at(all, n + i) =~= line_at(b, i));
        assert(next_line(all, n + i) == n + next_line(b, i));
        lemma_announced_shift(a, b, next_line(b, i));
    }
}

/// A line that announces no length does not matter to the length of the body.
pub proof fn law_other_lines_do_not_matter(first: Seq<char>, rest: Seq<char>)
    requires
        announced_by(first) is None,
        forall|i: int| 0 <= i < first.len() ==> first[i] != '\n',
    ensures
        body_length(first + seq!['\r', '\n'] + rest) == body_length(rest),
{
    let start = first + seq!['\r', '\n'];
    let head = start + rest;
    let k = first.len() as int;
    lemma_position(head, '\n', 0);
    assert(head[k] == '\r' && head[k + 1] == '\n');
    let newline = position(head, '\n', 0);
    assert(newline <= k + 1);
    if newline < k {
        assert(head[newline] == first[newline]);
    }
    assert(newline == k + 1);
    assert(line_at(head, 0) =~= first);
    assert(next_line(head, 0) == k + 2);
    lemma_announced_shift(start, rest, 0);
    reveal_with_fuel(announced_from, 2);
}

/// The case of letters does not matter in the name of the line that announces the length of the body.
pub proof fn law_length_name_ignores_case(name: Seq<char>, n: nat)
    requires
        n <= usize::MAX,
        lowered(name) == "content-length"@,
    ensures
        announced_by(name + seq![':', ' '] + decimal(n)) == Some(n),
{
    reveal_strlit("content-length");
    let line = name + seq![':', ' '] + decimal(n);
    let word = "content-length"@;
    assert(word.len() == 14);
    assert(name.len() == 14) by {
        assert(lowered(name).len() == name.len());
    }
    assert forall|i: int| 0 <= i < 14 implies line[i] != ':' by {
        assert(line[i] == name[i]);
        assert(lowered(name)[i] == word[i]);
        assert(word[i] != ':');
    }
    assert(line[14] == ':');
    lemma_position(line, ':', 0);
    assert(position(line, ':', 0) == 14);
    assert(line.take(14) =~= name);
    assert(lowered(word) =~= word);
    assert(line.skip(15) =~= seq![' '] + decimal(n));
    lemma_trimmed_number(n);
    lemma_decimal_reads_back(n, usize::MAX as nat);
}

// ---------------------------------------------------------------------------------------------
// Answers
// ---------------------------------------------------------------------------------------------

/// The lines at the end of the head of an answer: any page may read it, with the methods that
/// there are, and the connection ends.
pub open spec fn common_lines() -> Seq<char> {
    "\r\nAccess-Control-Allow-Origin: *\r\nAccess-Control-Allow-Headers: content-type\r\nAccess-Control-Allow-Methods: GET, POST, OPTIONS\r\nConnection: close\r\n\r\n"@
}

/// The head of an answer in JSON with a body of this many bytes.
pub open spec fn json_head(status: Seq<char>, body_len: nat) -> Seq<char> {
    "HTTP/1.1 "@ + status
        + "\r\nContent-Type: application/json; charset=utf-8\r\nContent-Length: "@ + decimal(
        body_len,
    ) + common_lines()
}

/// The head of an answer without a body.
pub open spec fn empty_head(status: Seq<char>) -> Seq<char> {
    "HTTP/1.1 "@ + status + "\r\nContent-Length: 0"@ + common_lines()
}

fn add_common_lines(s: &mut String)
    ensures
        final(s)@ == old(s)@ + common_lines(),
{
    s.append(
        "\r\nAccess-Control-Allow-Origin: *\r\nAccess-Control-Allow-Headers: content-type\r\nAccess-Control-Allow-Methods: GET, POST, OPTIONS\r\nConnection: close\r\n\r\n",
    );
}

/// The head of an answer in JSON with a body of this many bytes.
pub fn json_response_head(status: &str, body_len: usize) -> (r: String)
    ensures
        r@ == json_head(status@, body_len as nat),
{
    let mut s = cat3(
        "HTTP/1.1 ",
        status,
        "\r\nContent-Type: application/json; charset=utf-8\r\nContent-Length: ",
    );
    s.append(number(body_len as u64).as_str());
    add_common_lines(&mut s);
    s
}

/// The head of an answer without a body.
pub fn empty_response_head(status: &str) -> (r: String)
    ensures
        r@ == empty_head(status@),
{
    let mut s = cat3("HTTP/1.1 ", status, "\r\nContent-Length: 0");
    add_common_lines(&mut s);
    s
}

/// The head of an answer announces the length of its body: read as the head of a request would be, it
/// gives the length back.
pub proof fn law_answer_announces_length(status: Seq<char>, n: nat)
    requires
        n <= usize::MAX,
        forall|i: int| 0 <= i < status.len() ==> status[i] != '\n',
    ensures
        body_length(json_head(status, n)) == n,
{
    reveal_strlit("HTTP/1.1 ");
    reveal_strlit("content-length");
    reveal_strlit("Content-Length:");
    reveal_strlit("\r\nContent-Type: application/json; charset=utf-8\r\nContent-Length: ");
    reveal_strlit("Content-Type: application/json; charset=utf-8");
    reveal_strlit(
        "\r\nAccess-Control-Allow-Origin: *\r\nAccess-Control-Allow-Headers: content-type\r\nAccess-Control-Allow-Methods: GET, POST, OPTIONS\r\nConnection: close\r\n\r\n",
    );
    let first = "HTTP/1.1 "@ + status;
    let second = "Content-Type: application/json; charset=utf-8"@;
    let rest = common_lines();
    assert("HTTP/1.1 "@.len() == 9);
    assert forall|i: int| 0 <= i < first.len() implies first[i] != '\n' by {
        if i >= 9 {
            assert(first[i] == status[i - 9]);
        }
    }
    assert(announced_by(first) is None) by {
        lemma_position(first, ':', 0);
        let colon = position(first, ':', 0);
        if colon < first.len() {
            if colon < 9 {
                assert(first[colon] == "HTTP/1.1 "@[colon]);
            }
            assert(lowered(first.take(colon))[0] == 'h');
            assert(lowered("content-length"@)[0] == 'c');
        }
    }
    assert(announced_by(second) is None) by {
        lemma_position(second, ':', 0);
        assert(second[12] == ':');
        let colon = position(second, ':', 0);
        assert(colon <= 12);
        assert(lowered(second.take(colon)).len() == colon);
        assert(lowered("content-length"@).len() == 14);
    }
    let tail = second + seq!['\r', '\n'] + length_line(n) + rest;
    law_announced_length_is_read_back(second, n, rest);
    law_other_lines_do_not_matter(first, tail);
    let between = "\r\nContent-Type: application/json; charset=utf-8\r\nContent-Length: "@;
    let parts = seq!['\r', '\n'] + second + seq!['\r', '\n'] + "Content-Length:"@ + seq![' '];
    assert(between.len() == 65);
    assert(parts.len() == 65);
    assert(between =~= parts);
    assert(json_head(status, n) =~= first + seq!['\r', '\n'] + tail);
}

} // verus!
