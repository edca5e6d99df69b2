//! The request decoder: request line, headers and body, read line by line.

use vstd::prelude::*;
use crate::error::{ErrorKind, ServerError};
use crate::method::{method_name, Method};
use crate::parser::{lemma_split_nonempty, split_chars, split_on, views};
use crate::trie::pair_views;
use crate::text::{chars_of, string_of};

verus! {

/// The path and query that `http::Uri` reads from a request target, or `None`
/// when the target is not a valid URI.
pub uninterp spec fn uri_parts(target: Seq<char>) -> Option<(Seq<char>, Option<Seq<char>>)>;

/// The characters of an optional string.
pub open spec fn opt_view(o: Option<String>) -> Option<Seq<char>> {
    match o {
        Some(s) => Some(s@),
        None => None,
    }
}

/// Relies on `http::Uri`'s `FromStr` with `Uri::path` and `Uri::query`: the parts
/// depend on the target alone.
#[verifier::external_body]
fn split_target(target: &str) -> (r: Option<(String, Option<String>)>)
    ensures
        match r {
            Some((p, q)) => uri_parts(target@) == Some((p@, opt_view(q))),
            None => uri_parts(target@) is None,
        },
{
    match target.parse::<http::Uri>() {
        Ok(uri) => Some((uri.path().to_string(), uri.query().map(String::from))),
        Err(_) => None,
    }
}

/// ` HTTP/1.1`, the end of every request line.
pub open spec fn version_suffix() -> Seq<char> {
    seq![' ', 'H', 'T', 'T', 'P', '/', '1', '.', '1']
}

/// The target of a request line `<m> <target> HTTP/1.1`, if the line has that shape.
pub open spec fn line_target(line: Seq<char>, m: Method) -> Option<Seq<char>> {
    let name = method_name(m);
    let n = name.len();
    if n + 2 + 9 <= line.len() && line.take(n as int) == name && line[n as int] == ' '
        && line.skip(line.len() - 9) == version_suffix() {
        Some(line.subrange(n as int + 1, line.len() - 9))
    } else {
        None
    }
}

/// The method and target of a request line `METHOD SP target SP HTTP/1.1`,
/// with a non-empty target and METHOD one of GET, POST, PUT, DELETE.
pub open spec fn request_line(line: Seq<char>) -> Option<(Method, Seq<char>)> {
    if line_target(line, Method::Get) is Some {
        Some((Method::Get, line_target(line, Method::Get)->0))
    } else if line_target(line, Method::Post) is Some {
        Some((Method::Post, line_target(line, Method::Post)->0))
    } else if line_target(line, Method::Put) is Some {
        Some((Method::Put, line_target(line, Method::Put)->0))
    } else if line_target(line, Method::Delete) is Some {
        Some((Method::Delete, line_target(line, Method::Delete)->0))
    } else {
        None
    }
}

/// A character of a header name: ASCII letter, digit, `_` or `-`.
pub open spec fn name_char(c: char) -> bool {
    ('a' <= c <= 'z') || ('A' <= c <= 'Z') || ('0' <= c <= '9') || c == '_' || c == '-'
}

/// A character allowed in a header value: tab, or anything but a control character.
pub open spec fn value_char(c: char) -> bool {
    c == '\t' || (' ' <= c && c != '\x7f')
}

/// The length of the run of header-name characters that starts at `i`.
pub open spec fn name_end(line: Seq<char>, i: int) -> int
    decreases line.len() - i,
{
    if 0 <= i < line.len() && name_char(line[i]) {
        name_end(line, i + 1)
    } else {
        i
    }
}

/// The name and value of a header line `name: value`, both non-empty.
pub open spec fn header_line(line: Seq<char>) -> Option<(Seq<char>, Seq<char>)> {
    let k = name_end(line, 0);
    if k >= 1 && k + 2 < line.len() && line[k] == ':' && line[k + 1] == ' '
        && forall|j: int| k + 2 <= j < line.len() ==> value_char(#[trigger] line[j]) {
        Some((line.take(k), line.skip(k + 2)))
    } else {
        None
    }
}

fn has_prefix(s: &[char], p: &[char]) -> (r: bool)
    ensures
        r == (p@.len() <= s@.len() && s@.take(p@.len() as int) == p@),
{
    if p.len() > s.len() {
        return false;
    }
    let mut i: usize = 0;
    while i < p.len()
        invariant
            i <= p@.len() <= s@.len(),
            forall|j: int| 0 <= j < i ==> s@[j] == p@[j],
        decreases p.len() - i,
    {
        if s[i] != p[i] {
            assert(s@.take(p@.len() as int)[i as int] != p@[i as int]);
            return false;
        }
        i += 1;
    }
    assert(s@.take(p@.len() as int) =~= p@);
    true
}

fn has_suffix(s: &[char], p: &[char]) -> (r: bool)
    ensures
        r == (p@.len() <= s@.len() && s@.skip(s@.len() - p@.len()) == p@),
{
    if p.len() > s.len() {
        return false;
    }
    let off = s.len() - p.len();
    let mut j: usize = off;
    while j < s.len()
        invariant
            off <= j <= s@.len(),
            off == s@.len() - p@.len(),
            forall|t: int| off <= t < j ==> s@[t] == p@[t - off],
        decreases s.len() - j,
    {
        if s[j] != p[j - off] {
            assert(s@.skip(off as int)[j - off] != p@[j - off]);
            return false;
        }
        j += 1;
    }
    assert(s@.skip(off as int) =~= p@);
    true
}

fn target_for(line: &[char], m: Method) -> (r: Option<String>)
    ensures
        match r {
            Some(t) => line_target(line@, m) == Some(t@),
            None => line_target(line@, m) is None,
        },
{
    let name: Vec<char> = match m {
        Method::Get => vec!['G', 'E', 'T'],
        Method::Post => vec!['P', 'O', 'S', 'T'],
        Method::Put => vec!['P', 'U', 'T'],
        Method::Delete => vec!['D', 'E', 'L', 'E', 'T', 'E'],
    };
    assert(name@ == method_name(m));
    let suffix = [' ', 'H', 'T', 'T', 'P', '/', '1', '.', '1'];
    assert(suffix@ == version_suffix());
    let n = name.len();
    if line.len() < n + 11 {
        return None;
    }
    if !has_prefix(line, name.as_slice()) || line[n] != ' ' || !has_suffix(line, &suffix) {
        return None;
    }
    let t = &line[n + 1..line.len() - 9];
    assert(t@ == line@.subrange(n + 1, line@.len() - 9));
    Some(string_of(t))
}

/// Reads a request line into its method and target.
pub fn parse_request_line(line: &[char]) -> (r: Option<(Method, String)>)
    ensures
        match r {
            Some((m, t)) => request_line(line@) == Some((m, t@)),
            None => request_line(line@) is None,
        },
{
    if let Some(t) = target_for(line, Method::Get) {
        return Some((Method::Get, t));
    }
    if let Some(t) = target_for(line, Method::Post) {
        return Some((Method::Post, t));
    }
    if let Some(t) = target_for(line, Method::Put) {
        return Some((Method::Put, t));
    }
    if let Some(t) = target_for(line, Method::Delete) {
        return Some((Method::Delete, t));
    }
    None
}

fn is_name_char(c: char) -> (r: bool)
    ensures
        r == name_char(c),
{
    ('a' <= c && c <= 'z') || ('A' <= c && c <= 'Z') || ('0' <= c && c <= '9') || c == '_' || c == '-'
}

/// Reads a header line into its name and value.
pub fn parse_header_line(line: &[char]) -> (r: Option<(String, String)>)
    ensures
        match r {
            Some((k, v)) => header_line(line@) == Some((k@, v@)),
            None => header_line(line@) is None,
        },
{
    let n = line.len();
    let mut k: usize = 0;
    while k < n && is_name_char(line[k])
        invariant
            k <= n == line@.len(),
            name_end(line@, 0) == name_end(line@, k as int),
        decreases n - k,
    {
        k += 1;
    }
    assert(name_end(line@, k as int) == k);
    if k < 1 || n - k <= 2 || line[k] != ':' || line[k + 1] != ' ' {
        return None;
    }
    let mut j: usize = k + 2;
    while j < n
        invariant
            k + 2 <= j <= n == line@.len(),
            name_end(line@, 0) == k as int,
            forall|i: int| k + 2 <= i < j ==> value_char(#[trigger] line@[i]),
        decreases n - j,
    {
        let c = line[j];
        if !(c == '\t' || (' ' <= c && c != '\x7f')) {
            assert(!value_char(line@[j as int]));
            return None;
        }
        j += 1;
    }
    let name = &line[0..k];
    let value = &line[k + 2..n];
    assert(name@ == line@.take(k as int));
    assert(value@ == line@.skip(k + 2));
    Some((string_of(name), string_of(value)))
}

/// A decoded request.
#[derive(Debug)]
pub struct ServerRequest {
    pub method: Method,
    pub path: String,
    pub query: Option<String>,
    pub headers: Vec<(String, String)>,
    pub body: Option<String>,
}

/// A decoded request as a value.
pub struct RequestView {
    pub method: Method,
    pub path: Seq<char>,
    pub query: Option<Seq<char>>,
    pub headers: Seq<(Seq<char>, Seq<char>)>,
    pub body: Option<Seq<char>>,
}

impl View for ServerRequest {
    type V = RequestView;

    open spec fn view(&self) -> RequestView {
        RequestView {
            method: self.method,
            path: self.path@,
            query: opt_view(self.query),
            headers: pair_views(self.headers@),
            body: opt_view(self.body),
        }
    }
}

/// How far the decoder has read.
#[derive(Clone, Copy, Debug, PartialEq, Eq, Structural)]
pub enum Stage {
    /// Waiting for the request line.
    Start,
    /// Reading header lines.
    Headers,
    /// Reading body lines.
    Body,
    /// A whole request has been read.
    Complete,
    /// The input was refused.
    Failed(ErrorKind),
}

/// The decoder's state as a value.
pub struct DecoderView {
    pub stage: Stage,
    pub method: Method,
    pub path: Seq<char>,
    pub query: Option<Seq<char>>,
    pub headers: Seq<(Seq<char>, Seq<char>)>,
    pub body: Seq<char>,
}

/// A decoder that has read nothing.
pub open spec fn decoder_start() -> DecoderView {
    DecoderView {
        stage: Stage::Start,
        method: Method::Get,
        path: Seq::empty(),
        query: None,
        headers: Seq::empty(),
        body: Seq::empty(),
    }
}

/// The decoder stopped with an error of kind `k`.
pub open spec fn failed(s: DecoderView, k: ErrorKind) -> DecoderView {
    DecoderView { stage: Stage::Failed(k), ..s }
}

/// The decoder's state after one more line.
pub open spec fn feed(s: DecoderView, line: Seq<char>) -> DecoderView {
    match s.stage {
        Stage::Start => match request_line(line) {
            None => failed(s, ErrorKind::Parse),
            Some((m, target)) => match uri_parts(target) {
                None => failed(s, ErrorKind::Parse),
                Some((p, q)) => DecoderView { stage: Stage::Headers, method: m, path: p, query: q, ..s },
            },
        },
        Stage::Headers => if line.len() == 0 {
            DecoderView { stage: if s.method.spec_has_body() { Stage::Body } else { Stage::Complete }, ..s }
        } else {
            match header_line(line) {
                Some(h) => DecoderView { headers: s.headers.push(h), ..s },
                None => failed(s, ErrorKind::Parse),
            }
        },
        Stage::Body => if line.len() == 0 {
            DecoderView { stage: Stage::Complete, ..s }
        } else {
            DecoderView { body: s.body + line, ..s }
        },
        _ => s,
    }
}

/// The decoder's state once the stream has ended: a request line is required,
/// and a request with a body needs the empty line that ends its headers.
pub open spec fn close(s: DecoderView) -> DecoderView {
    match s.stage {
        Stage::Start => failed(s, ErrorKind::Parse),
        Stage::Headers => if s.method.spec_has_body() {
            failed(s, ErrorKind::Parse)
        } else {
            DecoderView { stage: Stage::Complete, ..s }
        },
        Stage::Body => DecoderView { stage: Stage::Complete, ..s },
        _ => s,
    }
}

/// The state after feeding all of `lines`, one by one, from the start.
pub open spec fn feed_all(lines: Seq<Seq<char>>) -> DecoderView
    decreases lines.len(),
{
    if lines.len() == 0 {
        decoder_start()
    } else {
        feed(feed_all(lines.drop_last()), lines.last())
    }
}

/// The request a finished decoder holds, or its error.
pub open spec fn outcome(s: DecoderView) -> Result<RequestView, ErrorKind> {
    match s.stage {
        Stage::Complete => Ok(RequestView {
            method: s.method,
            path: s.path,
            query: s.query,
            headers: s.headers,
            body: if s.method.spec_has_body() { Some(s.body) } else { None },
        }),
        Stage::Failed(k) => Err(k),
        _ => Err(ErrorKind::Parse),
    }
}

/// Decodes one request from a stream of lines.
#[derive(Debug)]
pub struct RequestDecoder {
    pub stage: Stage,
    pub method: Method,
    pub path: String,
    pub query: Option<String>,
    pub headers: Vec<(String, String)>,
    pub body: String,
}

impl View for RequestDecoder {
    type V = DecoderView;

    open spec fn view(&self) -> DecoderView {
        DecoderView {
            stage: self.stage,
            method: self.method,
            path: self.path@,
            query: opt_view(self.query),
            headers: pair_views(self.headers@),
            body: self.body@,
        }
    }
}

impl RequestDecoder {
    pub fn new() -> (r: Self)
        ensures
            r@ == decoder_start(),
    {
        let r = RequestDecoder {
            stage: Stage::Start,
            method: Method::Get,
            path: String::new(),
            query: None,
            headers: Vec::new(),
            body: String::new(),
        };
        assert(pair_views(r.headers@) =~= Seq::empty());
        r
    }

    /// Whether the decoder still needs lines.
    pub fn wants_line(&self) -> (r: bool)
        ensures
            r == (self.stage == Stage::Start || self.stage == Stage::Headers || self.stage == Stage::Body),
    {
        match self.stage {
            Stage::Start | Stage::Headers | Stage::Body => true,
            _ => false,
        }
    }

    /// Takes the next line, without its line ending.
    pub fn push_line(&mut self, line: &str) -> (r: ())
        ensures
            final(self)@ == feed(old(self)@, line@),
    {
        let chars = chars_of(line);
        match self.stage {
            Stage::Start => {
                match parse_request_line(chars.as_slice()) {
                    None => self.stage = Stage::Failed(ErrorKind::Parse),
                    Some((m, target)) => {
                        match split_target(target.as_str()) {
                            None => self.stage = Stage::Failed(ErrorKind::Parse),
                            Some((p, q)) => {
                                self.stage = Stage::Headers;
                                self.method = m;
                                self.path = p;
                                self.query = q;
                            },
                        }
                    },
                }
            },
            Stage::Headers => {
                if chars.len() == 0 {
                    self.stage = if self.method.has_body() { Stage::Body } else { Stage::Complete };
                } else {
                    match parse_header_line(chars.as_slice()) {
                        Some(h) => {
                            let ghost before = self.headers@;
                            self.headers.push(h);
                            assert(pair_views(self.headers@) =~= pair_views(before).push((h.0@, h.1@)));
                        },
                        None => self.stage = Stage::Failed(ErrorKind::Parse),
                    }
                }
            },
            Stage::Body => {
                if chars.len() == 0 {
                    self.stage = Stage::Complete;
                } else {
                    self.body.append(line);
                }
            },
            _ => {},
        }
    }

    /// Notes that the stream has ended.
    pub fn end_of_stream(&mut self)
        ensures
            final(self)@ == close(old(self)@),
    {
        match self.stage {
            Stage::Start => self.stage = Stage::Failed(ErrorKind::Parse),
            Stage::Headers => {
                self.stage = if self.method.has_body() { Stage::Failed(ErrorKind::Parse) } else { Stage::Complete };
            },
            Stage::Body => self.stage = Stage::Complete,
            _ => {},
        }
    }

    /// Notes that reading the stream failed.
    pub fn read_failed(&mut self)
        ensures
            final(self)@ == failed(old(self)@, ErrorKind::Parse),
    {
        self.stage = Stage::Failed(ErrorKind::Parse);
    }

    /// The decoded request, or why there is none.
    pub fn into_request(self) -> (r: Result<ServerRequest, ServerError>)
        ensures
            match outcome(self@) {
                Ok(v) => r matches Ok(req) && req@ == v,
                Err(k) => r matches Err(e) && e.kind == k,
            },
    {
        match self.stage {
            Stage::Complete => {
                let has_body = self.method.has_body();
                Ok(ServerRequest {
                    method: self.method,
                    path: self.path,
                    query: self.query,
                    headers: self.headers,
                    body: if has_body { Some(self.body) } else { None },
                })
            },
            Stage::Failed(k) => Err(ServerError::new(k, "Bad request")),
            _ => Err(ServerError::new(ErrorKind::Parse, "Incomplete request")),
        }
    }
}


/// A line without the `\r` that may precede its `\n`.
pub open spec fn strip_cr(l: Seq<char>) -> Seq<char> {
    if l.len() > 0 && l.last() == '\r' {
        l.drop_last()
    } else {
        l
    }
}

/// The lines of a stream: each `\n` ends a line and takes one `\r` before it
/// along; text after the last `\n` is a line of its own when not empty.
pub open spec fn stream_lines(text: Seq<char>) -> Seq<Seq<char>> {
    let parts = split_on(text, '\n');
    let ended = parts.drop_last().map_values(|l: Seq<char>| strip_cr(l));
    if parts.last().len() == 0 {
        ended
    } else {
        ended.push(parts.last())
    }
}

/// What decoding a whole stream gives: its lines fed in order, then its end.
pub open spec fn decode_text(text: Seq<char>) -> Result<RequestView, ErrorKind> {
    outcome(close(feed_all(stream_lines(text))))
}

fn line_text(l: &Vec<char>) -> (r: String)
    ensures
        r@ == strip_cr(l@),
{
    let n = l.len();
    if n > 0 && l[n - 1] == '\r' {
        let s = &l.as_slice()[0..n - 1];
        assert(s@ =~= l@.drop_last());
        string_of(s)
    } else {
        string_of(l.as_slice())
    }
}

/// Decodes one request from the whole text of a stream.
pub fn decode_request(text: &str) -> (r: Result<ServerRequest, ServerError>)
    ensures
        match decode_text(text@) {
            Ok(v) => r matches Ok(req) && req@ == v,
            Err(k) => r matches Err(e) && e.kind == k,
        },
{
    let chars = chars_of(text);
    let parts = split_chars(chars.as_slice(), 0, chars.len(), '\n');
    let ghost pv = split_on(text@, '\n');
    let ghost lines = stream_lines(text@);
    assert(chars@.subrange(0, chars@.len() as int) =~= text@);
    proof { lemma_split_nonempty(text@, '\n'); }
    let last = parts.len() - 1;
    let mut dec = RequestDecoder::new();
    let mut i: usize = 0;
    assert(lines.take(0) =~= Seq::<Seq<char>>::empty());
    while i < last
        invariant
            views(parts@) == pv,
            pv == split_on(text@, '\n'),
            lines == stream_lines(text@),
            last + 1 == parts@.len(),
            i <= last,
            dec@ == feed_all(lines.take(i as int)),
        decreases last - i,
    {
        let line = line_text(&parts[i]);
        assert(parts@[i as int]@ == pv[i as int]);
        assert(lines[i as int] == strip_cr(pv[i as int]));
        assert(lines.take(i + 1).drop_last() =~= lines.take(i as int));
        dec.push_line(line.as_str());
        i += 1;
    }
    assert(parts@[last as int]@ == pv.last());
    if parts[last].len() > 0 {
        let line = string_of(parts[last].as_slice());
        assert(lines.take(last as int) =~= lines.drop_last());
        dec.push_line(line.as_str());
        assert(lines.take(last + 1) =~= lines);
    } else {
        assert(lines.take(last as int) =~= lines);
    }
    dec.end_of_stream();
    dec.into_request()
}

/// A stream whose first line is not `METHOD SP target SP HTTP/1.1` with METHOD one
/// of GET, POST, PUT, DELETE (the version missing, another method) is refused as
/// malformed, whatever follows it.
pub proof fn malformed_request_line_fails(text: Seq<char>)
    requires
        stream_lines(text).len() > 0,
        request_line(stream_lines(text)[0]) is None,
    ensures
        decode_text(text) == Err::<RequestView, ErrorKind>(ErrorKind::Parse),
{
    let lines = stream_lines(text);
    lemma_failed_stays(lines, lines.len() as int);
    assert(lines.take(lines.len() as int) =~= lines);
}

proof fn lemma_failed_stays(lines: Seq<Seq<char>>, k: int)
    requires
        1 <= k <= lines.len(),
        request_line(lines[0]) is None,
    ensures
        feed_all(lines.take(k)).stage == Stage::Failed(ErrorKind::Parse),
    decreases k,
{
    assert(lines.take(k).drop_last() =~= lines.take(k - 1));
    if k > 1 {
        lemma_failed_stays(lines, k - 1);
    } else {
        assert(lines.take(0) =~= Seq::<Seq<char>>::empty());
        assert(lines.take(1).last() == lines[0]);
    }
}

/// `key=` followed by a character other than `&` starts at `i` in query `q`.
pub open spec fn arg_at(q: Seq<char>, key: Seq<char>, i: int) -> bool {
    let v = i + key.len();
    &&& 0 <= i
    &&& v + 1 < q.len()
    &&& q.subrange(i, v) == key
    &&& q[v] == '='
    &&& q[v + 1] != '&'
}

/// The first position at or after `i` where an argument named `key` starts.
pub open spec fn first_arg(q: Seq<char>, key: Seq<char>, i: int) -> Option<int>
    decreases q.len() - i,
{
    if i < 0 || i >= q.len() {
        None
    } else if arg_at(q, key, i) {
        Some(i)
    } else {
        first_arg(q, key, i + 1)
    }
}

/// The end of the run of characters other than `&` that starts at `j`.
pub open spec fn value_end(q: Seq<char>, j: int) -> int
    decreases q.len() - j,
{
    if 0 <= j < q.len() && q[j] != '&' {
        value_end(q, j + 1)
    } else {
        j
    }
}

/// The value of the first `key=value` in query `q`: the first place where `key=`
/// is followed by a character other than `&`, and everything from there to the next `&`.
pub open spec fn query_arg(q: Seq<char>, key: Seq<char>) -> Option<Seq<char>> {
    match first_arg(q, key, 0) {
        Some(i) => {
            let s = i + key.len() + 1;
            Some(q.subrange(s, value_end(q, s)))
        },
        None => None,
    }
}

fn arg_starts(q: &[char], key: &[char], i: usize) -> (r: bool)
    requires
        i < q@.len(),
    ensures
        r == arg_at(q@, key@, i as int),
{
    if key.len() >= q.len() - i || q.len() - i - key.len() < 2 {
        return false;
    }
    let v = i + key.len();
    let mut j: usize = 0;
    while j < key.len()
        invariant
            j <= key@.len(),
            i < q@.len(),
            v == i + key@.len(),
            i + key@.len() + 1 < q@.len(),
            forall|t: int| 0 <= t < j ==> q@[i + t] == key@[t],
        decreases key.len() - j,
    {
        if q[i + j] != key[j] {
            assert(q@.subrange(i as int, v as int)[j as int] != key@[j as int]);
            return false;
        }
        j += 1;
    }
    assert(q@.subrange(i as int, v as int) =~= key@);
    q[v] == '=' && q[v + 1] != '&'
}

impl ServerRequest {
    pub fn method(&self) -> (r: Method)
        ensures
            r == self.method,
    {
        self.method
    }

    pub fn path(&self) -> (r: &str)
        ensures
            r@ == self.path@,
    {
        self.path.as_str()
    }

    /// The body of a POST or PUT request.
    pub fn body_str(&self) -> (r: String)
        requires
            self.body is Some,
        ensures
            r@ == self.body->0@,
    {
        match &self.body {
            Some(b) => b.clone(),
            None => String::new(),
        }
    }

    /// The value of query argument `key`; `NotFound` without a query or without the argument.
    pub fn query_argument(&self, key: &str) -> (r: Result<String, ServerError>)
        ensures
            match opt_view(self.query) {
                Some(q) => match query_arg(q, key@) {
                    Some(v) => r matches Ok(s) && s@ == v,
                    None => r matches Err(e) && e.kind == ErrorKind::NotFound,
                },
                None => r matches Err(e) && e.kind == ErrorKind::NotFound,
            },
    {
        let query = match &self.query {
            Some(q) => q,
            None => return Err(ServerError::new(ErrorKind::NotFound, "No query string")),
        };
        let q = chars_of(query.as_str());
        let k = chars_of(key);
        let n = q.len();
        let mut i: usize = 0;
        while i < n
            invariant
                i <= n == q@.len(),
                q@ == query@,
                opt_view(self.query) == Some(query@),
                k@ == key@,
                first_arg(q@, k@, 0) == first_arg(q@, k@, i as int),
            decreases n - i,
        {
            if arg_starts(q.as_slice(), k.as_slice(), i) {
                let s = i + k.len() + 1;
                assert(first_arg(q@, k@, i as int) == Some(i as int));
                let mut e: usize = s;
                while e < n && q[e] != '&'
                    invariant
                        s <= e <= n == q@.len(),
                        s == i + k@.len() + 1,
                        q@ == query@,
                        opt_view(self.query) == Some(query@),
                        k@ == key@,
                        first_arg(q@, k@, 0) == Some(i as int),
                        value_end(q@, s as int) == value_end(q@, e as int),
                    decreases n - e,
                {
                    e += 1;
                }
                assert(value_end(q@, e as int) == e);
                let v = &q.as_slice()[s..e];
                assert(v@ == q@.subrange(s as int, e as int));
                return Ok(string_of(v));
            }
            i += 1;
        }
        Err(ServerError::new(ErrorKind::NotFound, "No match"))
    }
}

} // verus!
