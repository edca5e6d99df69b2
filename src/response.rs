//! Responses: construction, the bytes written for them, and reading those bytes back.

use vstd::prelude::*;
use vstd::string::StringSliceAdditionalSpecFns;
use vstd::utf8::valid_utf8;
use crate::error::{ErrorKind, ServerError};
use crate::request::name_char;
use crate::trie::pair_views;
use crate::text::{chars_of, string_of};

verus! {

/// The reason phrase that `http` gives a status code, if it knows one.
pub uninterp spec fn canonical_reason(code: u16) -> Option<Seq<char>>;

/// Relies on `http::StatusCode::from_u16` and `StatusCode::canonical_reason`: the phrase
/// depends on the code alone.
#[verifier::external_body]
fn reason_phrase(code: u16) -> (r: Option<&'static str>)
    ensures
        match r {
            Some(s) => canonical_reason(code) == Some(s@),
            None => canonical_reason(code) is None,
        },
{
    match http::StatusCode::from_u16(code) {
        Ok(status) => status.canonical_reason(),
        Err(_) => None,
    }
}

/// The bytes that `String::from_utf8_lossy` makes of `b`.
pub uninterp spec fn lossy_utf8(b: Seq<u8>) -> Seq<u8>;

/// Relies on `String::from_utf8_lossy`: the result depends on the bytes alone, and
/// valid UTF-8 comes back unchanged.
#[verifier::external_body]
fn lossy_text(b: &[u8]) -> (r: Vec<u8>)
    ensures
        r@ == lossy_utf8(b@),
        valid_utf8(b@) ==> r@ == b@,
{
    String::from_utf8_lossy(b).into_owned().into_bytes()
}

/// A character a response header value may hold: tab, or printable ASCII.
pub open spec fn out_value_char(c: char) -> bool {
    c == '\t' || (' ' <= c <= '~')
}

/// A header this server can write: a non-empty name of letters, digits, `_` and `-`,
/// and a value of printable ASCII and tabs.
pub open spec fn header_ok(h: (Seq<char>, Seq<char>)) -> bool {
    &&& h.0.len() >= 1
    &&& forall|i: int| 0 <= i < h.0.len() ==> name_char(#[trigger] h.0[i])
    &&& forall|i: int| 0 <= i < h.1.len() ==> out_value_char(#[trigger] h.1[i])
}

/// Every header can be written.
pub open spec fn headers_ok(hs: Seq<(Seq<char>, Seq<char>)>) -> bool {
    forall|i: int| 0 <= i < hs.len() ==> header_ok(#[trigger] hs[i])
}

/// A response, fully buffered.
#[derive(Debug)]
pub struct ServerResponse {
    pub status: u16,
    pub headers: Vec<(String, String)>,
    pub body: Option<Vec<u8>>,
}

/// A response as a value.
pub struct ResponseView {
    pub status: u16,
    pub headers: Seq<(Seq<char>, Seq<char>)>,
    pub body: Option<Seq<u8>>,
}

impl View for ServerResponse {
    type V = ResponseView;

    open spec fn view(&self) -> ResponseView {
        ResponseView {
            status: self.status,
            headers: pair_views(self.headers@),
            body: match self.body {
                Some(b) => Some(b@),
                None => None,
            },
        }
    }
}

/// A three-digit status code and writable headers.
pub open spec fn response_ok(r: ResponseView) -> bool {
    100 <= r.status <= 999 && headers_ok(r.headers)
}

/// `Content-Type: text/plain`
pub open spec fn text_plain() -> (Seq<char>, Seq<char>) {
    (
        seq!['C', 'o', 'n', 't', 'e', 'n', 't', '-', 'T', 'y', 'p', 'e'],
        seq!['t', 'e', 'x', 't', '/', 'p', 'l', 'a', 'i', 'n'],
    )
}

/// `Content-Type: application/json`
pub open spec fn application_json() -> (Seq<char>, Seq<char>) {
    (
        seq!['C', 'o', 'n', 't', 'e', 'n', 't', '-', 'T', 'y', 'p', 'e'],
        seq!['a', 'p', 'p', 'l', 'i', 'c', 'a', 't', 'i', 'o', 'n', '/', 'j', 's', 'o', 'n'],
    )
}

/// `Content-Disposition: attachment; filename="<name>"`
pub open spec fn attachment(name: Seq<char>) -> (Seq<char>, Seq<char>) {
    (
        seq!['C', 'o', 'n', 't', 'e', 'n', 't', '-', 'D', 'i', 's', 'p', 'o', 's', 'i', 't', 'i', 'o', 'n'],
        seq!['a', 't', 't', 'a', 'c', 'h', 'm', 'e', 'n', 't', ';', ' ', 'f', 'i', 'l', 'e', 'n', 'a', 'm', 'e', '=', '"']
            + name + seq!['"'],
    )
}

fn header_pair(name: &[char], value: &[char]) -> (r: (String, String))
    ensures
        r.0@ == name@,
        r.1@ == value@,
{
    (string_of(name), string_of(value))
}

fn check_name(s: &[char]) -> (r: bool)
    ensures
        r == (s@.len() >= 1 && forall|i: int| 0 <= i < s@.len() ==> name_char(#[trigger] s@[i])),
{
    if s.len() == 0 {
        return false;
    }
    let mut i: usize = 0;
    while i < s.len()
        invariant
            i <= s@.len(),
            forall|j: int| 0 <= j < i ==> name_char(#[trigger] s@[j]),
        decreases s.len() - i,
    {
        let c = s[i];
        if !(('a' <= c && c <= 'z') || ('A' <= c && c <= 'Z') || ('0' <= c && c <= '9') || c == '_' || c == '-') {
            assert(!name_char(s@[i as int]));
            return false;
        }
        i += 1;
    }
    true
}

fn check_value(s: &[char]) -> (r: bool)
    ensures
        r == forall|i: int| 0 <= i < s@.len() ==> out_value_char(#[trigger] s@[i]),
{
    let mut i: usize = 0;
    while i < s.len()
        invariant
            i <= s@.len(),
            forall|j: int| 0 <= j < i ==> out_value_char(#[trigger] s@[j]),
        decreases s.len() - i,
    {
        let c = s[i];
        if !(c == '\t' || (' ' <= c && c <= '~')) {
            assert(!out_value_char(s@[i as int]));
            return false;
        }
        i += 1;
    }
    true
}

impl ServerResponse {
    /// A response with the given status, headers and body; `Internal` when the
    /// status is not three digits or a header cannot be written.
    pub fn create_base(code: u16, headers: Vec<(String, String)>, body: Option<Vec<u8>>) -> (r: Result<ServerResponse, ServerError>)
        ensures
            match r {
                Ok(resp) => {
                    &&& response_ok(resp@)
                    &&& resp.status == code
                    &&& resp@.headers == pair_views(headers@)
                    &&& resp.body == body
                },
                Err(e) => !response_ok(ResponseView { status: code, headers: pair_views(headers@), body: None })
                    && e.kind == ErrorKind::Internal,
            },
    {
        if code < 100 || code > 999 {
            return Err(ServerError::err("Invalid status code"));
        }
        let mut i: usize = 0;
        while i < headers.len()
            invariant
                i <= headers@.len(),
                forall|j: int| 0 <= j < i ==> header_ok(#[trigger] pair_views(headers@)[j]),
            decreases headers.len() - i,
        {
            let name = chars_of(headers[i].0.as_str());
            let value = chars_of(headers[i].1.as_str());
            assert(pair_views(headers@)[i as int] == (name@, value@));
            let ghost h = pair_views(headers@)[i as int];
            if !check_name(name.as_slice()) {
                assert(!header_ok(h));
                return Err(ServerError::err("Invalid header"));
            }
            let vs = value.as_slice();
            let ok_value = check_value(vs);
            assert(vs@ == h.1);
            if !ok_value {
                assert(!(forall|j: int| 0 <= j < h.1.len() ==> out_value_char(#[trigger] h.1[j])));
                return Err(ServerError::err("Invalid header"));
            }
            i += 1;
        }
        Ok(ServerResponse { status: code, headers, body })
    }

    /// Whether this response can be written: a three-digit status and writable headers.
    pub fn is_sendable(&self) -> (r: bool)
        ensures
            r == response_ok(self@),
    {
        if self.status < 100 || self.status > 999 {
            return false;
        }
        let mut i: usize = 0;
        while i < self.headers.len()
            invariant
                100 <= self.status <= 999,
                i <= self.headers@.len(),
                forall|j: int| 0 <= j < i ==> header_ok(#[trigger] pair_views(self.headers@)[j]),
            decreases self.headers.len() - i,
        {
            let name = chars_of(self.headers[i].0.as_str());
            let value = chars_of(self.headers[i].1.as_str());
            let ghost h = pair_views(self.headers@)[i as int];
            assert(h == (name@, value@));
            let ns = name.as_slice();
            if !check_name(ns) {
                assert(!header_ok(h));
                return false;
            }
            let vs = value.as_slice();
            let ok_value = check_value(vs);
            assert(vs@ == h.1);
            if !ok_value {
                assert(!(forall|j: int| 0 <= j < h.1.len() ==> out_value_char(#[trigger] h.1[j])));
                return false;
            }
            i += 1;
        }
        true
    }

    /// The plain-text reply that reports `e` to a client.
    pub fn error_response(e: &ServerError) -> (r: ServerResponse)
        ensures
            response_ok(r@),
            r@.status == e.kind.spec_status(),
            r@.headers == seq![text_plain()],
            r@.body == Some(vstd::utf8::encode_utf8(e.error@)),
    {
        ServerResponse::create(e.code(), vstd::slice::slice_to_vec(e.error.as_str().as_bytes()))
    }

    /// A plain-text response.
    pub fn create(code: u16, body: Vec<u8>) -> (r: ServerResponse)
        requires
            100 <= code <= 999,
        ensures
            response_ok(r@),
            r@.status == code,
            r@.headers == seq![text_plain()],
            r@.body == Some(body@),
    {
        let name = ['C', 'o', 'n', 't', 'e', 'n', 't', '-', 'T', 'y', 'p', 'e'];
        let value = ['t', 'e', 'x', 't', '/', 'p', 'l', 'a', 'i', 'n'];
        let h = header_pair(&name, &value);
        let ghost hv = (h.0@, h.1@);
        assert(hv == text_plain());
        let headers = vec![h];
        assert(pair_views(headers@) =~= seq![hv]);
        assert(header_ok(hv));
        ServerResponse { status: code, headers, body: Some(body) }
    }

    /// A file sent as an attachment named `filename`; `Internal` when the name
    /// cannot stand in a header.
    pub fn download(filename: &str, body: Vec<u8>) -> (r: Result<ServerResponse, ServerError>)
        ensures
            match r {
                Ok(resp) => {
                    &&& response_ok(resp@)
                    &&& resp@.status == 200
                    &&& resp@.headers == seq![attachment(filename@)]
                    &&& resp@.body == Some(body@)
                },
                Err(e) => !header_ok(attachment(filename@)) && e.kind == ErrorKind::Internal,
            },
    {
        let name = ['C', 'o', 'n', 't', 'e', 'n', 't', '-', 'D', 'i', 's', 'p', 'o', 's', 'i', 't', 'i', 'o', 'n'];
        let mut value: Vec<char> = vec!['a', 't', 't', 'a', 'c', 'h', 'm', 'e', 'n', 't', ';', ' ', 'f', 'i', 'l', 'e', 'n', 'a', 'm', 'e', '=', '"'];
        let ghost start = value@;
        let mut f = chars_of(filename);
        value.append(&mut f);
        value.push('"');
        assert(value@ =~= attachment(filename@).1);
        assert(name@ =~= attachment(filename@).0);
        let h = header_pair(&name, value.as_slice());
        let ghost hv = (h.0@, h.1@);
        let headers = vec![h];
        assert(pair_views(headers@) =~= seq![hv]);
        match ServerResponse::create_base(200, headers, Some(body)) {
            Ok(resp) => {
                assert(header_ok(pair_views(resp.headers@)[0]));
                Ok(resp)
            },
            Err(e) => {
                assert(!headers_ok(seq![hv]));
                Err(e)
            },
        }
    }

    /// The response for resource `name` once its file was read: the contents as
    /// an attachment, or `NotFound` when the file could not be read.
    pub fn file(name: &str, contents: Option<Vec<u8>>) -> (r: Result<ServerResponse, ServerError>)
        ensures
            match contents {
                None => r matches Err(e) && e.kind == ErrorKind::NotFound,
                Some(body) => match r {
                    Ok(resp) => {
                        &&& response_ok(resp@)
                        &&& resp@.status == 200
                        &&& resp@.headers == seq![attachment(name@)]
                        &&& resp@.body == Some(body@)
                    },
                    Err(e) => !header_ok(attachment(name@)) && e.kind == ErrorKind::Internal,
                },
            },
    {
        match contents {
            Some(body) => ServerResponse::download(name, body),
            None => Err(ServerError::new(ErrorKind::NotFound, "File not found")),
        }
    }

    /// A JSON response holding the UTF-8 bytes of `body`.
    pub fn json(body: &str) -> (r: ServerResponse)
        ensures
            response_ok(r@),
            r@.status == 200,
            r@.headers == seq![application_json()],
            r@.body == Some(body.spec_bytes()),
    {
        let name = ['C', 'o', 'n', 't', 'e', 'n', 't', '-', 'T', 'y', 'p', 'e'];
        let value = ['a', 'p', 'p', 'l', 'i', 'c', 'a', 't', 'i', 'o', 'n', '/', 'j', 's', 'o', 'n'];
        let h = header_pair(&name, &value);
        let ghost hv = (h.0@, h.1@);
        assert(hv == application_json());
        let headers = vec![h];
        assert(pair_views(headers@) =~= seq![hv]);
        assert(header_ok(hv));
        let bytes = vstd::slice::slice_to_vec(body.as_bytes());
        ServerResponse { status: 200, headers, body: Some(bytes) }
    }
}


/// The end of a line on the wire.
pub open spec fn crlf() -> Seq<char> {
    seq!['\r', '\n']
}

/// `HTTP/1.1 `, the start of every status line.
pub open spec fn version_prefix() -> Seq<char> {
    seq!['H', 'T', 'T', 'P', '/', '1', '.', '1', ' ']
}

/// The decimal digit `d` as a character.
pub open spec fn digit(d: u16) -> char {
    ((d + 48) as u8) as char
}

/// The three digits of a status code.
pub open spec fn status_digits(s: u16) -> Seq<char> {
    seq![digit(s / 100), digit((s / 10) % 10), digit(s % 10)]
}

/// Printable ASCII only.
pub open spec fn printable(t: Seq<char>) -> bool {
    forall|i: int| 0 <= i < t.len() ==> ' ' <= #[trigger] t[i] <= '~'
}

/// A space and the reason phrase, when `http` knows a printable one for the code.
pub open spec fn reason_part(s: u16) -> Seq<char> {
    match canonical_reason(s) {
        Some(r) => if printable(r) { seq![' '] + r } else { Seq::empty() },
        None => Seq::empty(),
    }
}

fn check_printable(t: &[char]) -> (r: bool)
    ensures
        r == printable(t@),
{
    let mut i: usize = 0;
    while i < t.len()
        invariant
            i <= t@.len(),
            forall|j: int| 0 <= j < i ==> ' ' <= #[trigger] t@[j] <= '~',
        decreases t.len() - i,
    {
        if !(' ' <= t[i] && t[i] <= '~') {
            return false;
        }
        i += 1;
    }
    true
}

/// `name: value` and a line end.
pub open spec fn header_text(h: (Seq<char>, Seq<char>)) -> Seq<char> {
    h.0 + seq![':', ' '] + h.1 + crlf()
}

/// The header lines, in order.
pub open spec fn header_block(hs: Seq<(Seq<char>, Seq<char>)>) -> Seq<char>
    decreases hs.len(),
{
    if hs.len() == 0 {
        Seq::empty()
    } else {
        header_text(hs[0]) + header_block(hs.drop_first())
    }
}

/// Status line, header lines and the empty line; no other framing.
pub open spec fn head_text(s: u16, hs: Seq<(Seq<char>, Seq<char>)>) -> Seq<char> {
    version_prefix() + status_digits(s) + reason_part(s) + crlf() + header_block(hs) + crlf()
}

/// One byte per character.
pub open spec fn ascii_bytes(t: Seq<char>) -> Seq<u8> {
    t.map_values(|c: char| c as u8)
}

/// The body, empty when there is none.
pub open spec fn body_bytes(b: Option<Seq<u8>>) -> Seq<u8> {
    match b {
        Some(x) => x,
        None => Seq::empty(),
    }
}

/// The bytes written for a response whose body text is `text`.
pub open spec fn wire_bytes(s: u16, hs: Seq<(Seq<char>, Seq<char>)>, text: Seq<u8>) -> Seq<u8> {
    ascii_bytes(head_text(s, hs)) + text
}

proof fn lemma_header_block_push(hs: Seq<(Seq<char>, Seq<char>)>, h: (Seq<char>, Seq<char>))
    ensures
        header_block(hs.push(h)) == header_block(hs) + header_text(h),
    decreases hs.len(),
{
    if hs.len() == 0 {
        assert(hs.push(h).drop_first() =~= Seq::<(Seq<char>, Seq<char>)>::empty());
        assert(header_block(hs.push(h).drop_first()) =~= Seq::<char>::empty());
        assert(hs.push(h)[0] == h);
        assert(header_block(hs) =~= Seq::<char>::empty());
        assert(header_block(hs.push(h)) =~= header_block(hs) + header_text(h));
    } else {
        assert(hs.push(h)[0] == hs[0]);
        assert(hs.push(h).drop_first() =~= hs.drop_first().push(h));
        lemma_header_block_push(hs.drop_first(), h);
        assert(header_block(hs.push(h)) =~= header_block(hs) + header_text(h));
    }
}

fn digit_char(d: u16) -> (c: char)
    requires
        d < 10,
    ensures
        c == digit(d),
{
    ((d as u8) + 48u8) as char
}

fn push_text(out: &mut Vec<char>, s: &str)
    ensures
        final(out)@ == old(out)@ + s@,
{
    let mut t = chars_of(s);
    out.append(&mut t);
}

impl ServerResponse {
    /// The bytes sent for this response: `HTTP/1.1 <status>`, one line per header,
    /// an empty line, then the body as text (invalid UTF-8 replaced).
    pub fn into_bytes(self) -> (r: Vec<u8>)
        requires
            response_ok(self@),
        ensures
            r@ == wire_bytes(self@.status, self@.headers, lossy_utf8(body_bytes(self@.body))),
            valid_utf8(body_bytes(self@.body)) ==> r@ == wire_bytes(self@.status, self@.headers, body_bytes(self@.body)),
    {
        let ghost hs = self@.headers;
        let s = self.status;
        let mut head: Vec<char> = vec!['H', 'T', 'T', 'P', '/', '1', '.', '1', ' '];
        head.push(digit_char(s / 100));
        head.push(digit_char((s / 10) % 10));
        head.push(digit_char(s % 10));
        match reason_phrase(s) {
            Some(reason) => {
                let rc = chars_of(reason);
                if check_printable(rc.as_slice()) {
                    head.push(' ');
                    push_text(&mut head, reason);
                }
            },
            None => {},
        }
        head.push('\r');
        head.push('\n');
        let ghost first = head@;
        assert(first =~= version_prefix() + status_digits(s) + reason_part(s) + crlf());
        let mut i: usize = 0;
        assert(hs.take(0) =~= Seq::<(Seq<char>, Seq<char>)>::empty());
        assert(head@ =~= first + header_block(hs.take(0)));
        while i < self.headers.len()
            invariant
                hs == pair_views(self.headers@),
                i <= hs.len(),
                head@ == first + header_block(hs.take(i as int)),
            decreases self.headers.len() - i,
        {
            push_text(&mut head, self.headers[i].0.as_str());
            head.push(':');
            head.push(' ');
            push_text(&mut head, self.headers[i].1.as_str());
            head.push('\r');
            head.push('\n');
            proof {
                assert(hs.take(i + 1) =~= hs.take(i as int).push(hs[i as int]));
                lemma_header_block_push(hs.take(i as int), hs[i as int]);
            }
            assert(head@ =~= first + header_block(hs.take(i + 1)));
            i += 1;
        }
        head.push('\r');
        head.push('\n');
        assert(hs.take(hs.len() as int) =~= hs);
        assert(head@ =~= head_text(s, hs));
        let mut out: Vec<u8> = Vec::new();
        let mut j: usize = 0;
        while j < head.len()
            invariant
                j <= head@.len(),
                out@ =~= ascii_bytes(head@.take(j as int)),
            decreases head.len() - j,
        {
            out.push(head[j] as u8);
            assert(ascii_bytes(head@.take(j + 1)) =~= ascii_bytes(head@.take(j as int)).push(head@[j as int] as u8));
            j += 1;
        }
        assert(head@.take(head@.len() as int) =~= head@);
        let mut text = match &self.body {
            Some(b) => lossy_text(b.as_slice()),
            None => {
                let empty: Vec<u8> = Vec::new();
                lossy_text(empty.as_slice())
            },
        };
        proof {
            if self.body is None {
                assert(body_bytes(self@.body) =~= Seq::<u8>::empty());
            }
        }
        out.append(&mut text);
        out
    }
}

/// Where the first `\r\n` in `c` starts, or the length of `c` when there is none.
pub open spec fn line_end(c: Seq<char>) -> int
    decreases c.len(),
{
    if c.len() < 2 {
        c.len() as int
    } else if c[0] == '\r' && c[1] == '\n' {
        0
    } else {
        1 + line_end(c.drop_first())
    }
}

/// Where the first `:` in `l` stands, or the length of `l` when there is none.
pub open spec fn colon_at(l: Seq<char>) -> int
    decreases l.len(),
{
    if l.len() == 0 {
        0
    } else if l[0] == ':' {
        0
    } else {
        1 + colon_at(l.drop_first())
    }
}

/// A header line read as `name: value`, split at its first colon.
pub open spec fn split_header(l: Seq<char>) -> Option<(Seq<char>, Seq<char>)> {
    let k = colon_at(l);
    if 0 <= k && k + 2 <= l.len() && l[k] == ':' && l[k + 1] == ' ' {
        Some((l.take(k), l.skip(k + 2)))
    } else {
        None
    }
}

/// Header lines read up to the empty line, with the number of characters they took.
pub open spec fn headers_of(c: Seq<char>) -> Option<(Seq<(Seq<char>, Seq<char>)>, int)>
    decreases c.len(),
{
    let e = line_end(c);
    if e < 0 || e + 2 > c.len() {
        None
    } else if e == 0 {
        Some((Seq::empty(), 2))
    } else {
        match split_header(c.take(e)) {
            None => None,
            Some(h) => match headers_of(c.skip(e + 2)) {
                None => None,
                Some((hs, n)) => Some((seq![h] + hs, e + 2 + n)),
            },
        }
    }
}

/// A decimal digit.
pub open spec fn is_digit(c: char) -> bool {
    '0' <= c <= '9'
}

/// The value of a decimal digit.
pub open spec fn digit_value(c: char) -> int {
    (c as u32) as int - 48
}

/// Reads response bytes back: the status from `HTTP/1.1 ddd`, the rest of the
/// status line skipped, header lines up to the empty line, and every byte after
/// that as the body.
pub open spec fn parse_response(b: Seq<u8>) -> Option<(u16, Seq<(Seq<char>, Seq<char>)>, Seq<u8>)> {
    let c = b.map_values(|x: u8| x as char);
    if c.len() >= 12 && c.take(9) == version_prefix() && is_digit(c[9]) && is_digit(c[10]) && is_digit(c[11]) {
        let status = (100 * digit_value(c[9]) + 10 * digit_value(c[10]) + digit_value(c[11])) as u16;
        let rest = c.skip(12);
        let e = line_end(rest);
        if e < 0 || e + 2 > rest.len() {
            None
        } else {
            match headers_of(rest.skip(e + 2)) {
                None => None,
                Some((hs, n)) => Some((status, hs, b.skip(12 + e + 2 + n))),
            }
        }
    } else {
        None
    }
}

proof fn lemma_line_end(p: Seq<char>, q: Seq<char>)
    requires
        forall|i: int| 0 <= i < p.len() ==> p[i] != '\r',
    ensures
        line_end(p + crlf() + q) == p.len(),
    decreases p.len(),
{
    let c = p + crlf() + q;
    if p.len() > 0 {
        assert(c[0] == p[0]);
        assert(c.drop_first() =~= p.drop_first() + crlf() + q);
        lemma_line_end(p.drop_first(), q);
    } else {
        assert(c[0] == '\r' && c[1] == '\n');
    }
}

proof fn lemma_colon_at(n: Seq<char>, v: Seq<char>)
    requires
        forall|i: int| 0 <= i < n.len() ==> n[i] != ':',
    ensures
        colon_at(n + seq![':', ' '] + v) == n.len(),
    decreases n.len(),
{
    let l = n + seq![':', ' '] + v;
    if n.len() > 0 {
        assert(l[0] == n[0]);
        assert(l.drop_first() =~= n.drop_first() + seq![':', ' '] + v);
        lemma_colon_at(n.drop_first(), v);
    } else {
        assert(l[0] == ':');
    }
}

proof fn lemma_headers_of(hs: Seq<(Seq<char>, Seq<char>)>, x: Seq<char>)
    requires
        headers_ok(hs),
    ensures
        headers_of(header_block(hs) + crlf() + x) == Some((hs, header_block(hs).len() as int + 2)),
    decreases hs.len(),
{
    let c = header_block(hs) + crlf() + x;
    if hs.len() == 0 {
        assert(c =~= crlf() + x);
        assert(c[0] == '\r' && c[1] == '\n');
        assert(hs =~= Seq::<(Seq<char>, Seq<char>)>::empty());
    } else {
        let h = hs[0];
        let tail = hs.drop_first();
        assert(header_ok(h));
        assert forall|j: int| 0 <= j < tail.len() implies header_ok(#[trigger] tail[j]) by {
            assert(tail[j] == hs[j + 1]);
        }
        let line = h.0 + seq![':', ' '] + h.1;
        let more = header_block(tail) + crlf() + x;
        assert(c =~= line + crlf() + more);
        assert forall|i: int| 0 <= i < line.len() implies line[i] != '\r' by {
            if i < h.0.len() {
                assert(name_char(h.0[i]));
            } else if i >= h.0.len() + 2 {
                assert(out_value_char(h.1[i - h.0.len() - 2]));
            }
        }
        lemma_line_end(line, more);
        let e = line.len() as int;
        assert(c.take(e) =~= line);
        assert forall|i: int| 0 <= i < h.0.len() implies h.0[i] != ':' by {
            assert(name_char(h.0[i]));
        }
        lemma_colon_at(h.0, h.1);
        assert(line[h.0.len() as int] == ':');
        assert(line.take(h.0.len() as int) =~= h.0);
        assert(line.skip(h.0.len() as int + 2) =~= h.1);
        assert(split_header(line) == Some(h));
        assert(c.skip(e + 2) =~= more);
        lemma_headers_of(tail, x);
        assert(seq![h] + tail =~= hs);
    }
}

/// ASCII bytes are valid UTF-8.
pub proof fn ascii_is_utf8(b: Seq<u8>)
    requires
        forall|i: int| 0 <= i < b.len() ==> b[i] < 128,
    ensures
        valid_utf8(b),
    decreases b.len(),
{
    if b.len() > 0 {
        let x = b[0];
        assert(x < 128);
        assert(((x & 0x7f) as u32) < 128) by (bit_vector);
        assert(b.subrange(1, b.len() as int) =~= b.drop_first());
        assert forall|i: int| 0 <= i < b.drop_first().len() implies b.drop_first()[i] < 128 by {
            assert(b.drop_first()[i] == b[i + 1]);
        }
        ascii_is_utf8(b.drop_first());
    }
}

/// Encoding a response and reading the bytes back gives its status and its headers
/// exactly, and the written body text as the body: the encoder adds no framing of its
/// own (no length, no keep-alive). An ASCII body is written unchanged.
pub proof fn response_round_trip(r: ResponseView)
    requires
        response_ok(r),
    ensures
        forall|text: Seq<u8>| parse_response(#[trigger] wire_bytes(r.status, r.headers, text)) == Some((r.status, r.headers, text)),
        (forall|i: int| 0 <= i < body_bytes(r.body).len() ==> body_bytes(r.body)[i] < 128) ==> valid_utf8(body_bytes(r.body)),
{
    assert forall|text: Seq<u8>| parse_response(#[trigger] wire_bytes(r.status, r.headers, text)) == Some((r.status, r.headers, text)) by {
        lemma_parse_wire(r, text);
    }
    if forall|i: int| 0 <= i < body_bytes(r.body).len() ==> body_bytes(r.body)[i] < 128 {
        ascii_is_utf8(body_bytes(r.body));
    }
}

proof fn lemma_parse_wire(r: ResponseView, text: Seq<u8>)
    requires
        response_ok(r),
    ensures
        parse_response(wire_bytes(r.status, r.headers, text)) == Some((r.status, r.headers, text)),
{
    let s = r.status;
    let hs = r.headers;
    let head = head_text(s, hs);
    let b = wire_bytes(s, hs, text);
    let c = b.map_values(|x: u8| x as char);
    let x = text.map_values(|y: u8| y as char);
    let block = header_block(hs) + crlf();
    lemma_head_ascii(s, hs);
    assert(c =~= head + x) by {
        assert forall|i: int| 0 <= i < c.len() implies c[i] == (head + x)[i] by {
            if i < head.len() {
                assert(b[i] == head[i] as u8);
                lemma_ascii_cast(head[i]);
            } else {
                assert(b[i] == text[i - head.len()]);
            }
        }
    }
    assert(c.take(9) =~= version_prefix());
    assert(c[9] == digit(s / 100) && c[10] == digit((s / 10) % 10) && c[11] == digit(s % 10));
    assert(100 * (s / 100) + 10 * ((s / 10) % 10) + s % 10 == s);
    let rest = c.skip(12);
    let reason = reason_part(s);
    assert(rest =~= reason + crlf() + (block + x));
    assert forall|i: int| 0 <= i < reason.len() implies reason[i] != '\r' by {
        if let Some(rp) = canonical_reason(s) {
            if printable(rp) && i > 0 {
                assert(reason[i] == rp[i - 1]);
            }
        }
    }
    lemma_line_end(reason, block + x);
    let e = reason.len() as int;
    assert(rest.skip(e + 2) =~= header_block(hs) + crlf() + x);
    lemma_headers_of(hs, x);
    assert(12 + e + 2 + header_block(hs).len() + 2 == head.len());
    assert(b.skip(head.len() as int) =~= text);
}

/// Characters below 128.
pub open spec fn ascii_text(t: Seq<char>) -> bool {
    forall|i: int| 0 <= i < t.len() ==> #[trigger] t[i] <= '\x7f'
}

proof fn lemma_ascii_cast(c: char)
    requires
        c <= '\x7f',
    ensures
        ((c as u8) as char) == c,
{
}

proof fn lemma_ascii_concat(a: Seq<char>, b: Seq<char>)
    requires
        ascii_text(a),
        ascii_text(b),
    ensures
        ascii_text(a + b),
{
    assert forall|i: int| 0 <= i < (a + b).len() implies #[trigger] (a + b)[i] <= '\x7f' by {
        if i >= a.len() {
            assert((a + b)[i] == b[i - a.len()]);
        }
    }
}

proof fn lemma_block_ascii(hs: Seq<(Seq<char>, Seq<char>)>)
    requires
        headers_ok(hs),
    ensures
        ascii_text(header_block(hs)),
    decreases hs.len(),
{
    if hs.len() > 0 {
        let tail = hs.drop_first();
        assert forall|j: int| 0 <= j < tail.len() implies header_ok(#[trigger] tail[j]) by {
            assert(tail[j] == hs[j + 1]);
        }
        lemma_block_ascii(tail);
        let h = hs[0];
        assert(header_ok(h));
        assert(ascii_text(h.0)) by {
            assert forall|i: int| 0 <= i < h.0.len() implies #[trigger] h.0[i] <= '\x7f' by {
                assert(name_char(h.0[i]));
            }
        }
        assert(ascii_text(h.1)) by {
            assert forall|i: int| 0 <= i < h.1.len() implies #[trigger] h.1[i] <= '\x7f' by {
                assert(out_value_char(h.1[i]));
            }
        }
        assert(ascii_text(seq![':', ' ']));
        assert(ascii_text(crlf()));
        lemma_ascii_concat(h.0, seq![':', ' ']);
        lemma_ascii_concat(h.0 + seq![':', ' '], h.1);
        lemma_ascii_concat(h.0 + seq![':', ' '] + h.1, crlf());
        lemma_ascii_concat(header_text(h), header_block(tail));
    } else {
        assert(header_block(hs) =~= Seq::<char>::empty());
    }
}

proof fn lemma_head_ascii(s: u16, hs: Seq<(Seq<char>, Seq<char>)>)
    requires
        100 <= s <= 999,
        headers_ok(hs),
    ensures
        ascii_text(head_text(s, hs)),
{
    lemma_block_ascii(hs);
    assert(ascii_text(version_prefix()));
    assert(ascii_text(status_digits(s)));
    assert(ascii_text(reason_part(s))) by {
        if let Some(rp) = canonical_reason(s) {
            if printable(rp) {
                assert forall|i: int| 0 <= i < reason_part(s).len() implies #[trigger] reason_part(s)[i] <= '\x7f' by {
                    if i > 0 {
                        assert(reason_part(s)[i] == rp[i - 1]);
                    }
                }
            }
        }
    }
    assert(ascii_text(crlf()));
    lemma_ascii_concat(version_prefix(), status_digits(s));
    lemma_ascii_concat(version_prefix() + status_digits(s), reason_part(s));
    lemma_ascii_concat(version_prefix() + status_digits(s) + reason_part(s), crlf());
    lemma_ascii_concat(version_prefix() + status_digits(s) + reason_part(s) + crlf(), header_block(hs));
    lemma_ascii_concat(version_prefix() + status_digits(s) + reason_part(s) + crlf() + header_block(hs), crlf());
}

} // verus!
