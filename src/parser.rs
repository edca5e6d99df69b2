//! Path tokenizers: registration patterns and request paths.

use vstd::prelude::*;
use crate::error::{ErrorKind, ServerError};
use crate::method::Method;
use crate::text::{all_alphanumeric, alphanumeric, check_alphanumeric, is_alphanumeric, string_of};

verus! {

/// `s` without its leading slashes.
pub open spec fn trim_front(s: Seq<char>) -> Seq<char>
    decreases s.len(),
{
    if s.len() > 0 && s[0] == '/' {
        trim_front(s.drop_first())
    } else {
        s
    }
}

/// `s` without its trailing slashes.
pub open spec fn trim_back(s: Seq<char>) -> Seq<char>
    decreases s.len(),
{
    if s.len() > 0 && s.last() == '/' {
        trim_back(s.drop_last())
    } else {
        s
    }
}

/// `s` split at every `sep`; always at least one (possibly empty) piece.
pub open spec fn split_on(s: Seq<char>, sep: char) -> Seq<Seq<char>>
    decreases s.len(),
{
    if s.len() == 0 {
        seq![Seq::empty()]
    } else {
        let pre = split_on(s.drop_last(), sep);
        if s.last() == sep {
            pre.push(Seq::empty())
        } else {
            pre.update(pre.len() - 1, pre.last().push(s.last()))
        }
    }
}

/// The segments of a path: outer slashes trimmed, then split at each slash.
/// A path made of slashes alone has no segments.
pub open spec fn segments(path: Seq<char>) -> Seq<Seq<char>> {
    let t = trim_back(trim_front(path));
    if t.len() == 0 {
        Seq::empty()
    } else {
        split_on(t, '/')
    }
}

/// The character sequences held by a list of character vectors.
pub open spec fn views(v: Seq<Vec<char>>) -> Seq<Seq<char>> {
    v.map_values(|x: Vec<char>| x@)
}

/// The character sequences held by a list of strings.
pub open spec fn string_views(v: Seq<String>) -> Seq<Seq<char>> {
    v.map_values(|x: String| x@)
}

pub(crate) proof fn lemma_split_nonempty(s: Seq<char>, sep: char)
    ensures
        split_on(s, sep).len() >= 1,
    decreases s.len(),
{
    if s.len() > 0 {
        lemma_split_nonempty(s.drop_last(), sep);
    }
}

/// Splits `s[lo..hi]` at every `sep`.
pub fn split_chars(s: &[char], lo: usize, hi: usize, sep: char) -> (r: Vec<Vec<char>>)
    requires
        lo <= hi <= s@.len(),
    ensures
        views(r@) == split_on(s@.subrange(lo as int, hi as int), sep),
{
    let ghost t = s@.subrange(lo as int, hi as int);
    let mut segs: Vec<Vec<char>> = Vec::new();
    let mut cur: Vec<char> = Vec::new();
    let mut i: usize = lo;
    assert(t.subrange(0, 0) =~= Seq::<char>::empty());
    assert(views(segs@).push(cur@) =~= seq![Seq::<char>::empty()]);
    while i < hi
        invariant
            lo <= i <= hi <= s@.len(),
            t == s@.subrange(lo as int, hi as int),
            split_on(t.subrange(0, i - lo), sep) == views(segs@).push(cur@),
        decreases hi - i,
    {
        let ghost before = t.subrange(0, i - lo);
        let ghost after = t.subrange(0, i + 1 - lo);
        assert(after.drop_last() =~= before);
        assert(after.last() == s@[i as int]);
        proof {
            lemma_split_nonempty(before, sep);
        }
        if s[i] == sep {
            segs.push(cur);
            cur = Vec::new();
            assert(views(segs@).push(cur@) =~= split_on(before, sep).push(Seq::empty()));
        } else {
            cur.push(s[i]);
            assert(views(segs@).push(cur@) =~= split_on(before, sep).update(
                split_on(before, sep).len() - 1,
                split_on(before, sep).last().push(s@[i as int]),
            ));
        }
        i += 1;
    }
    assert(t.subrange(0, hi - lo) =~= t);
    segs.push(cur);
    segs
}

/// Splits a path into its segments.
pub fn path_segments(path: &[char]) -> (r: Vec<Vec<char>>)
    ensures
        views(r@) == segments(path@),
{
    let n = path.len();
    let mut lo: usize = 0;
    assert(path@.subrange(0, n as int) =~= path@);
    while lo < n && path[lo] == '/'
        invariant
            lo <= n == path@.len(),
            trim_front(path@) == trim_front(path@.subrange(lo as int, n as int)),
        decreases n - lo,
    {
        assert(path@.subrange(lo as int, n as int).drop_first() =~= path@.subrange(
            lo + 1,
            n as int,
        ));
        lo += 1;
    }
    assert(trim_front(path@) == path@.subrange(lo as int, n as int));
    let mut hi: usize = n;
    while hi > lo && path[hi - 1] == '/'
        invariant
            lo <= hi <= n == path@.len(),
            trim_back(trim_front(path@)) == trim_back(path@.subrange(lo as int, hi as int)),
        decreases hi,
    {
        assert(path@.subrange(lo as int, hi as int).drop_last() =~= path@.subrange(
            lo as int,
            hi - 1,
        ));
        hi -= 1;
    }
    let ghost t = path@.subrange(lo as int, hi as int);
    assert(trim_back(trim_front(path@)) == t);
    if hi == lo {
        let segs: Vec<Vec<char>> = Vec::new();
        assert(views(segs@) =~= segments(path@));
        return segs;
    }
    split_chars(path, lo, hi, '/')
}


/// One segment of a registration pattern.
#[derive(Debug, PartialEq, Eq)]
pub enum RoutePathToken {
    /// A literal segment.
    Static(String),
    /// A named placeholder, written `[name]`.
    Variable(String),
}

/// A registration token as a value.
pub enum TokenView {
    Static(Seq<char>),
    Variable(Seq<char>),
}

impl View for RoutePathToken {
    type V = TokenView;

    open spec fn view(&self) -> TokenView {
        match self {
            RoutePathToken::Static(s) => TokenView::Static(s@),
            RoutePathToken::Variable(s) => TokenView::Variable(s@),
        }
    }
}

/// What a segment of a registration pattern means: `[name]` with an alphanumeric
/// name is a variable, an alphanumeric segment is static, anything else is refused.
pub open spec fn route_token(seg: Seq<char>) -> Option<TokenView> {
    if seg.len() >= 2 && seg[0] == '[' && seg.last() == ']' {
        let name = seg.subrange(1, seg.len() - 1);
        if all_alphanumeric(name) {
            Some(TokenView::Variable(name))
        } else {
            None
        }
    } else if all_alphanumeric(seg) {
        Some(TokenView::Static(seg))
    } else {
        None
    }
}

/// The tokens of a registration pattern, when all of its segments are valid.
pub open spec fn route_tokens(pattern: Seq<char>) -> Option<Seq<TokenView>> {
    let segs = segments(pattern);
    if forall|i: int| 0 <= i < segs.len() ==> (#[trigger] route_token(segs[i])) is Some {
        Some(segs.map_values(|s: Seq<char>| route_token(s)->0))
    } else {
        None
    }
}

fn route_token_of(seg: &Vec<char>) -> (r: Option<RoutePathToken>)
    ensures
        match r {
            Some(t) => route_token(seg@) == Some(t@),
            None => route_token(seg@) is None,
        },
{
    let n = seg.len();
    if n >= 2 && seg[0] == '[' && seg[n - 1] == ']' {
        let name = &seg.as_slice()[1..n - 1];
        assert(name@ == seg@.subrange(1, n - 1));
        if check_alphanumeric(name) {
            Some(RoutePathToken::Variable(string_of(name)))
        } else {
            None
        }
    } else if check_alphanumeric(seg.as_slice()) {
        Some(RoutePathToken::Static(string_of(seg.as_slice())))
    } else {
        None
    }
}

/// A registration pattern read into tokens.
#[derive(Debug)]
pub struct RoutePath {
    pub tokens: Vec<RoutePathToken>,
}

impl View for RoutePath {
    type V = Seq<TokenView>;

    open spec fn view(&self) -> Seq<TokenView> {
        self.tokens@.map_values(|t: RoutePathToken| t@)
    }
}

impl RoutePath {
    /// Reads a registration pattern such as `/sum/[a]/[b]`; `/` alone is the root.
    pub fn parse(pattern: &str) -> (r: Result<RoutePath, ServerError>)
        ensures
            match r {
                Ok(p) => route_tokens(pattern@) == Some(p@),
                Err(e) => route_tokens(pattern@) is None && e.kind == ErrorKind::Parse,
            },
    {
        let chars = crate::text::chars_of(pattern);
        let segs = path_segments(chars.as_slice());
        let ghost sv = segments(pattern@);
        let mut tokens: Vec<RoutePathToken> = Vec::new();
        let mut i: usize = 0;
        while i < segs.len()
            invariant
                i <= segs@.len() == sv.len(),
                sv == segments(pattern@),
                views(segs@) == sv,
                tokens@.len() == i,
                forall|j: int| 0 <= j < i ==> route_token(sv[j]) == Some(#[trigger] tokens@[j]@),
            decreases segs.len() - i,
        {
            assert(segs@[i as int]@ == sv[i as int]);
            match route_token_of(&segs[i]) {
                Some(t) => tokens.push(t),
                None => {
                    assert(route_token(sv[i as int]) is None);
                    return Err(ServerError::new(ErrorKind::Parse, "Invalid token"));
                },
            }
            i += 1;
        }
        let p = RoutePath { tokens };
        assert forall|j: int| 0 <= j < sv.len() implies (#[trigger] route_token(sv[j])) is Some by {
            assert(route_token(sv[j]) == Some(tokens@[j]@));
        }
        assert(p@ =~= sv.map_values(|s: Seq<char>| route_token(s)->0));
        Ok(p)
    }
}

/// A request path read into literal segments and an optional trailing resource name.
#[derive(Debug)]
pub struct QueryPath {
    pub tokens: Vec<String>,
    pub resource: Option<String>,
}

/// `s` holds a dot.
pub open spec fn has_dot(s: Seq<char>) -> bool {
    exists|i: int| 0 <= i < s.len() && s[i] == '.'
}

/// Alphanumeric characters and dots only.
pub open spec fn resource_chars(s: Seq<char>) -> bool {
    forall|i: int| 0 <= i < s.len() ==> alphanumeric(#[trigger] s[i]) || s[i] == '.'
}

/// A literal request segment: alphanumeric, with no dot.
pub open spec fn plain_segment(s: Seq<char>) -> bool {
    !has_dot(s) && all_alphanumeric(s)
}

/// What a request path means for a request of method `m`: its literal segments,
/// and the resource name when the last segment holds a dot (GET only).
pub open spec fn query_path_of(path: Seq<char>, m: Method) -> Option<(Seq<Seq<char>>, Option<Seq<char>>)> {
    let segs = segments(path);
    let n = segs.len();
    if n > 0 && has_dot(segs[n - 1]) {
        if (forall|i: int| 0 <= i < n - 1 ==> plain_segment(#[trigger] segs[i]))
            && resource_chars(segs[n - 1]) && m == Method::Get {
            Some((segs.take(n - 1), Some(segs[n - 1])))
        } else {
            None
        }
    } else if forall|i: int| 0 <= i < n ==> plain_segment(#[trigger] segs[i]) {
        Some((segs, None))
    } else {
        None
    }
}

fn find_dot(s: &[char]) -> (r: bool)
    ensures
        r == has_dot(s@),
{
    let mut i: usize = 0;
    while i < s.len()
        invariant
            i <= s.len(),
            forall|j: int| 0 <= j < i ==> s@[j] != '.',
        decreases s.len() - i,
    {
        if s[i] == '.' {
            return true;
        }
        i += 1;
    }
    false
}

fn check_resource_chars(s: &[char]) -> (r: bool)
    ensures
        r == resource_chars(s@),
{
    let mut i: usize = 0;
    while i < s.len()
        invariant
            i <= s.len(),
            forall|j: int| 0 <= j < i ==> alphanumeric(#[trigger] s@[j]) || s@[j] == '.',
        decreases s.len() - i,
    {
        if s[i] != '.' && !is_alphanumeric(s[i]) {
            return false;
        }
        i += 1;
    }
    true
}

impl View for QueryPath {
    type V = (Seq<Seq<char>>, Option<Seq<char>>);

    open spec fn view(&self) -> (Seq<Seq<char>>, Option<Seq<char>>) {
        (
            string_views(self.tokens@),
            match self.resource {
                Some(r) => Some(r@),
                None => None,
            },
        )
    }
}

impl QueryPath {
    /// Reads the path of a request of method `method`.
    pub fn parse(path: &str, method: Method) -> (r: Result<QueryPath, ServerError>)
        ensures
            match r {
                Ok(q) => query_path_of(path@, method) == Some(q@),
                Err(e) => query_path_of(path@, method) is None && e.kind == ErrorKind::Parse,
            },
    {
        let chars = crate::text::chars_of(path);
        let segs = path_segments(chars.as_slice());
        let ghost sv = segments(path@);
        let n = segs.len();
        let mut tokens: Vec<String> = Vec::new();
        let mut i: usize = 0;
        while i < n
            invariant
                i <= n == segs@.len() == sv.len(),
                sv == segments(path@),
                views(segs@) == sv,
                tokens@.len() == i,
                string_views(tokens@) == sv.take(i as int),
                forall|j: int| 0 <= j < i && j < n - 1 ==> plain_segment(#[trigger] sv[j]),
                i == n ==> forall|j: int| 0 <= j < n ==> plain_segment(#[trigger] sv[j]),
            decreases n - i,
        {
            let seg = segs[i].as_slice();
            assert(seg@ == sv[i as int]);
            if find_dot(seg) {
                if i + 1 < n {
                    assert(!plain_segment(sv[i as int]));
                    return Err(ServerError::new(ErrorKind::Parse, "Invalid query"));
                }
                if !check_resource_chars(seg) {
                    return Err(ServerError::new(ErrorKind::Parse, "Invalid token"));
                }
                if method != Method::Get {
                    return Err(ServerError::new(ErrorKind::Parse, "Resources are only served to GET"));
                }
                let q = QueryPath { tokens, resource: Some(string_of(seg)) };
                assert(q@.0 == sv.take(n - 1));
                assert(q@.1 == Some(sv[n - 1]));
                return Ok(q);
            }
            if !check_alphanumeric(seg) {
                return Err(ServerError::new(ErrorKind::Parse, "Invalid token"));
            }
            let ghost before = tokens@;
            tokens.push(string_of(seg));
            assert forall|k: int| 0 <= k < i implies #[trigger] tokens@[k]@ == sv[k] by {
                assert(before[k] == tokens@[k]);
                assert(string_views(before)[k] == sv.take(i as int)[k]);
            }
            assert(string_views(tokens@) =~= sv.take(i + 1));
            i += 1;
        }
        assert(sv.take(n as int) =~= sv);
        Ok(QueryPath { tokens, resource: None })
    }
}

} // verus!
