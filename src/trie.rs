//! The route tree: an arena of nodes, walked by request segments and grown by registrations.

use vstd::prelude::*;
use crate::error::{ErrorKind, ServerError};
use crate::method::Method;
use crate::parser::{route_tokens, QueryPath, RoutePath, RoutePathToken, TokenView};

verus! {

/// The handlers bound on one node, one slot per method.
#[derive(Debug)]
pub struct Endpoint<H> {
    pub get: Option<H>,
    pub post: Option<H>,
    pub put: Option<H>,
    pub delete: Option<H>,
}

impl<H: Copy> Endpoint<H> {
    pub open spec fn handler(&self, m: Method) -> Option<H> {
        match m {
            Method::Get => self.get,
            Method::Post => self.post,
            Method::Put => self.put,
            Method::Delete => self.delete,
        }
    }

    pub fn new() -> (r: Self)
        ensures
            forall|m: Method| (#[trigger] r.handler(m)) is None,
    {
        Endpoint { get: None, post: None, put: None, delete: None }
    }

    /// Binds `cb` to `method`; a method binds at most once.
    pub fn register(&mut self, method: Method, cb: H) -> (r: Result<(), ServerError>)
        ensures
            match r {
                Ok(()) => {
                    &&& old(self).handler(method) is None
                    &&& final(self).handler(method) == Some(cb)
                    &&& forall|m: Method| m != method ==> #[trigger] final(self).handler(m) == old(self).handler(m)
                },
                Err(e) => {
                    &&& old(self).handler(method) is Some
                    &&& e.kind == ErrorKind::Conflict
                    &&& *final(self) == *old(self)
                },
            },
    {
        let free = match method {
            Method::Get => self.get.is_none(),
            Method::Post => self.post.is_none(),
            Method::Put => self.put.is_none(),
            Method::Delete => self.delete.is_none(),
        };
        if !free {
            return Err(ServerError::new(ErrorKind::Conflict, "Method already exists"));
        }
        match method {
            Method::Get => self.get = Some(cb),
            Method::Post => self.post = Some(cb),
            Method::Put => self.put = Some(cb),
            Method::Delete => self.delete = Some(cb),
        }
        Ok(())
    }

    /// The handler bound to `method`.
    pub fn get(&self, method: Method) -> (r: Result<H, ServerError>)
        ensures
            match r {
                Ok(h) => self.handler(method) == Some(h),
                Err(e) => self.handler(method) is None && e.kind == ErrorKind::NotFound,
            },
    {
        let slot = match method {
            Method::Get => self.get,
            Method::Post => self.post,
            Method::Put => self.put,
            Method::Delete => self.delete,
        };
        match slot {
            Some(h) => Ok(h),
            None => Err(ServerError::new(ErrorKind::NotFound, "Method not found")),
        }
    }
}

/// The children of a node: none, named static children, or one variable child.
#[derive(Debug)]
pub enum RouteChildren {
    Leaf,
    Static(Vec<(String, usize)>),
    Variable(String, usize),
}

/// One node of the route tree.
#[derive(Debug)]
pub struct RouteNode<H> {
    pub rest: Endpoint<H>,
    pub children: RouteChildren,
    /// Resource name to filesystem location.
    pub resources: Vec<(String, String)>,
}

/// Variable names bound to the literal segments they captured, in path order.
pub open spec fn pair_views(v: Seq<(String, String)>) -> Seq<(Seq<char>, Seq<char>)> {
    v.map_values(|p: (String, String)| (p.0@, p.1@))
}

/// The value of the first entry whose key is `key`.
pub open spec fn lookup<V>(entries: Seq<(String, V)>, key: Seq<char>) -> Option<V>
    decreases entries.len(),
{
    if entries.len() == 0 {
        None
    } else if entries[0].0@ == key {
        Some(entries[0].1)
    } else {
        lookup(entries.drop_first(), key)
    }
}

/// Where one request segment leads from `node`, with the variable binding it makes.
pub open spec fn step<H>(node: RouteNode<H>, seg: Seq<char>) -> Option<(usize, Seq<(Seq<char>, Seq<char>)>)> {
    match node.children {
        RouteChildren::Leaf => None,
        RouteChildren::Static(kids) => match lookup(kids@, seg) {
            Some(c) => Some((c, Seq::empty())),
            None => None,
        },
        RouteChildren::Variable(name, c) => Some((c, seq![(name@, seg)])),
    }
}

/// The node that request segments `segs` reach from the root, with the arguments bound on the way.
pub open spec fn walk<H>(nodes: Seq<RouteNode<H>>, segs: Seq<Seq<char>>) -> Option<(usize, Seq<(Seq<char>, Seq<char>)>)>
    decreases segs.len(),
{
    if segs.len() == 0 {
        Some((0, Seq::empty()))
    } else {
        match walk(nodes, segs.drop_last()) {
            Some((n, a)) => if n < nodes.len() {
                match step(nodes[n as int], segs.last()) {
                    Some((c, b)) => Some((c, a + b)),
                    None => None,
                }
            } else {
                None
            },
            None => None,
        }
    }
}

/// The children of node `n` lie after it and inside the arena.
pub open spec fn children_ok(c: RouteChildren, n: int, len: int) -> bool {
    match c {
        RouteChildren::Leaf => true,
        RouteChildren::Static(kids) => forall|i: int| 0 <= i < kids@.len() ==> n < (#[trigger] kids@[i]).1 < len,
        RouteChildren::Variable(_, k) => n < k < len,
    }
}

/// The root exists, and every child lies after its parent in the arena.
pub open spec fn wf_nodes<H>(nodes: Seq<RouteNode<H>>) -> bool {
    &&& nodes.len() > 0
    &&& forall|n: int| 0 <= n < nodes.len() ==> children_ok(#[trigger] nodes[n].children, n, nodes.len() as int)
    &&& unique_edges(nodes)
}

/// The node that edge `i` of `node` leads to: its `i`-th static child, or its variable child as edge 0.
pub open spec fn edge_target<H>(node: RouteNode<H>, i: int) -> Option<usize> {
    match node.children {
        RouteChildren::Leaf => None,
        RouteChildren::Static(kids) => if 0 <= i < kids@.len() { Some(kids@[i].1) } else { None },
        RouteChildren::Variable(_, c) => if i == 0 { Some(c) } else { None },
    }
}

/// Every node has at most one edge leading to it: the tree shares no subtree.
pub open spec fn unique_edges<H>(nodes: Seq<RouteNode<H>>) -> bool {
    forall|n1: int, i1: int, n2: int, i2: int|
        0 <= n1 < nodes.len() && 0 <= n2 < nodes.len() && (#[trigger] edge_target(nodes[n1], i1)) is Some
            && #[trigger] edge_target(nodes[n2], i2) == edge_target(nodes[n1], i1) ==> n1 == n2 && i1 == i2
}

/// Variable names bound to captured segments, in the order the pattern declares them.
#[derive(Debug)]
pub struct PathArguments {
    pub entries: Vec<(String, String)>,
}

impl View for PathArguments {
    type V = Seq<(Seq<char>, Seq<char>)>;

    open spec fn view(&self) -> Seq<(Seq<char>, Seq<char>)> {
        pair_views(self.entries@)
    }
}

/// The value bound last to `name`.
pub open spec fn last_value(entries: Seq<(Seq<char>, Seq<char>)>, name: Seq<char>) -> Option<Seq<char>>
    decreases entries.len(),
{
    if entries.len() == 0 {
        None
    } else if entries.last().0 == name {
        Some(entries.last().1)
    } else {
        last_value(entries.drop_last(), name)
    }
}

impl PathArguments {
    /// The segment captured by variable `name`; a name bound twice keeps its last segment.
    pub fn get(&self, name: &str) -> (r: Option<String>)
        ensures
            match r {
                Some(v) => last_value(self@, name@) == Some(v@),
                None => last_value(self@, name@) is None,
            },
    {
        let key = String::from_str(name);
        let mut i: usize = self.entries.len();
        assert(self@.take(i as int) =~= self@);
        while i > 0
            invariant
                i <= self.entries@.len(),
                key@ == name@,
                last_value(self@, name@) == last_value(self@.take(i as int), name@),
            decreases i,
        {
            assert(self@.take(i as int).drop_last() =~= self@.take(i - 1));
            assert(self@.take(i as int).last() == (self.entries@[i - 1].0@, self.entries@[i - 1].1@));
            if self.entries[i - 1].0 == key {
                return Some(self.entries[i - 1].1.clone());
            }
            i -= 1;
        }
        None
    }
}

/// Index of the first entry whose key is `key`.
pub(crate) fn find_key<V>(entries: &Vec<(String, V)>, key: &String) -> (r: Option<usize>)
    ensures
        match r {
            Some(i) => i < entries@.len() && lookup(entries@, key@) == Some(entries@[i as int].1),
            None => lookup(entries@, key@) is None,
        },
{
    let mut i: usize = 0;
    assert(entries@.skip(0) =~= entries@);
    while i < entries.len()
        invariant
            i <= entries@.len(),
            lookup(entries@, key@) == lookup(entries@.skip(i as int), key@),
        decreases entries.len() - i,
    {
        assert(entries@.skip(i as int)[0] == entries@[i as int]);
        if entries[i].0 == *key {
            return Some(i);
        }
        assert(entries@.skip(i as int).drop_first() =~= entries@.skip(i + 1));
        i += 1;
    }
    None
}


/// Whether a registration token already has its child at a node.
pub enum Found {
    /// The node's children are of the other kind, or a variable of another name.
    Conflict,
    /// No child yet for this token.
    Absent,
    /// The child for this token.
    Present(usize),
}

/// Whether `tok` already has its child at `node`, has none yet, or conflicts.
pub open spec fn child_for<H>(node: RouteNode<H>, tok: TokenView) -> Found {
    match tok {
        TokenView::Static(s) => match node.children {
            RouteChildren::Leaf => Found::Absent,
            RouteChildren::Variable(..) => Found::Conflict,
            RouteChildren::Static(kids) => match lookup(kids@, s) {
                Some(c) => Found::Present(c),
                None => Found::Absent,
            },
        },
        TokenView::Variable(v) => match node.children {
            RouteChildren::Leaf => Found::Absent,
            RouteChildren::Static(..) => Found::Conflict,
            RouteChildren::Variable(name, c) => if name@ == v {
                Found::Present(c)
            } else {
                Found::Conflict
            },
        },
    }
}

/// Following registration tokens through the existing tree: `Err` on a conflict,
/// `Ok(None)` once a child is missing, `Ok(Some(n))` when every child exists.
pub open spec fn follow<H>(nodes: Seq<RouteNode<H>>, toks: Seq<TokenView>) -> Result<Option<usize>, ()>
    decreases toks.len(),
{
    if toks.len() == 0 {
        Ok(Some(0))
    } else {
        match follow(nodes, toks.drop_last()) {
            Ok(Some(n)) => if n < nodes.len() {
                match child_for(nodes[n as int], toks.last()) {
                    Found::Conflict => Err(()),
                    Found::Absent => Ok(None),
                    Found::Present(c) => Ok(Some(c)),
                }
            } else {
                Err(())
            },
            other => other,
        }
    }
}

/// What a registration binds at the end of its pattern, as a value.
pub enum EndpointView<H> {
    Rest(Method, H),
    Resource(Seq<char>, Seq<char>),
}

/// What a registration binds at the end of its pattern: a handler for a method,
/// or a resource name with its filesystem location.
#[derive(Debug)]
pub enum NodeEndpoint<H> {
    Rest(Method, H),
    Resource(String, String),
}

impl<H> View for NodeEndpoint<H> {
    type V = EndpointView<H>;

    open spec fn view(&self) -> EndpointView<H> {
        match self {
            NodeEndpoint::Rest(m, h) => EndpointView::Rest(*m, *h),
            NodeEndpoint::Resource(name, loc) => EndpointView::Resource(name@, loc@),
        }
    }
}

/// The location `node` binds to resource `name`.
pub open spec fn resource_at<H>(node: RouteNode<H>, name: Seq<char>) -> Option<Seq<char>> {
    match lookup(node.resources@, name) {
        Some(loc) => Some(loc@),
        None => None,
    }
}

/// The node already binds the method or resource name of `e`.
pub open spec fn occupied<H: Copy>(node: RouteNode<H>, e: EndpointView<H>) -> bool {
    match e {
        EndpointView::Rest(m, _) => node.rest.handler(m) is Some,
        EndpointView::Resource(name, _) => resource_at(node, name) is Some,
    }
}

/// The node binds exactly `e`.
pub open spec fn binds<H: Copy>(node: RouteNode<H>, e: EndpointView<H>) -> bool {
    match e {
        EndpointView::Rest(m, h) => node.rest.handler(m) == Some(h),
        EndpointView::Resource(name, loc) => resource_at(node, name) == Some(loc),
    }
}

/// Every walk and every binding of `t1` is still there in `t2`.
pub open spec fn extends<H: Copy>(t1: Seq<RouteNode<H>>, t2: Seq<RouteNode<H>>) -> bool {
    &&& t1.len() <= t2.len()
    &&& forall|n: int, seg: Seq<char>|
        0 <= n < t1.len() && (#[trigger] step(t1[n], seg)) is Some ==> step(t2[n], seg) == step(t1[n], seg)
    &&& forall|n: int, m: Method|
        0 <= n < t1.len() && (#[trigger] t1[n].rest.handler(m)) is Some ==> t2[n].rest.handler(m) == t1[n].rest.handler(m)
    &&& forall|n: int, name: Seq<char>|
        0 <= n < t1.len() && (#[trigger] resource_at(t1[n], name)) is Some ==> resource_at(t2[n], name) == resource_at(t1[n], name)
}

/// How registering `e` at pattern `toks` turns out on tree `nodes`.
pub open spec fn insert_outcome<H: Copy>(nodes: Seq<RouteNode<H>>, toks: Seq<TokenView>, e: EndpointView<H>) -> Result<(), ErrorKind> {
    match follow(nodes, toks) {
        Err(()) => Err(ErrorKind::RouteConflict),
        Ok(Some(n)) => if occupied(nodes[n as int], e) {
            Err(ErrorKind::Conflict)
        } else {
            Ok(())
        },
        Ok(None) => Ok(()),
    }
}

/// The handler node `k` binds to `m`; none for a node that does not exist.
pub open spec fn handler_at<H: Copy>(t: Seq<RouteNode<H>>, k: int, m: Method) -> Option<H> {
    if 0 <= k < t.len() {
        t[k].rest.handler(m)
    } else {
        None
    }
}

/// The location node `k` binds to resource `name`; none for a node that does not exist.
pub open spec fn location_at<H>(t: Seq<RouteNode<H>>, k: int, name: Seq<char>) -> Option<Seq<char>> {
    if 0 <= k < t.len() {
        resource_at(t[k], name)
    } else {
        None
    }
}

/// The handler `e` binds to `m`, if any.
pub open spec fn added_handler<H>(e: EndpointView<H>, m: Method) -> Option<H> {
    match e {
        EndpointView::Rest(m2, h) => if m2 == m { Some(h) } else { None },
        _ => None,
    }
}

/// The location `e` binds to resource `name`, if any.
pub open spec fn added_location<H>(e: EndpointView<H>, name: Seq<char>) -> Option<Seq<char>> {
    match e {
        EndpointView::Resource(n, loc) => if n == name { Some(loc) } else { None },
        _ => None,
    }
}

/// Every node of `after` binds what it bound in `before`, and node `n` binds `e` too:
/// nothing else was bound.
pub open spec fn adds_only<H: Copy>(before: Seq<RouteNode<H>>, after: Seq<RouteNode<H>>, n: int, e: EndpointView<H>) -> bool {
    &&& forall|k: int, m: Method| #[trigger] handler_at(after, k, m) == if k == n && added_handler(e, m) is Some {
        added_handler(e, m)
    } else {
        handler_at(before, k, m)
    }
    &&& forall|k: int, name: Seq<char>| #[trigger] location_at(after, k, name) == if k == n && added_location(e, name) is Some {
        added_location(e, name)
    } else {
        location_at(before, k, name)
    }
}

/// The two trees bind the same handlers and resources at every node.
pub open spec fn same_bindings<H: Copy>(t1: Seq<RouteNode<H>>, t2: Seq<RouteNode<H>>) -> bool {
    &&& forall|k: int, m: Method| #[trigger] handler_at(t2, k, m) == handler_at(t1, k, m)
    &&& forall|k: int, name: Seq<char>| #[trigger] location_at(t2, k, name) == location_at(t1, k, name)
}

/// Every request path that reaches a node of `after` reached one in `before`, or fits a
/// prefix of the pattern `toks`.
pub open spec fn walks_within<H>(before: Seq<RouteNode<H>>, after: Seq<RouteNode<H>>, toks: Seq<TokenView>) -> bool {
    forall|segs: Seq<Seq<char>>| (#[trigger] walk(after, segs)) is Some ==> walk(before, segs) is Some || (
        segs.len() <= toks.len() && fits(toks.take(segs.len() as int), segs))
}

/// `after` is `before` with `e` registered at pattern `toks`: nothing of `before` is lost,
/// the pattern leads to a node that binds `e`, nothing else is bound, and no request path
/// reaches a node that did not before unless it fits a prefix of the pattern.
pub open spec fn registered<H: Copy>(before: Seq<RouteNode<H>>, after: Seq<RouteNode<H>>, toks: Seq<TokenView>, e: EndpointView<H>) -> bool {
    &&& wf_nodes(after)
    &&& extends(before, after)
    &&& walks_within(before, after, toks)
    &&& match follow(after, toks) {
        Ok(Some(n)) => n < after.len() && binds(after[n as int], e) && adds_only(before, after, n as int, e),
        _ => false,
    }
}

proof fn lemma_lookup_push<V>(s: Seq<(String, V)>, x: (String, V), key: Seq<char>)
    ensures
        lookup(s.push(x), key) == match lookup(s, key) {
            Some(v) => Some(v),
            None => if x.0@ == key { Some(x.1) } else { None },
        },
    decreases s.len(),
{
    if s.len() > 0 {
        assert(s.push(x)[0] == s[0]);
        assert(s.push(x).drop_first() =~= s.drop_first().push(x));
        lemma_lookup_push(s.drop_first(), x, key);
    } else {
        assert(s.push(x)[0] == x);
        assert(s.push(x).drop_first() =~= Seq::<(String, V)>::empty());
        assert(lookup(s.push(x).drop_first(), key) is None);
    }
}

proof fn lemma_extends_refl<H: Copy>(t: Seq<RouteNode<H>>)
    ensures
        extends(t, t),
{
}

proof fn lemma_extends_trans<H: Copy>(t1: Seq<RouteNode<H>>, t2: Seq<RouteNode<H>>, t3: Seq<RouteNode<H>>)
    requires
        extends(t1, t2),
        extends(t2, t3),
    ensures
        extends(t1, t3),
{
    assert forall|n: int, seg: Seq<char>|
        0 <= n < t1.len() && (#[trigger] step(t1[n], seg)) is Some implies step(t3[n], seg) == step(t1[n], seg) by {
        assert(step(t2[n], seg) == step(t1[n], seg));
    }
    assert forall|n: int, m: Method|
        0 <= n < t1.len() && (#[trigger] t1[n].rest.handler(m)) is Some implies t3[n].rest.handler(m) == t1[n].rest.handler(m) by {
        assert(t2[n].rest.handler(m) == t1[n].rest.handler(m));
    }
    assert forall|n: int, name: Seq<char>|
        0 <= n < t1.len() && (#[trigger] resource_at(t1[n], name)) is Some implies resource_at(t3[n], name) == resource_at(t1[n], name) by {
        assert(resource_at(t2[n], name) == resource_at(t1[n], name));
    }
}

/// A child that exists keeps existing when the tree is extended.
proof fn lemma_child_for_extends<H: Copy>(t1: Seq<RouteNode<H>>, t2: Seq<RouteNode<H>>, n: int, tok: TokenView)
    requires
        extends(t1, t2),
        0 <= n < t1.len(),
        child_for(t1[n], tok) is Present,
    ensures
        child_for(t2[n], tok) == child_for(t1[n], tok),
{
    match tok {
        TokenView::Static(s) => {
            assert(step(t1[n], s) is Some);
            assert(step(t2[n], s) == step(t1[n], s));
            assert(step(t1[n], s)->Some_0.1.len() == 0);
            if let RouteChildren::Variable(name, c) = t2[n].children {
                assert(step(t2[n], s)->Some_0.1.len() == 1);
            }
        },
        TokenView::Variable(v) => {
            let seg = Seq::<char>::empty();
            assert(step(t1[n], seg) is Some);
            assert(step(t2[n], seg) == step(t1[n], seg));
            assert(step(t1[n], seg)->Some_0.1.len() == 1);
            if let RouteChildren::Static(kids) = t2[n].children {
                assert(step(t2[n], seg)->Some_0.1.len() == 0);
            }
            if let RouteChildren::Variable(name, c) = t2[n].children {
                assert(step(t2[n], seg)->Some_0.1[0].0 == name@);
            }
        },
    }
}

/// A pattern that leads somewhere still leads there when the tree is extended.
pub(crate) proof fn lemma_follow_extends<H: Copy>(t1: Seq<RouteNode<H>>, t2: Seq<RouteNode<H>>, toks: Seq<TokenView>)
    requires
        extends(t1, t2),
        follow(t1, toks) is Ok,
        follow(t1, toks)->Ok_0 is Some,
    ensures
        follow(t2, toks) == follow(t1, toks),
    decreases toks.len(),
{
    if toks.len() > 0 {
        lemma_follow_extends(t1, t2, toks.drop_last());
        let n = follow(t1, toks.drop_last())->Ok_0->Some_0;
        lemma_child_for_extends(t1, t2, n as int, toks.last());
    }
}

/// Once a pattern prefix conflicts or runs out of children, so does the whole pattern.
pub(crate) proof fn lemma_follow_prefix<H>(nodes: Seq<RouteNode<H>>, toks: Seq<TokenView>, i: int)
    requires
        0 <= i <= toks.len(),
        !(follow(nodes, toks.take(i)) matches Ok(Some(_))),
    ensures
        follow(nodes, toks) == follow(nodes, toks.take(i)),
    decreases toks.len() - i,
{
    if i < toks.len() {
        assert(toks.take(i + 1).drop_last() =~= toks.take(i));
        lemma_follow_prefix(nodes, toks, i + 1);
    } else {
        assert(toks.take(i) =~= toks);
    }
}

/// A request segment fits a registration token: equal to a static one, anything for a variable.
pub open spec fn token_matches(tok: TokenView, seg: Seq<char>) -> bool {
    match tok {
        TokenView::Static(s) => s == seg,
        TokenView::Variable(_) => true,
    }
}

/// The request segments `segs` fit the pattern `toks`.
pub open spec fn fits(toks: Seq<TokenView>, segs: Seq<Seq<char>>) -> bool {
    &&& toks.len() == segs.len()
    &&& forall|i: int| 0 <= i < toks.len() ==> token_matches(#[trigger] toks[i], segs[i])
}

/// The arguments a pattern binds on segments that fit it: each variable, in order,
/// with the segment in its place.
pub open spec fn args_of(toks: Seq<TokenView>, segs: Seq<Seq<char>>) -> Seq<(Seq<char>, Seq<char>)>
    decreases toks.len(),
{
    if toks.len() == 0 || segs.len() == 0 {
        Seq::empty()
    } else {
        args_of(toks.drop_last(), segs.drop_last()) + match toks.last() {
            TokenView::Static(_) => Seq::empty(),
            TokenView::Variable(v) => seq![(v, segs.last())],
        }
    }
}

/// The route tree: an arena of nodes, the root at index 0.
#[derive(Debug)]
pub struct RouteTree<H> {
    pub nodes: Vec<RouteNode<H>>,
}

impl<H: Copy> RouteNode<H> {
    pub fn new() -> (r: Self)
        ensures
            r.children is Leaf,
            r.resources@.len() == 0,
            forall|m: Method| (#[trigger] r.rest.handler(m)) is None,
    {
        RouteNode { rest: Endpoint::new(), children: RouteChildren::Leaf, resources: Vec::new() }
    }
}

impl<H: Copy> RouteTree<H> {
    pub open spec fn wf(&self) -> bool {
        wf_nodes(self.nodes@)
    }

    pub fn new() -> (r: Self)
        ensures
            r.wf(),
            r.nodes@.len() == 1,
            fresh(r.nodes@[0]),
            walk(r.nodes@, Seq::empty()) == Some((0usize, Seq::<(Seq<char>, Seq<char>)>::empty())),
    {
        let mut nodes = Vec::new();
        nodes.push(RouteNode::new());
        RouteTree { nodes }
    }

    /// Follows the literal segments of `path` from the root.
    pub fn get(&self, path: &QueryPath) -> (r: Result<(usize, PathArguments), ServerError>)
        requires
            self.wf(),
        ensures
            match r {
                Ok((n, args)) => walk(self.nodes@, path@.0) == Some((n, args@)) && n < self.nodes@.len(),
                Err(e) => walk(self.nodes@, path@.0) is None && e.kind == ErrorKind::NotFound,
            },
    {
        let ghost segs = path@.0;
        let mut cur: usize = 0;
        let mut args: Vec<(String, String)> = Vec::new();
        let mut i: usize = 0;
        assert(segs.take(0) =~= Seq::<Seq<char>>::empty());
        assert(pair_views(args@) =~= Seq::empty());
        while i < path.tokens.len()
            invariant
                self.wf(),
                segs == path@.0,
                segs.len() == path.tokens@.len(),
                i <= segs.len(),
                cur < self.nodes@.len(),
                walk(self.nodes@, segs.take(i as int)) == Some((cur, pair_views(args@))),
            decreases path.tokens.len() - i,
        {
            let seg = &path.tokens[i];
            assert(seg@ == segs[i as int]);
            assert(segs.take(i + 1).drop_last() =~= segs.take(i as int));
            let ghost prev = pair_views(args@);
            let node = &self.nodes[cur];
            assert(children_ok(self.nodes@[cur as int].children, cur as int, self.nodes@.len() as int));
            match &node.children {
                RouteChildren::Leaf => {
                    proof { lemma_walk_none_extends(self.nodes@, segs, i as int); }
                    return Err(ServerError::new(ErrorKind::NotFound, "Invalid path"));
                },
                RouteChildren::Static(kids) => {
                    match find_key(kids, seg) {
                        Some(k) => {
                            cur = kids[k].1;
                            assert(prev + Seq::empty() =~= prev);
                        },
                        None => {
                            proof { lemma_walk_none_extends(self.nodes@, segs, i as int); }
                            return Err(ServerError::new(ErrorKind::NotFound, "Invalid path"));
                        },
                    }
                },
                RouteChildren::Variable(name, c) => {
                    args.push((name.clone(), seg.clone()));
                    cur = *c;
                    assert(pair_views(args@) =~= prev + seq![(name@, seg@)]);
                },
            }
            i += 1;
        }
        assert(segs.take(segs.len() as int) =~= segs);
        Ok((cur, PathArguments { entries: args }))
    }
}


/// A node just created: no children and nothing bound.
pub open spec fn fresh<H: Copy>(node: RouteNode<H>) -> bool {
    &&& node.children is Leaf
    &&& forall|m: Method| (#[trigger] node.rest.handler(m)) is None
    &&& node.resources@.len() == 0
}

/// Where the tokens of a pattern lead in the existing tree.
enum Located {
    Conflict,
    /// Every token has its child; the pattern ends at this node.
    Existing(usize),
    /// The token at the given position has no child under the given node.
    Missing(usize, usize),
}

impl<H: Copy> RouteTree<H> {
    fn find_child(&self, n: usize, tok: &RoutePathToken) -> (r: Found)
        requires
            self.wf(),
            n < self.nodes@.len(),
        ensures
            r == child_for(self.nodes@[n as int], tok@),
            r matches Found::Present(c) ==> n < c < self.nodes@.len(),
    {
        let node = &self.nodes[n];
        assert(children_ok(self.nodes@[n as int].children, n as int, self.nodes@.len() as int));
        match tok {
            RoutePathToken::Static(s) => match &node.children {
                RouteChildren::Leaf => Found::Absent,
                RouteChildren::Variable(..) => Found::Conflict,
                RouteChildren::Static(kids) => match find_key(kids, s) {
                    Some(i) => Found::Present(kids[i].1),
                    None => Found::Absent,
                },
            },
            RoutePathToken::Variable(v) => match &node.children {
                RouteChildren::Leaf => Found::Absent,
                RouteChildren::Static(..) => Found::Conflict,
                RouteChildren::Variable(name, c) => if *name == *v {
                    Found::Present(*c)
                } else {
                    Found::Conflict
                },
            },
        }
    }

    fn locate(&self, path: &RoutePath) -> (r: Located)
        requires
            self.wf(),
        ensures
            match r {
                Located::Conflict => follow(self.nodes@, path@) is Err,
                Located::Existing(n) => follow(self.nodes@, path@) == Ok::<Option<usize>, ()>(Some(n)) && n < self.nodes@.len(),
                Located::Missing(n, i) => {
                    &&& i < path@.len()
                    &&& n < self.nodes@.len()
                    &&& follow(self.nodes@, path@.take(i as int)) == Ok::<Option<usize>, ()>(Some(n))
                    &&& child_for(self.nodes@[n as int], path@[i as int]) is Absent
                    &&& follow(self.nodes@, path@) == Ok::<Option<usize>, ()>(None)
                },
            },
    {
        let ghost tv = path@;
        let mut cur: usize = 0;
        let mut i: usize = 0;
        assert(tv.take(0) =~= Seq::<TokenView>::empty());
        while i < path.tokens.len()
            invariant
                self.wf(),
                tv == path@,
                tv.len() == path.tokens@.len(),
                i <= tv.len(),
                cur < self.nodes@.len(),
                follow(self.nodes@, tv.take(i as int)) == Ok::<Option<usize>, ()>(Some(cur)),
            decreases path.tokens.len() - i,
        {
            assert(path.tokens@[i as int]@ == tv[i as int]);
            assert(tv.take(i + 1).drop_last() =~= tv.take(i as int));
            match self.find_child(cur, &path.tokens[i]) {
                Found::Conflict => {
                    proof { lemma_follow_prefix(self.nodes@, tv, i + 1); }
                    return Located::Conflict;
                },
                Found::Absent => {
                    proof { lemma_follow_prefix(self.nodes@, tv, i + 1); }
                    return Located::Missing(cur, i);
                },
                Found::Present(c) => {
                    cur = c;
                },
            }
            i += 1;
        }
        assert(tv.take(tv.len() as int) =~= tv);
        Located::Existing(cur)
    }

    fn add_child(&mut self, cur: usize, tok: &RoutePathToken) -> (k: usize)
        requires
            old(self).wf(),
            cur < old(self).nodes@.len(),
            child_for(old(self).nodes@[cur as int], tok@) is Absent,
        ensures
            final(self).wf(),
            extends(old(self).nodes@, final(self).nodes@),
            k == old(self).nodes@.len(),
            final(self).nodes@.len() == k + 1,
            child_for(final(self).nodes@[cur as int], tok@) == Found::Present(k),
            fresh(final(self).nodes@[k as int]),
            same_bindings(old(self).nodes@, final(self).nodes@),
            forall|segs: Seq<Seq<char>>| (#[trigger] walk(final(self).nodes@, segs)) is Some
                ==> walk(old(self).nodes@, segs) == walk(final(self).nodes@, segs) || (
                    segs.len() >= 1 && walk(old(self).nodes@, segs.drop_last()) is Some
                        && walk(old(self).nodes@, segs.drop_last())->Some_0.0 == cur
                        && token_matches(tok@, segs.last())),
    {
        let ghost t1 = self.nodes@;
        let k = self.nodes.len();
        let mut node = RouteNode::new();
        self.nodes.set_and_swap(cur, &mut node);
        let ghost old_node = node;
        assert(old_node == t1[cur as int]);
        match tok {
            RoutePathToken::Static(s) => {
                let grows = match &node.children {
                    RouteChildren::Static(_) => true,
                    _ => false,
                };
                if grows {
                    if let RouteChildren::Static(kids) = &mut node.children {
                        kids.push((s.clone(), k));
                    }
                } else {
                    node.children = RouteChildren::Static(vec![(s.clone(), k)]);
                }
            },
            RoutePathToken::Variable(v) => {
                node.children = RouteChildren::Variable(v.clone(), k);
            },
        }
        let ghost new_node = node;
        self.nodes.set_and_swap(cur, &mut node);
        self.nodes.push(RouteNode::new());
        let ghost t2 = self.nodes@;
        assert(t2 =~= t1.update(cur as int, new_node).push(t2[k as int]));
        assert(new_node.rest == old_node.rest && new_node.resources == old_node.resources);
        proof {
            match tok@ {
                TokenView::Static(s) => {
                    match old_node.children {
                        RouteChildren::Static(kids) => {
                            assert(new_node.children matches RouteChildren::Static(nk) && nk@ == kids@.push((s_of(tok), k)));
                            lemma_lookup_push(kids@, (s_of(tok), k), s);
                        },
                        _ => {
                            assert(new_node.children matches RouteChildren::Static(nk) && nk@ == seq![(s_of(tok), k)]);
                            lemma_lookup_push(Seq::<(String, usize)>::empty(), (s_of(tok), k), s);
                            assert(seq![(s_of(tok), k)] =~= Seq::<(String, usize)>::empty().push((s_of(tok), k)));
                        },
                    }
                },
                TokenView::Variable(v) => {},
            }
        }
        assert forall|n: int, seg: Seq<char>|
            0 <= n < t1.len() && (#[trigger] step(t1[n], seg)) is Some implies step(t2[n], seg) == step(t1[n], seg) by {
            if n == cur {
                if let RouteChildren::Static(kids) = old_node.children {
                    lemma_lookup_push(kids@, (s_of(tok), k), seg);
                }
            }
        }
        assert forall|n: int| 0 <= n < t2.len() implies children_ok(#[trigger] t2[n].children, n, t2.len() as int) by {
            if n < t1.len() && n != cur {
                assert(children_ok(t1[n].children, n, t1.len() as int));
            }
            if n == cur {
                assert(children_ok(t1[n].children, n, t1.len() as int));
            }
        }
        let ghost new_index: int = match old_node.children {
            RouteChildren::Static(kids) => kids@.len() as int,
            _ => 0,
        };
        assert(children_ok(t1[cur as int].children, cur as int, t1.len() as int));
        assert forall|n: int, i: int| 0 <= n < t2.len() && (#[trigger] edge_target(t2[n], i)) is Some implies
            (edge_target(t2[n], i) == Some(k) && n == cur && i == new_index)
            || (edge_target(t2[n], i) != Some(k) && n < t1.len() && edge_target(t1[n], i) == edge_target(t2[n], i)) by {
            if n < t1.len() {
                assert(children_ok(t1[n].children, n, t1.len() as int));
            }
            if n == cur {
                if let RouteChildren::Static(kids) = old_node.children {
                    if i < kids@.len() {
                        assert(kids@[i].1 < k);
                    }
                }
            }
        }
        assert forall|n: int, i: int| 0 <= n < t1.len() && (#[trigger] edge_target(t1[n], i)) is Some implies
            edge_target(t1[n], i)->0 < k by {
            assert(children_ok(t1[n].children, n, t1.len() as int));
        }
        assert(unique_edges(t2)) by {
            assert forall|n1: int, i1: int, n2: int, i2: int|
                0 <= n1 < t2.len() && 0 <= n2 < t2.len() && (#[trigger] edge_target(t2[n1], i1)) is Some
                    && #[trigger] edge_target(t2[n2], i2) == edge_target(t2[n1], i1) implies n1 == n2 && i1 == i2 by {
                if edge_target(t2[n1], i1) != Some(k) {
                    assert(edge_target(t1[n1], i1) == edge_target(t2[n1], i1));
                    assert(edge_target(t1[n2], i2) == edge_target(t2[n2], i2));
                }
            }
        }
        assert forall|j: int, m: Method| #[trigger] handler_at(t2, j, m) == handler_at(t1, j, m) by {
            if j == k {
                assert(t2[j].rest.handler(m) is None);
            }
        }
        assert forall|x: Seq<char>| (#[trigger] step(t1[cur as int], x)) is Some implies step(t2[cur as int], x) == step(t1[cur as int], x) by {
            if let RouteChildren::Static(kids) = old_node.children {
                lemma_lookup_push(kids@, (s_of(tok), k), x);
            }
        }
        assert forall|x: Seq<char>| (#[trigger] step(t2[cur as int], x)) is Some && step(t1[cur as int], x) is None
            implies token_matches(tok@, x) && step(t2[cur as int], x)->Some_0.0 == k by {
            match tok@ {
                TokenView::Static(s) => {
                    match old_node.children {
                        RouteChildren::Static(kids) => {
                            lemma_lookup_push(kids@, (s_of(tok), k), x);
                        },
                        _ => {
                            lemma_lookup_push(Seq::<(String, usize)>::empty(), (s_of(tok), k), x);
                            assert(seq![(s_of(tok), k)] =~= Seq::<(String, usize)>::empty().push((s_of(tok), k)));
                        },
                    }
                },
                TokenView::Variable(v) => {},
            }
        }
        assert forall|segs: Seq<Seq<char>>| (#[trigger] walk(t2, segs)) is Some
            implies walk(t1, segs) == walk(t2, segs) || (
                segs.len() >= 1 && walk(t1, segs.drop_last()) is Some && walk(t1, segs.drop_last())->Some_0.0 == cur
                    && token_matches(tok@, segs.last())) by {
            lemma_new_walks(t1, t2, cur as int, k as int, tok@, segs);
        }
        assert forall|j: int, name: Seq<char>| #[trigger] location_at(t2, j, name) == location_at(t1, j, name) by {
            if j == k {
                assert(t2[j].resources@ =~= Seq::<(String, String)>::empty());
            }
        }
        k
    }
}


impl<H: Copy> RouteTree<H> {
    fn bind(&mut self, cur: usize, e: NodeEndpoint<H>) -> (r: Result<(), ServerError>)
        requires
            old(self).wf(),
            cur < old(self).nodes@.len(),
        ensures
            forall|segs: Seq<Seq<char>>| #[trigger] walk(final(self).nodes@, segs) == walk(old(self).nodes@, segs),
            match r {
                Ok(()) => {
                    &&& !occupied(old(self).nodes@[cur as int], e@)
                    &&& final(self).wf()
                    &&& extends(old(self).nodes@, final(self).nodes@)
                    &&& final(self).nodes@.len() == old(self).nodes@.len()
                    &&& binds(final(self).nodes@[cur as int], e@)
                    &&& adds_only(old(self).nodes@, final(self).nodes@, cur as int, e@)
                },
                Err(err) => {
                    &&& occupied(old(self).nodes@[cur as int], e@)
                    &&& err.kind == ErrorKind::Conflict
                    &&& final(self).nodes@ == old(self).nodes@
                },
            },
    {
        let ghost t1 = self.nodes@;
        let ghost ev = e@;
        match e {
            NodeEndpoint::Rest(m, h) => {
                let mut node = RouteNode::new();
                self.nodes.set_and_swap(cur, &mut node);
                let ghost old_node = node;
                let r = node.rest.register(m, h);
                let ghost new_node = node;
                self.nodes.set_and_swap(cur, &mut node);
                assert(self.nodes@ =~= t1.update(cur as int, new_node));
                proof { lemma_same_children(t1, self.nodes@); }
                if r.is_err() {
                    assert(self.nodes@ =~= t1);
                    return r;
                }
                assert forall|n: int| 0 <= n < t1.len() implies children_ok(#[trigger] self.nodes@[n].children, n, t1.len() as int) by {
                    assert(children_ok(t1[n].children, n, t1.len() as int));
                }
                assert forall|k: int, m2: Method| #[trigger] handler_at(self.nodes@, k, m2) == if k == cur && added_handler(ev, m2) is Some {
                    added_handler(ev, m2)
                } else {
                    handler_at(t1, k, m2)
                } by {
                    if k == cur && m2 != m {
                        assert(new_node.rest.handler(m2) == old_node.rest.handler(m2));
                    }
                }
                r
            },
            NodeEndpoint::Resource(name, loc) => {
                if find_key(&self.nodes[cur].resources, &name).is_some() {
                    return Err(ServerError::new(ErrorKind::Conflict, "Resource already exists"));
                }
                let mut node = RouteNode::new();
                self.nodes.set_and_swap(cur, &mut node);
                let ghost old_node = node;
                let ghost entry = (name, loc);
                node.resources.push((name, loc));
                let ghost new_node = node;
                self.nodes.set_and_swap(cur, &mut node);
                assert(self.nodes@ =~= t1.update(cur as int, new_node));
                proof { lemma_same_children(t1, self.nodes@); }
                assert(new_node.resources@ == old_node.resources@.push(entry));
                assert forall|n: int, nm: Seq<char>|
                    0 <= n < t1.len() && (#[trigger] resource_at(t1[n], nm)) is Some implies resource_at(self.nodes@[n], nm) == resource_at(t1[n], nm) by {
                    lemma_lookup_push(old_node.resources@, entry, nm);
                }
                proof { lemma_lookup_push(old_node.resources@, entry, ev->Resource_0); }
                assert forall|k: int, nm: Seq<char>| #[trigger] location_at(self.nodes@, k, nm) == if k == cur && added_location(ev, nm) is Some {
                    added_location(ev, nm)
                } else {
                    location_at(t1, k, nm)
                } by {
                    if k == cur {
                        lemma_lookup_push(old_node.resources@, entry, nm);
                    }
                }
                assert forall|n: int| 0 <= n < t1.len() implies children_ok(#[trigger] self.nodes@[n].children, n, t1.len() as int) by {
                    assert(children_ok(t1[n].children, n, t1.len() as int));
                }
                Ok(())
            },
        }
    }

    /// Registers `e` at the node that `path` leads to, creating missing nodes.
    /// Fails, leaving the tree as it was, with `RouteConflict` when the pattern
    /// would give a node children of both kinds, and with `Conflict` when the
    /// node already binds the method or resource name.
    pub fn insert(&mut self, path: &RoutePath, e: NodeEndpoint<H>) -> (r: Result<(), ServerError>)
        requires
            old(self).wf(),
        ensures
            final(self).wf(),
            match insert_outcome(old(self).nodes@, path@, e@) {
                Ok(()) => r is Ok && registered(old(self).nodes@, final(self).nodes@, path@, e@),
                Err(kind) => r matches Err(err) && err.kind == kind && final(self).nodes@ == old(self).nodes@,
            },
    {
        let ghost t0 = self.nodes@;
        let ghost tv = path@;
        let ghost ev = e@;
        match self.locate(path) {
            Located::Conflict => Err(ServerError::new(ErrorKind::RouteConflict, "Route Conflict")),
            Located::Existing(n) => {
                let r = self.bind(n, e);
                proof {
                    if r is Ok {
                        lemma_follow_extends(t0, self.nodes@, tv);
                    }
                }
                r
            },
            Located::Missing(n0, i0) => {
                let mut cur = n0;
                let mut i = i0;
                proof { lemma_extends_refl(t0); }
                while i < path.tokens.len()
                    invariant
                        self.wf(),
                        extends(t0, self.nodes@),
                        same_bindings(t0, self.nodes@),
                        walks_within(t0, self.nodes@, tv),
                        tv == path@,
                        tv.len() == path.tokens@.len(),
                        i0 <= i <= tv.len(),
                        i0 < tv.len(),
                        cur < self.nodes@.len(),
                        follow(self.nodes@, tv.take(i as int)) == Ok::<Option<usize>, ()>(Some(cur)),
                        i == i0 ==> self.nodes@ == t0 && cur == n0,
                        i == i0 ==> child_for(t0[n0 as int], tv[i0 as int]) is Absent,
                        i > i0 ==> fresh(self.nodes@[cur as int]),
                    decreases path.tokens.len() - i,
                {
                    let ghost t1 = self.nodes@;
                    assert(path.tokens@[i as int]@ == tv[i as int]);
                    let k = self.add_child(cur, &path.tokens[i]);
                    proof {
                        lemma_extends_trans(t0, t1, self.nodes@);
                        lemma_follow_extends(t1, self.nodes@, tv.take(i as int));
                        assert(tv.take(i + 1).drop_last() =~= tv.take(i as int));
                        let t2 = self.nodes@;
                        assert forall|segs: Seq<Seq<char>>| (#[trigger] walk(t2, segs)) is Some implies walk(t0, segs) is Some || (
                            segs.len() <= tv.len() && fits(tv.take(segs.len() as int), segs)) by {
                            if walk(t1, segs) != walk(t2, segs) {
                                let d = segs.drop_last();
                                lemma_walk_follow_fit(t1, d, tv.take(i as int), cur);
                                assert(tv.take(i + 1).last() == tv[i as int]);
                                assert forall|j: int| 0 <= j < i + 1 implies token_matches(#[trigger] tv.take(i + 1)[j], segs[j]) by {
                                    if j < i {
                                        assert(token_matches(tv.take(i as int)[j], d[j]));
                                    }
                                }
                            }
                        }
                    }
                    cur = k;
                    i += 1;
                }
                let ghost t1 = self.nodes@;
                assert(tv.take(tv.len() as int) =~= tv);
                assert(resource_at(t1[cur as int], Seq::empty()) is None);
                let r = self.bind(cur, e);
                proof {
                    if r is Ok {
                        lemma_extends_trans(t0, t1, self.nodes@);
                        lemma_follow_extends(t1, self.nodes@, tv);
                    }
                }
                r
            },
        }
    }
}


/// What registering `e` at `pattern` does: `after` and the result `r` as a
/// function of the tree `before`.
pub open spec fn registration<H: Copy>(
    before: Seq<RouteNode<H>>,
    after: Seq<RouteNode<H>>,
    pattern: Seq<char>,
    e: EndpointView<H>,
    r: Result<(), ServerError>,
) -> bool {
    match route_tokens(pattern) {
        None => r matches Err(x) && x.kind == ErrorKind::Parse && after == before,
        Some(toks) => match insert_outcome(before, toks, e) {
            Ok(()) => r is Ok && registered(before, after, toks, e),
            Err(k) => r matches Err(x) && x.kind == k && after == before,
        },
    }
}

impl<H: Copy> RouteTree<H> {
    /// Reads `pattern` and registers `e` there.
    pub fn register(&mut self, pattern: &str, e: NodeEndpoint<H>) -> (r: Result<(), ServerError>)
        requires
            old(self).wf(),
        ensures
            final(self).wf(),
            registration(old(self).nodes@, final(self).nodes@, pattern@, e@, r),
    {
        match RoutePath::parse(pattern) {
            Ok(path) => self.insert(&path, e),
            Err(err) => Err(err),
        }
    }
}

/// The name of a static token; any string for a variable one.
spec fn s_of(tok: &RoutePathToken) -> String {
    match tok {
        RoutePathToken::Static(s) => *s,
        RoutePathToken::Variable(v) => *v,
    }
}

/// Trees whose nodes have the same children have the same edges and the same walks.
proof fn lemma_same_children<H>(t1: Seq<RouteNode<H>>, t2: Seq<RouteNode<H>>)
    requires
        t1.len() == t2.len(),
        forall|n: int| 0 <= n < t1.len() ==> (#[trigger] t2[n]).children == t1[n].children,
    ensures
        unique_edges(t1) ==> unique_edges(t2),
        forall|segs: Seq<Seq<char>>| #[trigger] walk(t2, segs) == walk(t1, segs),
{
    assert forall|n: int, i: int| 0 <= n < t1.len() implies #[trigger] edge_target(t2[n], i) == edge_target(t1[n], i) by {
        assert(t2[n].children == t1[n].children);
    }
    assert forall|segs: Seq<Seq<char>>| #[trigger] walk(t2, segs) == walk(t1, segs) by {
        lemma_walk_same(t1, t2, segs);
    }
}

proof fn lemma_walk_same<H>(t1: Seq<RouteNode<H>>, t2: Seq<RouteNode<H>>, segs: Seq<Seq<char>>)
    requires
        t1.len() == t2.len(),
        forall|n: int| 0 <= n < t1.len() ==> (#[trigger] t2[n]).children == t1[n].children,
    ensures
        walk(t2, segs) == walk(t1, segs),
    decreases segs.len(),
{
    if segs.len() > 0 {
        lemma_walk_same(t1, t2, segs.drop_last());
        if let Some((n, a)) = walk(t1, segs.drop_last()) {
            if n < t1.len() {
                assert(t2[n as int].children == t1[n as int].children);
            }
        }
    }
}

proof fn lemma_lookup_index<V>(s: Seq<(String, V)>, key: Seq<char>)
    ensures
        lookup(s, key) matches Some(v) ==> exists|i: int| 0 <= i < s.len() && (#[trigger] s[i]).0@ == key && s[i].1 == v,
    decreases s.len(),
{
    if s.len() > 0 {
        if s[0].0@ == key {
            assert(s[0].0@ == key && s[0].1 == lookup(s, key)->0);
        } else {
            lemma_lookup_index(s.drop_first(), key);
            if let Some(v) = lookup(s, key) {
                let i = choose|i: int| 0 <= i < s.drop_first().len() && (#[trigger] s.drop_first()[i]).0@ == key && s.drop_first()[i].1 == v;
                assert(s[i + 1] == s.drop_first()[i]);
            }
        }
    }
}

/// A request step taken from `node` runs along one of its edges.
proof fn lemma_step_edge<H>(node: RouteNode<H>, seg: Seq<char>)
    requires
        step(node, seg) is Some,
    ensures
        exists|i: int| #[trigger] edge_target(node, i) == Some(step(node, seg)->Some_0.0) && match node.children {
            RouteChildren::Static(kids) => kids@[i].0@ == seg,
            _ => true,
        },
{
    match node.children {
        RouteChildren::Static(kids) => {
            lemma_lookup_index(kids@, seg);
            let i = choose|i: int| 0 <= i < kids@.len() && (#[trigger] kids@[i]).0@ == seg && kids@[i].1 == lookup(kids@, seg)->0;
            assert(edge_target(node, i) == Some(step(node, seg)->Some_0.0));
        },
        RouteChildren::Variable(_, c) => {
            assert(edge_target(node, 0) == Some(c));
        },
        RouteChildren::Leaf => {},
    }
}

/// A registration token's existing child is reached along one of the node's edges.
proof fn lemma_child_edge<H>(node: RouteNode<H>, tok: TokenView)
    requires
        child_for(node, tok) is Present,
    ensures
        exists|j: int| #[trigger] edge_target(node, j) == Some(child_for(node, tok)->0) && match tok {
            TokenView::Static(s) => node.children matches RouteChildren::Static(kids) && kids@[j].0@ == s,
            TokenView::Variable(_) => node.children is Variable,
        },
{
    match tok {
        TokenView::Static(s) => {
            if let RouteChildren::Static(kids) = node.children {
                lemma_lookup_index(kids@, s);
                let j = choose|j: int| 0 <= j < kids@.len() && (#[trigger] kids@[j]).0@ == s && kids@[j].1 == lookup(kids@, s)->0;
                assert(edge_target(node, j) == Some(child_for(node, tok)->0));
            }
        },
        TokenView::Variable(_) => {
            assert(edge_target(node, 0) == Some(child_for(node, tok)->0));
        },
    }
}

/// A request path and a registration pattern that reach the same node fit each other:
/// the tree shares no subtree, so only one path of edges leads to each node.
pub(crate) proof fn lemma_walk_follow_fit<H>(t: Seq<RouteNode<H>>, segs: Seq<Seq<char>>, toks: Seq<TokenView>, c: usize)
    requires
        wf_nodes(t),
        walk(t, segs) is Some,
        walk(t, segs)->Some_0.0 == c,
        follow(t, toks) == Ok::<Option<usize>, ()>(Some(c)),
    ensures
        fits(toks, segs),
    decreases segs.len() + toks.len(),
{
    if segs.len() == 0 && toks.len() == 0 {
    } else if segs.len() == 0 {
        let p = follow(t, toks.drop_last())->Ok_0->Some_0;
        lemma_child_edge(t[p as int], toks.last());
        let j = choose|j: int| #[trigger] edge_target(t[p as int], j) == Some(c) && true;
        assert(children_ok(t[p as int].children, p as int, t.len() as int));
        if let RouteChildren::Static(kids) = t[p as int].children {
            assert(kids@[j].1 == c);
        }
    } else if toks.len() == 0 {
        let p = walk(t, segs.drop_last())->Some_0.0;
        lemma_step_edge(t[p as int], segs.last());
        let i = choose|i: int| #[trigger] edge_target(t[p as int], i) == Some(c) && true;
        assert(children_ok(t[p as int].children, p as int, t.len() as int));
        if let RouteChildren::Static(kids) = t[p as int].children {
            assert(kids@[i].1 == c);
        }
    } else {
        let p = walk(t, segs.drop_last())->Some_0.0;
        let q = follow(t, toks.drop_last())->Ok_0->Some_0;
        lemma_step_edge(t[p as int], segs.last());
        lemma_child_edge(t[q as int], toks.last());
        let i = choose|i: int| #[trigger] edge_target(t[p as int], i) == Some(c) && match t[p as int].children {
            RouteChildren::Static(kids) => kids@[i].0@ == segs.last(),
            _ => true,
        };
        let j = choose|j: int| #[trigger] edge_target(t[q as int], j) == Some(c) && match toks.last() {
            TokenView::Static(s) => t[q as int].children matches RouteChildren::Static(kids) && kids@[j].0@ == s,
            TokenView::Variable(_) => t[q as int].children is Variable,
        };
        assert(p == q && i == j);
        lemma_walk_follow_fit(t, segs.drop_last(), toks.drop_last(), p);
        assert(token_matches(toks.last(), segs.last()));
        assert forall|k: int| 0 <= k < toks.len() implies token_matches(#[trigger] toks[k], segs[k]) by {
            if k < toks.len() - 1 {
                assert(token_matches(toks.drop_last()[k], segs.drop_last()[k]));
            }
        }
    }
}

/// The walks a tree gains when node `cur` gets one new edge, for token `tok`, to the
/// new leaf `k`: only walks whose last step takes that edge.
proof fn lemma_new_walks<H>(t1: Seq<RouteNode<H>>, t2: Seq<RouteNode<H>>, cur: int, k: int, tok: TokenView, segs: Seq<Seq<char>>)
    requires
        wf_nodes(t1),
        0 <= cur < t1.len(),
        k == t1.len(),
        t2.len() == t1.len() + 1,
        forall|n: int| 0 <= n < t1.len() && n != cur ==> (#[trigger] t2[n]).children == t1[n].children,
        forall|x: Seq<char>| (#[trigger] step(t1[cur], x)) is Some ==> step(t2[cur], x) == step(t1[cur], x),
        forall|x: Seq<char>| (#[trigger] step(t2[cur], x)) is Some && step(t1[cur], x) is None
            ==> token_matches(tok, x) && step(t2[cur], x)->Some_0.0 == k,
        t2[k].children is Leaf,
    ensures
        walk(t2, segs) is Some ==> walk(t1, segs) == walk(t2, segs) || (
            segs.len() >= 1 && walk(t1, segs.drop_last()) is Some && walk(t1, segs.drop_last())->Some_0.0 == cur
                && token_matches(tok, segs.last()) && walk(t2, segs)->Some_0.0 == k),
    decreases segs.len(),
{
    if segs.len() > 0 && walk(t2, segs) is Some {
        lemma_new_walks(t1, t2, cur, k, tok, segs.drop_last());
        let w = walk(t2, segs.drop_last())->0;
        if walk(t1, segs.drop_last()) == walk(t2, segs.drop_last()) {
            let p = w.0 as int;
            lemma_walk_in_range(t1, segs.drop_last());
            if p != cur {
                assert(t2[p].children == t1[p].children);
            }
        } else {
            assert(w.0 == k);
        }
    }
}

/// In a well-formed tree every walk ends inside the arena.
proof fn lemma_walk_in_range<H>(t: Seq<RouteNode<H>>, segs: Seq<Seq<char>>)
    requires
        wf_nodes(t),
    ensures
        walk(t, segs) is Some ==> walk(t, segs)->Some_0.0 < t.len(),
    decreases segs.len(),
{
    if segs.len() > 0 && walk(t, segs) is Some {
        lemma_walk_in_range(t, segs.drop_last());
        let p = walk(t, segs.drop_last())->Some_0.0;
        lemma_step_edge(t[p as int], segs.last());
        let i = choose|i: int| #[trigger] edge_target(t[p as int], i) == Some(walk(t, segs)->Some_0.0) && true;
        assert(children_ok(t[p as int].children, p as int, t.len() as int));
        if let RouteChildren::Static(kids) = t[p as int].children {
            assert(kids@[i].1 == walk(t, segs)->Some_0.0);
        }
    }
}

/// A walk that stops somewhere stops for every longer path too.
proof fn lemma_walk_none_extends<H>(nodes: Seq<RouteNode<H>>, segs: Seq<Seq<char>>, i: int)
    requires
        0 <= i < segs.len(),
        walk(nodes, segs.take(i + 1)) is None,
    ensures
        walk(nodes, segs) is None,
    decreases segs.len() - i,
{
    if i + 1 < segs.len() {
        assert(segs.take(i + 2).drop_last() =~= segs.take(i + 1));
        lemma_walk_none_extends(nodes, segs, i + 1);
    } else {
        assert(segs.take(i + 1) =~= segs);
    }
}

} // verus!
