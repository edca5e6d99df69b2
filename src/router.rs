//! Route resolution, the router builder, and the laws that tie registration to resolution.

use vstd::prelude::*;
use crate::error::{ErrorKind, ServerError};
use crate::method::Method;
use crate::parser::{query_path_of, QueryPath, TokenView};
use crate::request::ServerRequest;
use crate::trie::{
    extends, find_key, follow, fresh, insert_outcome, lemma_follow_extends, lemma_follow_prefix,
    lookup, registered, registration, resource_at, walk, wf_nodes, EndpointView, NodeEndpoint,
    args_of, fits, token_matches,
    PathArguments, RouteChildren, RouteNode, RouteTree,
};

verus! {

/// What a request resolves to, as a value.
pub enum RouteView<H> {
    Rest(H, Seq<(Seq<char>, Seq<char>)>),
    Resource(Seq<char>, Seq<char>),
}

/// The outcome of resolving a request of method `m` for `path`.
pub open spec fn resolution<H: Copy>(nodes: Seq<RouteNode<H>>, m: Method, path: Seq<char>) -> Result<RouteView<H>, ErrorKind> {
    match query_path_of(path, m) {
        None => Err(ErrorKind::Parse),
        Some((segs, res)) => match walk(nodes, segs) {
            None => Err(ErrorKind::NotFound),
            Some((n, a)) => match res {
                Some(name) => match lookup(nodes[n as int].resources@, name) {
                    Some(loc) => Ok(RouteView::Resource(loc@, name)),
                    None => Err(ErrorKind::NotFound),
                },
                None => match nodes[n as int].rest.handler(m) {
                    Some(h) => Ok(RouteView::Rest(h, a)),
                    None => Err(ErrorKind::NotFound),
                },
            },
        },
    }
}

/// What a request resolved to: a handler with its arguments, or a file to send.
#[derive(Debug)]
pub enum Route<H> {
    Rest(H, PathArguments),
    Resource { location: String, name: String },
}

impl<H> View for Route<H> {
    type V = RouteView<H>;

    open spec fn view(&self) -> RouteView<H> {
        match self {
            Route::Rest(h, a) => RouteView::Rest(*h, a@),
            Route::Resource { location, name } => RouteView::Resource(location@, name@),
        }
    }
}

/// Resolves requests against the registered routes.
#[derive(Debug)]
pub struct Router<H> {
    routes: RouteTree<H>,
}

impl<H> View for Router<H> {
    type V = Seq<RouteNode<H>>;

    /// The node arena, root first.
    closed spec fn view(&self) -> Seq<RouteNode<H>> {
        self.routes.nodes@
    }
}

impl<H> Router<H> {
    #[verifier::type_invariant]
    spec fn inv(&self) -> bool {
        wf_nodes(self.routes.nodes@)
    }
}

impl<H: Copy> Router<H> {
    /// Resolves a request of method `method` for `path`: to the handler bound
    /// there with the captured arguments, or to the location of the named resource.
    pub fn lookup(&self, method: Method, path: &str) -> (r: Result<Route<H>, ServerError>)
        ensures
            match resolution(self@, method, path@) {
                Ok(v) => r matches Ok(x) && x@ == v,
                Err(k) => r matches Err(e) && e.kind == k,
            },
    {
        proof { use_type_invariant(self); }
        let q = match QueryPath::parse(path, method) {
            Ok(q) => q,
            Err(e) => return Err(e),
        };
        let (n, args) = match self.routes.get(&q) {
            Ok(found) => found,
            Err(e) => return Err(e),
        };
        let node = &self.routes.nodes[n];
        match &q.resource {
            Some(name) => match find_key(&node.resources, name) {
                Some(i) => Ok(Route::Resource { location: node.resources[i].1.clone(), name: name.clone() }),
                None => Err(ServerError::new(ErrorKind::NotFound, "Resource not found")),
            },
            None => match node.rest.get(method) {
                Ok(h) => Ok(Route::Rest(h, args)),
                Err(e) => Err(e),
            },
        }
    }
}

impl<H: Copy> Router<H> {
    /// Resolves a decoded request.
    pub fn resolve(&self, request: &ServerRequest) -> (r: Result<Route<H>, ServerError>)
        ensures
            match resolution(self@, request.method, request.path@) {
                Ok(v) => r matches Ok(x) && x@ == v,
                Err(k) => r matches Err(e) && e.kind == k,
            },
    {
        self.lookup(request.method, request.path.as_str())
    }
}

/// Collects registrations before the server starts.
#[derive(Debug)]
pub struct RouterBuilder<H> {
    tree: RouteTree<H>,
}

impl<H> View for RouterBuilder<H> {
    type V = Seq<RouteNode<H>>;

    /// The node arena, root first.
    closed spec fn view(&self) -> Seq<RouteNode<H>> {
        self.tree.nodes@
    }
}

impl<H> RouterBuilder<H> {
    #[verifier::type_invariant]
    spec fn inv(&self) -> bool {
        wf_nodes(self.tree.nodes@)
    }
}

impl<H: Copy> RouterBuilder<H> {
    /// A builder with no routes: only the root, with nothing bound.
    pub fn new() -> (r: Self)
        ensures
            wf_nodes(r@),
            r@.len() == 1,
            fresh(r@[0]),
    {
        RouterBuilder { tree: RouteTree::new() }
    }

    fn add(&mut self, path: &str, e: NodeEndpoint<H>) -> (r: Result<(), ServerError>)
        ensures
            wf_nodes(final(self)@),
            registration(old(self)@, final(self)@, path@, e@, r),
    {
        proof { use_type_invariant(&*self); }
        let mut tree = RouteTree::new();
        core::mem::swap(&mut tree, &mut self.tree);
        let r = tree.register(path, e);
        core::mem::swap(&mut tree, &mut self.tree);
        r
    }

    fn rest(&mut self, path: &str, method: Method, handler: H) -> (r: Result<(), ServerError>)
        ensures
            wf_nodes(final(self)@),
            registration(old(self)@, final(self)@, path@, EndpointView::Rest(method, handler), r),
    {
        self.add(path, NodeEndpoint::Rest(method, handler))
    }

    pub fn get(&mut self, path: &str, handler: H) -> (r: Result<(), ServerError>)
        ensures
            wf_nodes(final(self)@),
            registration(old(self)@, final(self)@, path@, EndpointView::Rest(Method::Get, handler), r),
    {
        self.rest(path, Method::Get, handler)
    }

    pub fn post(&mut self, path: &str, handler: H) -> (r: Result<(), ServerError>)
        ensures
            wf_nodes(final(self)@),
            registration(old(self)@, final(self)@, path@, EndpointView::Rest(Method::Post, handler), r),
    {
        self.rest(path, Method::Post, handler)
    }

    pub fn put(&mut self, path: &str, handler: H) -> (r: Result<(), ServerError>)
        ensures
            wf_nodes(final(self)@),
            registration(old(self)@, final(self)@, path@, EndpointView::Rest(Method::Put, handler), r),
    {
        self.rest(path, Method::Put, handler)
    }

    pub fn delete(&mut self, path: &str, handler: H) -> (r: Result<(), ServerError>)
        ensures
            wf_nodes(final(self)@),
            registration(old(self)@, final(self)@, path@, EndpointView::Rest(Method::Delete, handler), r),
    {
        self.rest(path, Method::Delete, handler)
    }

    /// Serves the file at `loc` for GET requests of `<path>/<name>`.
    pub fn resource(&mut self, path: &str, name: &str, loc: &str) -> (r: Result<(), ServerError>)
        ensures
            wf_nodes(final(self)@),
            registration(old(self)@, final(self)@, path@, EndpointView::Resource(name@, loc@), r),
    {
        self.add(path, NodeEndpoint::Resource(String::from_str(name), String::from_str(loc)))
    }

    pub fn build(self) -> (r: Router<H>)
        ensures
            wf_nodes(r@),
            r@ == self@,
    {
        proof { use_type_invariant(&self); }
        Router { routes: self.tree }
    }
}

/// A pattern that leads to node `n` leads every fitting request path there too.
proof fn lemma_follow_walk<H: Copy>(t: Seq<RouteNode<H>>, toks: Seq<TokenView>, segs: Seq<Seq<char>>, n: usize)
    requires
        wf_nodes(t),
        follow(t, toks) == Ok::<Option<usize>, ()>(Some(n)),
        fits(toks, segs),
    ensures
        walk(t, segs) == Some((n, args_of(toks, segs))),
    decreases toks.len(),
{
    if toks.len() > 0 {
        let p = follow(t, toks.drop_last())->Ok_0->Some_0;
        assert(fits(toks.drop_last(), segs.drop_last())) by {
            assert forall|i: int| 0 <= i < toks.len() - 1 implies token_matches(#[trigger] toks.drop_last()[i], segs.drop_last()[i]) by {
                assert(token_matches(toks[i], segs[i]));
            }
        }
        lemma_follow_walk(t, toks.drop_last(), segs.drop_last(), p);
        let a = args_of(toks.drop_last(), segs.drop_last());
        assert(token_matches(toks[toks.len() - 1], segs[segs.len() - 1]));
        match toks.last() {
            TokenView::Static(s) => {
                assert(a + Seq::<(Seq<char>, Seq<char>)>::empty() =~= a);
            },
            TokenView::Variable(v) => {},
        }
    }
}

/// A route registered without conflict resolves, for every request path whose
/// segments fit its pattern, to its handler, with each variable of the pattern
/// bound, in declaration order, to the segment in its place; registrations made
/// afterwards keep it so.
pub proof fn registered_route_resolves<H: Copy>(
    t0: Seq<RouteNode<H>>,
    t1: Seq<RouteNode<H>>,
    t2: Seq<RouteNode<H>>,
    toks: Seq<TokenView>,
    m: Method,
    h: H,
    path: Seq<char>,
    segs: Seq<Seq<char>>,
)
    requires
        registered(t0, t1, toks, EndpointView::Rest(m, h)),
        extends(t1, t2),
        wf_nodes(t2),
        query_path_of(path, m) == Some((segs, None::<Seq<char>>)),
        fits(toks, segs),
    ensures
        resolution(t2, m, path) == Ok::<RouteView<H>, ErrorKind>(RouteView::Rest(h, args_of(toks, segs))),
{
    let n = follow(t1, toks)->Ok_0->Some_0;
    lemma_follow_extends(t1, t2, toks);
    assert(t1[n as int].rest.handler(m) is Some);
    lemma_follow_walk(t2, toks, segs, n);
}

/// Two registrations that claim the same slot of a node: the same method, or the same resource name.
pub open spec fn same_slot<H>(e1: EndpointView<H>, e2: EndpointView<H>) -> bool {
    match (e1, e2) {
        (EndpointView::Rest(m1, _), EndpointView::Rest(m2, _)) => m1 == m2,
        (EndpointView::Resource(n1, _), EndpointView::Resource(n2, _)) => n1 == n2,
        _ => false,
    }
}

/// Registering the same method (or resource name) at the same pattern a second
/// time fails with `Conflict`, whatever was registered in between.
pub proof fn second_registration_conflicts<H: Copy>(
    t0: Seq<RouteNode<H>>,
    t1: Seq<RouteNode<H>>,
    t2: Seq<RouteNode<H>>,
    toks: Seq<TokenView>,
    e1: EndpointView<H>,
    e2: EndpointView<H>,
)
    requires
        registered(t0, t1, toks, e1),
        extends(t1, t2),
        same_slot(e1, e2),
    ensures
        insert_outcome(t2, toks, e2) == Err::<(), ErrorKind>(ErrorKind::Conflict),
{
    let n = follow(t1, toks)->Ok_0->Some_0;
    lemma_follow_extends(t1, t2, toks);
    match e1 {
        EndpointView::Rest(m, h) => {
            assert(t1[n as int].rest.handler(m) is Some);
        },
        EndpointView::Resource(name, loc) => {
            assert(resource_at(t1[n as int], name) is Some);
        },
    }
}

/// The token would put a child of the other kind beside a node's existing children.
pub open spec fn mixes(children: RouteChildren, tok: TokenView) -> bool {
    ||| children is Static && tok is Variable
    ||| children is Variable && tok is Static
}

/// A pattern that would give a node a variable child beside its static children,
/// or a static child beside its variable child, fails with `RouteConflict`.
pub proof fn mixed_children_conflict<H: Copy>(
    t: Seq<RouteNode<H>>,
    toks: Seq<TokenView>,
    i: int,
    n: usize,
    e: EndpointView<H>,
)
    requires
        0 <= i < toks.len(),
        follow(t, toks.take(i)) == Ok::<Option<usize>, ()>(Some(n)),
        n < t.len(),
        mixes(t[n as int].children, toks[i]),
    ensures
        insert_outcome(t, toks, e) == Err::<(), ErrorKind>(ErrorKind::RouteConflict),
{
    assert(toks.take(i + 1).drop_last() =~= toks.take(i));
    lemma_follow_prefix(t, toks, i + 1);
}

/// A request whose path reaches no node, or reaches a node without a handler
/// for its method, fails with `NotFound`.
pub proof fn unmatched_request_not_found<H: Copy>(t: Seq<RouteNode<H>>, m: Method, path: Seq<char>, segs: Seq<Seq<char>>)
    requires
        query_path_of(path, m) == Some((segs, None::<Seq<char>>)),
        match walk(t, segs) {
            None => true,
            Some((n, _)) => t[n as int].rest.handler(m) is None,
        },
    ensures
        resolution(t, m, path) == Err::<RouteView<H>, ErrorKind>(ErrorKind::NotFound),
{
}

} // verus!
