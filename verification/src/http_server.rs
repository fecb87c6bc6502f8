//! The dispatch tree: a trie over path segments, one per request method.

use crate::path::{
    lemma_segments_plain, lemma_segments_root, lemma_segments_trailing_slash, segments,
    split_path,
};
use crate::response::{frame_response, response};
use crate::text::{first_index, lemma_first_index, lemma_first_index_is};
use vstd::prelude::*;

verus! {

/// The request methods that routes can be registered under.
#[derive(Clone, Copy, Debug, PartialEq, Eq, Hash, Structural)]
pub enum Method {
    Get,
    Post,
}

/// Why a request found no handler.
#[derive(Clone, Copy, Debug, PartialEq, Eq, Structural)]
pub enum RouteError {
    /// No handler is registered at the path.
    NoRoute,
    /// No route at all is registered under the method.
    MethodNotSupported,
}

impl RouteError {
    /// The failure in words.
    pub fn message(&self) -> (text: &'static str)
        ensures
            text@ == match *self {
                RouteError::NoRoute => "no route available"@,
                RouteError::MethodNotSupported => "method not support"@,
            },
    {
        match self {
            RouteError::NoRoute => "no route available",
            RouteError::MethodNotSupported => "method not support",
        }
    }
}

/// `anyhow::Error`, the error that a handler fails with. Nothing is claimed
/// of it: the library hands such a value on and never looks inside, and to
/// the verifier it is opaque.
#[verifier::external_type_specification]
#[verifier::external_body]
pub struct ExHandlerError(anyhow::Error);

/// What a handler returns: the body of the response, or its own failure.
pub type Reply = Result<String, anyhow::Error>;

/// A handler as a plain function: takes nothing and returns a reply.
pub type HandlerFn = fn() -> Reply;

/// Why a request got no response.
#[derive(Debug)]
pub enum CallError {
    /// The request resolved to no handler.
    Route(RouteError),
    /// The handler failed; this is its error, as it returned it.
    Handler(anyhow::Error),
}

/// Whether `out` is what `reply` is answered with: a body is framed as a
/// response, a failure is handed on as it is.
pub open spec fn answers(reply: Reply, out: Result<String, CallError>) -> bool {
    match reply {
        Ok(body) => out is Ok && out->Ok_0@ == response(body@),
        Err(e) => out == Err::<String, CallError>(CallError::Handler(e)),
    }
}

/// The answer to a handler's reply.
pub fn respond(reply: Reply) -> (out: Result<String, CallError>)
    ensures
        answers(reply, out),
{
    match reply {
        Ok(body) => Ok(frame_response(body.as_str())),
        Err(e) => Err(CallError::Handler(e)),
    }
}

/// One segment of the trie. A node carries a handler exactly if a registered
/// path ends at it; its children are told apart by their keys.
pub struct Node<H> {
    nodes: Vec<Node<H>>,
    key: String,
    handler: Option<H>,
}

impl<H> View for Node<H> {
    type V = Map<Seq<Seq<char>>, H>;

    /// The routes below this node: each registered sequence of segments with
    /// its handler.
    closed spec fn view(&self) -> Map<Seq<Seq<char>>, H> {
        Map::new(
            |segs: Seq<Seq<char>>| self.resolve(segs) is Some,
            |segs: Seq<Seq<char>>| self.resolve(segs)->0,
        )
    }
}

impl<H> Node<H> {
    /// The segment that this node stands for.
    pub closed spec fn key(self) -> Seq<char> {
        self.key@
    }

    /// The keys of a row of siblings, in order.
    spec fn keys(nodes: Seq<Node<H>>) -> Seq<Seq<char>> {
        Seq::new(nodes.len(), |i: int| nodes[i].key@)
    }

    /// The handler that a walk along `segs` from this node ends at.
    spec fn resolve(self, segs: Seq<Seq<char>>) -> Option<H>
        decreases segs.len(),
    {
        if segs.len() == 0 {
            self.handler
        } else {
            let at = first_index(Self::keys(self.nodes@), segs[0]);
            if 0 <= at < self.nodes.len() {
                self.nodes[at].resolve(segs.drop_first())
            } else {
                None
            }
        }
    }

    /// Siblings have distinct, non-empty keys, throughout the tree.
    pub closed spec fn wf(self) -> bool
        decreases self,
    {
        &&& Self::keys(self.nodes@).no_duplicates()
        &&& forall|i: int|
            0 <= i < self.nodes.len() ==> (#[trigger] self.nodes[i]).key@.len() > 0
                && self.nodes[i].wf()
    }

    /// A node for the segment `key`, with no handler and no children.
    pub fn new(key: &str) -> (node: Self)
        ensures
            node.wf(),
            node.key() == key@,
            node@ == Map::<Seq<Seq<char>>, H>::empty(),
    {
        let node = Node { nodes: Vec::new(), key: String::from_str(key), handler: None };
        proof {
            assert(Self::keys(node.nodes@) == Seq::<Seq<char>>::empty());
            assert forall|segs: Seq<Seq<char>>| node.resolve(segs) is None by {
                if segs.len() > 0 {
                    lemma_first_index(Self::keys(node.nodes@), segs[0]);
                }
            }
            assert(node@ =~= Map::<Seq<Seq<char>>, H>::empty());
        }
        node
    }

    /// The position of the child with the given key, or the number of
    /// children if there is none.
    fn find_child(&self, key: &String) -> (at: usize)
        ensures
            at == first_index(Self::keys(self.nodes@), key@),
            at <= self.nodes.len(),
    {
        let mut at: usize = 0;
        while at < self.nodes.len()
            invariant
                at <= self.nodes.len(),
                forall|i: int| 0 <= i < at ==> Self::keys(self.nodes@)[i] != key@,
            decreases self.nodes.len() - at,
        {
            if self.nodes[at].key == *key {
                proof {
                    lemma_first_index_is(Self::keys(self.nodes@), key@, at as int);
                }
                return at;
            }
            at += 1;
        }
        proof {
            lemma_first_index_is(Self::keys(self.nodes@), key@, at as int);
        }
        at
    }

    /// Registers `cb` at the end of the walk along `segs` from position `at`
    /// on, making the nodes that the walk lacks.
    fn insert_from(&mut self, segs: &Vec<String>, at: usize, cb: H)
        requires
            at <= segs.len(),
            forall|i: int| 0 <= i < segs.len() ==> (#[trigger] segs[i])@.len() > 0,
        ensures
            old(self).wf() ==> final(self).wf(),
            final(self).key@ == old(self).key@,
            forall|walk: Seq<Seq<char>>| #[trigger]
                final(self).resolve(walk) == if walk == segs.deep_view().skip(at as int) {
                    Some(cb)
                } else {
                    old(self).resolve(walk)
                },
        decreases segs.len() - at,
    {
        let ghost tail = segs.deep_view().skip(at as int);
        if at == segs.len() {
            self.handler = Some(cb);
            proof {
                assert forall|walk: Seq<Seq<char>>| #[trigger]
                    self.resolve(walk) == if walk == tail {
                        Some(cb)
                    } else {
                        old(self).resolve(walk)
                    } by {
                    if walk.len() == 0 {
                        assert(walk == tail);
                    }
                }
            }
            return ;
        }
        let child = self.find_child(&segs[at]);
        let ghost key = segs[at as int]@;
        let ghost before = self.nodes@;
        assert(tail[0] == key);
        assert(tail.drop_first() == segs.deep_view().skip(at + 1));
        if child == self.nodes.len() {
            let fresh = Node::new(segs[at].as_str());
            self.nodes.push(fresh);
            proof {
                let grown = self.nodes@;
                assert(Self::keys(grown) == Self::keys(before).push(key));
                lemma_first_index(Self::keys(before), key);
                assert(old(self).wf() ==> self.wf()) by {
                    if old(self).wf() {
                        assert(Self::keys(grown).no_duplicates());
                        assert forall|i: int| 0 <= i < grown.len() implies (#[trigger] grown[i]).key@.len()
                            > 0 && grown[i].wf() by {
                            if i < before.len() {
                                assert(grown[i] == before[i]);
                            }
                        }
                    }
                }
                assert forall|walk: Seq<Seq<char>>| #[trigger]
                    self.resolve(walk) == old(self).resolve(walk) by {
                    if walk.len() > 0 {
                        let was = first_index(Self::keys(before), walk[0]);
                        lemma_first_index(Self::keys(before), walk[0]);
                        if was < before.len() {
                            lemma_first_index_is(Self::keys(grown), walk[0], was);
                            assert(grown[was] == before[was]);
                        } else if walk[0] == key {
                            lemma_first_index_is(Self::keys(grown), walk[0], was);
                            assert(grown[was]@ == Map::<Seq<Seq<char>>, H>::empty());
                            assert(!grown[was]@.contains_key(walk.drop_first()));
                        } else {
                            lemma_first_index_is(Self::keys(grown), walk[0], was + 1);
                        }
                    }
                }
            }
        }
        let ghost mid = *self;
        proof {
            lemma_first_index(Self::keys(before), key);
            if child == before.len() {
                lemma_first_index_is(Self::keys(mid.nodes@), key, child as int);
            }
            assert(first_index(Self::keys(mid.nodes@), key) == child);
            assert(Self::keys(mid.nodes@)[child as int] == key);
        }
        self.nodes[child].insert_from(segs, at + 1, cb);
        proof {
            let after = self.nodes@;
            assert(Self::keys(after) == Self::keys(mid.nodes@));
            assert(mid.wf() ==> self.wf()) by {
                if mid.wf() {
                    assert forall|i: int| 0 <= i < after.len() implies (#[trigger] after[i]).key@.len()
                        > 0 && after[i].wf() by {
                        assert(mid.nodes[i].wf());
                    }
                }
            }
            assert forall|walk: Seq<Seq<char>>| #[trigger]
                self.resolve(walk) == if walk == tail {
                    Some(cb)
                } else {
                    old(self).resolve(walk)
                } by {
                assert(mid.resolve(walk) == old(self).resolve(walk));
                assert(tail.len() > 0);
                if walk.len() > 0 {
                    let to = first_index(Self::keys(after), walk[0]);
                    lemma_first_index(Self::keys(after), walk[0]);
                    if to == child {
                        assert(walk[0] == key);
                        if walk.drop_first() == tail.drop_first() {
                            assert(walk =~= seq![walk[0]] + walk.drop_first());
                            assert(tail =~= seq![tail[0]] + tail.drop_first());
                            assert(walk == tail);
                        }
                        assert(self.resolve(walk) == after[to].resolve(walk.drop_first()));
                        assert(mid.resolve(walk) == mid.nodes[to].resolve(walk.drop_first()));
                    } else {
                        assert(walk[0] != key);
                        assert(walk != tail);
                        if 0 <= to < after.len() {
                            assert(after[to] == mid.nodes[to]);
                        }
                        assert(self.resolve(walk) == mid.resolve(walk));
                    }
                } else {
                    assert(self.resolve(walk) == mid.resolve(walk));
                }
            }
        }
    }

    /// Registers `cb` at `path`, in place of any handler registered there
    /// before. Every other route stays as it was.
    pub fn insert(&mut self, path: &str, cb: H)
        ensures
            final(self)@ == old(self)@.insert(segments(path@), cb),
            final(self).key() == old(self).key(),
            old(self).wf() ==> final(self).wf(),
    {
        let segs = split_path(path);
        proof {
            lemma_segments_plain(path@);
            assert(segs.deep_view().skip(0) == segs.deep_view());
            assert forall|i: int| 0 <= i < segs.len() implies (#[trigger] segs[i])@.len() > 0 by {
                assert(segs.deep_view()[i] == segs[i]@);
            }
        }
        self.insert_from(&segs, 0, cb);
        assert(self@ =~= old(self)@.insert(segments(path@), cb));
    }

    /// Looks up the handler registered at `path`.
    pub fn get(&self, path: &str) -> (found: Result<&H, RouteError>)
        ensures
            match found {
                Ok(handler) => self@.contains_key(segments(path@)) && *handler == self@[segments(
                    path@,
                )],
                Err(e) => !self@.contains_key(segments(path@)) && e == RouteError::NoRoute,
            },
    {
        let segs = split_path(path);
        let ghost all = segs.deep_view();
        let mut node = self;
        let mut at: usize = 0;
        assert(all.skip(0) == all);
        while at < segs.len()
            invariant
                all == segs.deep_view(),
                all == segments(path@),
                at <= segs.len(),
                self.resolve(all) == node.resolve(all.skip(at as int)),
            decreases segs.len() - at,
        {
            let child = node.find_child(&segs[at]);
            assert(all.skip(at as int)[0] == segs[at as int]@);
            assert(all.skip(at as int).drop_first() == all.skip(at + 1));
            if child == node.nodes.len() {
                assert(node.resolve(all.skip(at as int)) is None);
                return Err(RouteError::NoRoute);
            }
            node = &node.nodes[child];
            at += 1;
        }
        match &node.handler {
            Some(handler) => Ok(handler),
            None => Err(RouteError::NoRoute),
        }
    }
}

/// The routes of one method: registered segment sequences and their handlers.
pub type Routes<H> = Map<Seq<Seq<char>>, H>;

/// The routes of `table` under `method`; none where nothing was registered
/// under it.
pub open spec fn routes_of<H>(table: Map<Method, Routes<H>>, method: Method) -> Routes<H> {
    if table.contains_key(method) {
        table[method]
    } else {
        Map::empty()
    }
}

/// The table after `handler` is registered at `segs` under `method`.
pub open spec fn register<H>(
    table: Map<Method, Routes<H>>,
    method: Method,
    segs: Seq<Seq<char>>,
    handler: H,
) -> Map<Method, Routes<H>> {
    table.insert(method, routes_of(table, method).insert(segs, handler))
}

/// What a request for `segs` under `method` resolves to.
pub open spec fn dispatch<H>(
    table: Map<Method, Routes<H>>,
    method: Method,
    segs: Seq<Seq<char>>,
) -> Result<H, RouteError> {
    if !table.contains_key(method) {
        Err(RouteError::MethodNotSupported)
    } else if !table[method].contains_key(segs) {
        Err(RouteError::NoRoute)
    } else {
        Ok(table[method][segs])
    }
}

/// One dispatch tree per method, made when the first route is registered
/// under that method.
pub struct Router<H> {
    get_tree: Option<Node<H>>,
    post_tree: Option<Node<H>>,
}

impl<H> View for Router<H> {
    type V = Map<Method, Routes<H>>;

    /// The methods that have a tree, each with its routes.
    closed spec fn view(&self) -> Map<Method, Routes<H>> {
        Map::new(
            |method: Method| self.tree(method) is Some,
            |method: Method| self.tree(method)->0@,
        )
    }
}

impl<H> Router<H> {
    /// The tree of `method`, if one was made.
    spec fn tree(self, method: Method) -> Option<Node<H>> {
        match method {
            Method::Get => self.get_tree,
            Method::Post => self.post_tree,
        }
    }

    /// Every tree of the router is well formed.
    pub closed spec fn wf(self) -> bool {
        forall|method: Method| (#[trigger] self.tree(method)) is Some ==> self.tree(method)->0.wf()
    }

    /// A router without routes: no method is supported yet.
    pub fn new() -> (router: Self)
        ensures
            router.wf(),
            router@ == Map::<Method, Routes<H>>::empty(),
    {
        let router = Router { get_tree: None, post_tree: None };
        assert(router@ =~= Map::<Method, Routes<H>>::empty());
        router
    }

    /// Registers `handler` at `path` under `method`, in place of any handler
    /// registered there before. Routes under other methods, and other paths
    /// under this one, stay as they were.
    pub fn insert(&mut self, method: Method, path: &str, handler: H)
        ensures
            final(self)@ == register(old(self)@, method, segments(path@), handler),
            old(self).wf() ==> final(self).wf(),
    {
        let slot = match method {
            Method::Get => self.get_tree.take(),
            Method::Post => self.post_tree.take(),
        };
        let mut root = match slot {
            Some(root) => root,
            None => Node::new("/"),
        };
        root.insert(path, handler);
        match method {
            Method::Get => {
                self.get_tree = Some(root);
            },
            Method::Post => {
                self.post_tree = Some(root);
            },
        }
        proof {
            assert(self.tree(method) == Some(root));
            assert forall|other: Method| other != method implies self.tree(other) == old(
                self,
            ).tree(other) by {}
            assert(self@ =~= register(old(self)@, method, segments(path@), handler));
            assert(old(self).wf() ==> self.wf()) by {
                if old(self).wf() {
                    assert forall|m: Method| (#[trigger] self.tree(m)) is Some implies self.tree(
                        m,
                    )->0.wf() by {
                        if m != method {
                            assert(old(self).tree(m) is Some);
                        } else if old(self).tree(method) is Some {
                            assert(old(self).tree(method)->0.wf());
                        }
                    }
                }
            }
        }
    }

    /// Registers `handler` at `path` for `GET` requests.
    pub fn get(&mut self, path: &str, handler: H)
        ensures
            final(self)@ == register(old(self)@, Method::Get, segments(path@), handler),
            old(self).wf() ==> final(self).wf(),
    {
        self.insert(Method::Get, path, handler)
    }

    /// Registers `handler` at `path` for `POST` requests.
    pub fn post(&mut self, path: &str, handler: H)
        ensures
            final(self)@ == register(old(self)@, Method::Post, segments(path@), handler),
            old(self).wf() ==> final(self).wf(),
    {
        self.insert(Method::Post, path, handler)
    }

    /// Resolves a request to its handler: the method must have a tree, and
    /// the path a handler in it.
    pub fn lookup(&self, method: Method, path: &str) -> (found: Result<&H, RouteError>)
        ensures
            match found {
                Ok(handler) => dispatch(self@, method, segments(path@)) == Ok::<H, RouteError>(
                    *handler,
                ),
                Err(e) => dispatch(self@, method, segments(path@)) == Err::<H, RouteError>(e),
            },
    {
        let slot = match method {
            Method::Get => &self.get_tree,
            Method::Post => &self.post_tree,
        };
        assert(*slot == self.tree(method));
        match slot {
            Some(root) => root.get(path),
            None => Err(RouteError::MethodNotSupported),
        }
    }

    /// Serves a request: resolves it, runs the handler and frames what the
    /// handler returns. A request that resolves to no handler fails with the
    /// reason and runs nothing; a handler's failure comes back unchanged.
    pub fn call(&self, method: Method, path: &str) -> (out: Result<String, CallError>) where
        H: Fn() -> Reply,

        requires
            dispatch(self@, method, segments(path@)) is Ok ==> call_requires(
                dispatch(self@, method, segments(path@))->Ok_0,
                (),
            ),
        ensures
            match dispatch(self@, method, segments(path@)) {
                Ok(handler) => exists|reply: Reply| #[trigger]
                    call_ensures(handler, (), reply) && answers(reply, out),
                Err(e) => out == Err::<String, CallError>(CallError::Route(e)),
            },
    {
        match self.lookup(method, path) {
            Ok(handler) => {
                let reply = handler();
                respond(reply)
            },
            Err(e) => Err(CallError::Route(e)),
        }
    }
}

/// A slash at the end of a path makes no difference: a handler registered
/// at `path` is found at `path` with a slash behind it, and one registered
/// with the slash is found without it.
pub proof fn lemma_trailing_slash_route<H>(routes: Routes<H>, path: Seq<char>, handler: H)
    ensures
        routes.insert(segments(path), handler).contains_key(segments(path.push('/'))),
        routes.insert(segments(path), handler)[segments(path.push('/'))] == handler,
        routes.insert(segments(path.push('/')), handler).contains_key(segments(path)),
        routes.insert(segments(path.push('/')), handler)[segments(path)] == handler,
{
    lemma_segments_trailing_slash(path);
}

/// The path `/` is the root: a handler registered there is found there, and
/// registering it makes no route for a path that has a segment.
pub proof fn lemma_root_route<H>(routes: Routes<H>, handler: H, other: Seq<char>)
    requires
        segments(other).len() > 0,
    ensures
        segments("/"@) == Seq::<Seq<char>>::empty(),
        routes.insert(segments("/"@), handler).contains_key(segments("/"@)),
        routes.insert(segments("/"@), handler)[segments("/"@)] == handler,
        routes.insert(segments("/"@), handler).contains_key(segments(other))
            == routes.contains_key(segments(other)),
{
    reveal_strlit("/");
    assert("/"@ == seq!['/']);
    lemma_segments_root();
}

/// Routes do not bleed into one another: of two handlers registered at
/// paths with different segments, each is found at its own path and only
/// there, also where one path is the beginning of the other. The order of
/// the two registrations makes no difference.
pub proof fn lemma_routes_apart<H>(
    routes: Routes<H>,
    one: Seq<char>,
    other: Seq<char>,
    first: H,
    second: H,
)
    requires
        segments(one) != segments(other),
    ensures
        routes.insert(segments(one), first).insert(segments(other), second)[segments(one)]
            == first,
        routes.insert(segments(one), first).insert(segments(other), second)[segments(other)]
            == second,
        routes.insert(segments(one), first).insert(segments(other), second) == routes.insert(
            segments(other),
            second,
        ).insert(segments(one), first),
{
    assert(routes.insert(segments(one), first).insert(segments(other), second) =~= routes.insert(
        segments(other),
        second,
    ).insert(segments(one), first));
}

/// A registered handler is the one that its method and path dispatch to.
pub proof fn lemma_registered_route_resolves<H>(
    table: Map<Method, Routes<H>>,
    method: Method,
    segs: Seq<Seq<char>>,
    handler: H,
)
    ensures
        dispatch(register(table, method, segs, handler), method, segs) == Ok::<H, RouteError>(
            handler,
        ),
{
}

/// Methods are kept apart: registering under one method changes nothing
/// that a request under another method resolves to. A path registered under
/// `GET` alone is therefore no route under `POST`.
pub proof fn lemma_method_isolation<H>(
    table: Map<Method, Routes<H>>,
    method: Method,
    segs: Seq<Seq<char>>,
    handler: H,
    asked: Method,
    wanted: Seq<Seq<char>>,
)
    requires
        asked != method,
    ensures
        dispatch(register(table, method, segs, handler), asked, wanted) == dispatch(
            table,
            asked,
            wanted,
        ),
        !table.contains_key(asked) ==> dispatch(register(table, method, segs, handler), asked, wanted)
            == Err::<H, RouteError>(RouteError::MethodNotSupported),
{
}

/// The last registration wins: of two handlers registered at the same
/// method and path, requests get the second, and the table is the one that
/// the second registration alone would have made.
pub proof fn lemma_last_registration_wins<H>(
    table: Map<Method, Routes<H>>,
    method: Method,
    segs: Seq<Seq<char>>,
    first: H,
    second: H,
)
    ensures
        dispatch(register(register(table, method, segs, first), method, segs, second), method, segs)
            == Ok::<H, RouteError>(second),
        register(register(table, method, segs, first), method, segs, second) == register(
            table,
            method,
            segs,
            second,
        ),
{
    let once = register(table, method, segs, first);
    assert(routes_of(once, method).insert(segs, second) =~= routes_of(table, method).insert(
        segs,
        second,
    ));
    assert(register(once, method, segs, second) =~= register(table, method, segs, second));
}

} // verus!
