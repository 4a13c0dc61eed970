//! Exact-path routing of requests to callbacks or static files.
use vstd::prelude::*;
use vstd::utf8::encode_utf8;

use crate::request::Request;
use crate::response::{text_plain, Response, NOT_FOUND_BODY};
use crate::status_code::StatusCode;
use crate::text::str_eq;

verus! {

/// What a route leads to.
pub enum Handler<C> {
    /// A function from the request to the response.
    Callback(C),
    /// A file to serve, by its path on disk.
    File(String),
}

/// A handler as the contracts see it: the callback, or the file's path.
pub enum HandlerView<C> {
    Callback(C),
    File(Seq<char>),
}

/// The view of a handler.
pub open spec fn handler_view<C>(h: Handler<C>) -> HandlerView<C> {
    match h {
        Handler::Callback(cb) => HandlerView::Callback(cb),
        Handler::File(f) => HandlerView::File(f@),
    }
}

/// What routing a request decided.
pub enum Routed {
    /// Answer with this response.
    Respond(Response),
    /// Answer with the file at this path; reading it is the caller's work,
    /// and `Response::file` turns how that went into the response.
    File(String),
}

/// Position of the first route whose pattern is `p`, or `routes.len()`.
pub open spec fn route_index<C>(routes: Seq<(Seq<char>, HandlerView<C>)>, p: Seq<char>) -> int
    decreases routes.len(),
{
    if routes.len() == 0 {
        0
    } else if routes[0].0 == p {
        0
    } else {
        1 + route_index(routes.drop_first(), p)
    }
}

/// `route_index` is the one position before which no route has pattern `p`
/// and at which one has, or the end.
proof fn lemma_route_index_unique<C>(routes: Seq<(Seq<char>, HandlerView<C>)>, p: Seq<char>, k: int)
    requires
        0 <= k <= routes.len(),
        k < routes.len() ==> routes[k].0 == p,
        forall|j: int| 0 <= j < k ==> routes[j].0 != p,
    ensures
        route_index(routes, p) == k,
    decreases routes.len(),
{
    if routes.len() > 0 && routes[0].0 != p {
        lemma_route_index_unique(routes.drop_first(), p, k - 1);
    }
}

/// `route_index` lies within the table or just past it.
proof fn lemma_route_index_bounds<C>(routes: Seq<(Seq<char>, HandlerView<C>)>, p: Seq<char>)
    ensures
        0 <= route_index(routes, p) <= routes.len(),
    decreases routes.len(),
{
    if routes.len() > 0 && routes[0].0 != p {
        lemma_route_index_bounds(routes.drop_first(), p);
    }
}

/// `routes` with the route of `p` set to `h`: an existing route keeps its
/// place, a new one goes at the end.
pub open spec fn route_inserted<C>(
    routes: Seq<(Seq<char>, HandlerView<C>)>,
    p: Seq<char>,
    h: HandlerView<C>,
) -> Seq<(Seq<char>, HandlerView<C>)> {
    let i = route_index(routes, p);
    if i < routes.len() {
        routes.update(i, (p, h))
    } else {
        routes.push((p, h))
    }
}

/// Inserting a handler that accepts every request keeps every callback of
/// the table total.
proof fn lemma_inserted_total<C: Fn(&Request) -> Response>(
    routes: Seq<(Seq<char>, HandlerView<C>)>,
    p: Seq<char>,
    h: HandlerView<C>,
)
    requires
        callbacks_total(routes),
        h is Callback ==> forall|q: &Request| call_requires(h->Callback_0, (q,)),
    ensures
        callbacks_total(route_inserted(routes, p, h)),
{
    let r2 = route_inserted(routes, p, h);
    lemma_route_index_bounds(routes, p);
    let k = route_index(routes, p);
    assert forall|i: int, q: &Request|
        0 <= i < r2.len() && r2[i].1 is Callback implies #[trigger] call_requires(
            r2[i].1->Callback_0,
            (q,),
        ) by {
        if i == k || i == routes.len() {
            assert(r2[i].1 == h);
        } else {
            assert(r2[i] == routes[i]);
        }
    }
}

/// A table from exact paths to handlers.
pub struct Router<C> {
    routes: Vec<(String, Handler<C>)>,
}

impl<C> View for Router<C> {
    type V = Seq<(Seq<char>, HandlerView<C>)>;

    closed spec fn view(&self) -> Seq<(Seq<char>, HandlerView<C>)> {
        self.routes@.map_values(|r: (String, Handler<C>)| (r.0@, handler_view(r.1)))
    }
}

/// Every callback of `routes` accepts every request.
pub open spec fn callbacks_total<C: Fn(&Request) -> Response>(
    routes: Seq<(Seq<char>, HandlerView<C>)>,
) -> bool {
    forall|i: int, q: &Request|
        0 <= i < routes.len() && routes[i].1 is Callback ==> #[trigger] call_requires(
            routes[i].1->Callback_0,
            (q,),
        )
}

impl<C: Fn(&Request) -> Response> Router<C> {
    /// A router with no routes.
    pub fn new() -> (r: Router<C>)
        ensures
            r@ == Seq::<(Seq<char>, HandlerView<C>)>::empty(),
    {
        let r = Router { routes: Vec::new() };
        assert(r@ =~= Seq::<(Seq<char>, HandlerView<C>)>::empty());
        r
    }

    /// Position of the route of `pattern`, or the number of routes.
    fn position(&self, pattern: &str) -> (r: usize)
        ensures
            r == route_index(self@, pattern@),
    {
        let mut i: usize = 0;
        while i < self.routes.len() && !str_eq(self.routes[i].0.as_str(), pattern)
            invariant
                0 <= i <= self@.len(),
                self@.len() == self.routes@.len(),
                forall|j: int| 0 <= j < i ==> self@[j].0 != pattern@,
            decreases self@.len() - i,
        {
            i = i + 1;
        }
        proof {
            lemma_route_index_unique(self@, pattern@, i as int);
        }
        i
    }

    fn insert(&mut self, pattern: &str, h: Handler<C>)
        ensures
            final(self)@ == route_inserted(old(self)@, pattern@, handler_view(h)),
    {
        let i = self.position(pattern);
        let ghost routes = self@;
        let ghost h0 = h;
        let p = String::from_str(pattern);
        if i < self.routes.len() {
            self.routes.set(i, (p, h));
        } else {
            self.routes.push((p, h));
        }
        assert(self@ =~= route_inserted(routes, pattern@, handler_view(h0)));
    }

    /// Routes `pattern` to the callback `cb`, in place of any handler it had.
    pub fn insert_callback(&mut self, pattern: &str, cb: C)
        requires
            forall|q: &Request| call_requires(cb, (q,)),
        ensures
            final(self)@ == route_inserted(old(self)@, pattern@, HandlerView::Callback(cb)),
            callbacks_total(old(self)@) ==> callbacks_total(final(self)@),
    {
        proof {
            if callbacks_total(old(self)@) {
                lemma_inserted_total(old(self)@, pattern@, HandlerView::Callback(cb));
            }
        }
        self.insert(pattern, Handler::Callback(cb));
    }

    /// Routes `pattern` to the file at `fname`, in place of any handler it had.
    pub fn insert_file(&mut self, pattern: &str, fname: &str)
        ensures
            final(self)@ == route_inserted(old(self)@, pattern@, HandlerView::<C>::File(fname@)),
            callbacks_total(old(self)@) ==> callbacks_total(final(self)@),
    {
        proof {
            if callbacks_total(old(self)@) {
                lemma_inserted_total(old(self)@, pattern@, HandlerView::<C>::File(fname@));
            }
        }
        let f = String::from_str(fname);
        self.insert(pattern, Handler::File(f));
    }

    /// Decides how to answer `req` by the main part of its path alone: with
    /// the not-found response when no route matches, with what the route's
    /// callback returns for `req`, or with the route's file.
    pub fn handle_request(&self, req: &Request) -> (r: Routed)
        requires
            callbacks_total(self@),
        ensures
            ({
                let i = route_index(self@, req.path.data@);
                &&& i >= self@.len() ==> (r matches Routed::Respond(res) && res.status
                    == StatusCode::NOTFOUND && res.headers@ == text_plain() && res.body@
                    == encode_utf8(NOT_FOUND_BODY@))
                &&& i < self@.len() ==> match self@[i].1 {
                    HandlerView::Callback(cb) => (r matches Routed::Respond(res) && call_ensures(
                        cb,
                        (req,),
                        res,
                    )),
                    HandlerView::File(f) => (r matches Routed::File(g) && g@ == f),
                }
            }),
    {
        let i = self.position(req.path.data.as_str());
        if i >= self.routes.len() {
            return Routed::Respond(Response::not_found());
        }
        match &self.routes[i].1 {
            Handler::Callback(cb) => {
                proof {
                    assert(self@[i as int].1 is Callback);
                    assert(self@[i as int].1->Callback_0 == *cb);
                    assert(call_requires(self@[i as int].1->Callback_0, (req,)));
                }
                Routed::Respond(cb(req))
            },
            Handler::File(fname) => Routed::File(fname.clone()),
        }
    }
}

} // verus!
