//! The route table and the connection handler's decisions. Routes are
//! registered once, before the server listens, and are read-only afterwards.
//! A request path resolves to the registered pattern that glob-matches it and
//! is lexicographically greatest among the matches. The library never calls a
//! handler: `H` is whatever the embedding code dispatches on.

use crate::glob::glob;
use crate::glob::glob_match;
use crate::response::HttpResponse;
use crate::text::chars_of;
use crate::text::is_space;
use crate::text::is_space_char;
use crate::text::lemma_lex_le_total;
use crate::text::lemma_lex_le_trans;
use crate::text::lex_le;
use crate::text::str_eq;
use crate::text::str_lex_le;
use vstd::prelude::*;

verus! {

/// A server: the route table, mapping patterns to handlers.
pub struct HttpServer<H> {
    routes: Vec<(String, H)>,
}

impl<H> Default for HttpServer<H> {
    /// A server with no routes.
    fn default() -> (r: HttpServer<H>)
        ensures
            r.patterns().len() == 0,
            r.handlers().len() == 0,
    {
        HttpServer { routes: Vec::new() }
    }
}

/// A pattern fit for registration: it starts with a slash and holds no
/// whitespace.
pub open spec fn spec_valid_route(route: Seq<char>) -> bool {
    route.len() > 0 && route[0] == '/' && (forall|t: int|
        0 <= t < route.len() ==> !is_space_char(route[t]))
}

impl<H> HttpServer<H> {
    /// The registered patterns, in registration order.
    pub closed spec fn patterns(&self) -> Seq<Seq<char>> {
        Seq::new(self.routes@.len(), |i: int| self.routes@[i].0@)
    }

    /// The registered handlers, in registration order.
    pub closed spec fn handlers(&self) -> Seq<H> {
        Seq::new(self.routes@.len(), |i: int| self.routes@[i].1)
    }

    /// Whether `route` may be registered: it must start with a slash, hold no
    /// whitespace, and not equal an already registered pattern.
    pub fn verify_route(&self, route: &str) -> (r: bool)
        ensures
            r == (spec_valid_route(route@) && !self.patterns().contains(route@)),
    {
        let rc = chars_of(route);
        let n = rc.len();
        if n == 0 || rc[0] != '/' {
            return false;
        }
        let mut i: usize = 0;
        while i < n
            invariant
                i <= n,
                n == rc@.len(),
                rc@ == route@,
                forall|t: int| 0 <= t < i ==> !is_space_char(route@[t]),
            decreases n - i,
        {
            if is_space(rc[i]) {
                return false;
            }
            i = i + 1;
        }
        let m = self.routes.len();
        let mut j: usize = 0;
        while j < m
            invariant
                j <= m,
                m == self.routes@.len(),
                forall|t: int| 0 <= t < j ==> self.patterns()[t] != route@,
            decreases m - j,
        {
            if str_eq(self.routes[j].0.as_str(), route) {
                proof {
                    assert(self.patterns()[j as int] == route@);
                }
                return false;
            }
            proof {
                assert(self.patterns()[j as int] == self.routes@[j as int].0@);
            }
            j = j + 1;
        }
        proof {
            assert(!self.patterns().contains(route@)) by {
                if self.patterns().contains(route@) {
                    let w = choose|w: int|
                        0 <= w < self.patterns().len() && self.patterns()[w] == route@;
                    assert(self.patterns()[w] != route@);
                }
            }
        }
        true
    }

    /// Registers a route. The pattern must be valid and not yet registered —
    /// registering an invalid or duplicate pattern is a configuration error,
    /// to be caught with [`Self::verify_route`] before the call.
    pub fn register_route(&mut self, route: &str, handler: H)
        requires
            spec_valid_route(route@),
            !old(self).patterns().contains(route@),
        ensures
            final(self).patterns() == old(self).patterns().push(route@),
            final(self).handlers() == old(self).handlers().push(handler),
    {
        self.routes.push((route.to_owned(), handler));
        proof {
            assert(self.patterns() =~= old(self).patterns().push(route@));
            assert(self.handlers() =~= old(self).handlers().push(handler));
        }
    }

    /// Resolves a request path: the index of the registered pattern that
    /// glob-matches `uri` and is lexicographically greatest among the
    /// matches, or `None` when no pattern matches.
    pub fn resolve(&self, uri: &str) -> (r: Option<usize>)
        ensures
            match r {
                None => forall|t: int|
                    0 <= t < self.patterns().len() ==> !glob_match(
                        #[trigger] self.patterns()[t],
                        uri@,
                    ),
                Some(i) => 0 <= i < self.patterns().len() && glob_match(
                    self.patterns()[i as int],
                    uri@,
                ) && forall|t: int|
                    0 <= t < self.patterns().len() && glob_match(
                        #[trigger] self.patterns()[t],
                        uri@,
                    ) ==> lex_le(self.patterns()[t], self.patterns()[i as int]),
            },
    {
        let m = self.routes.len();
        let mut best: Option<usize> = None;
        let mut j: usize = 0;
        while j < m
            invariant
                j <= m,
                m == self.routes@.len(),
                match best {
                    None => forall|t: int|
                        0 <= t < j ==> !glob_match(#[trigger] self.patterns()[t], uri@),
                    Some(b) => b < j && glob_match(self.patterns()[b as int], uri@) && forall|
                        t: int,
                    |
                        0 <= t < j && glob_match(#[trigger] self.patterns()[t], uri@) ==> lex_le(
                            self.patterns()[t],
                            self.patterns()[b as int],
                        ),
                },
            decreases m - j,
        {
            proof {
                assert(self.patterns()[j as int] == self.routes@[j as int].0@);
            }
            if glob(self.routes[j].0.as_str(), uri) {
                match best {
                    None => {
                        proof {
                            lemma_lex_le_total(self.patterns()[j as int], self.patterns()[j as int]);
                        }
                        best = Some(j);
                    },
                    Some(b) => {
                        if str_lex_le(self.routes[b].0.as_str(), self.routes[j].0.as_str()) {
                            proof {
                                lemma_lex_le_total(
                                    self.patterns()[j as int],
                                    self.patterns()[j as int],
                                );
                                assert forall|t: int|
                                    0 <= t < j + 1 && glob_match(
                                        #[trigger] self.patterns()[t],
                                        uri@,
                                    ) implies lex_le(
                                    self.patterns()[t],
                                    self.patterns()[j as int],
                                ) by {
                                    if t < j {
                                        lemma_lex_le_trans(
                                            self.patterns()[t],
                                            self.patterns()[b as int],
                                            self.patterns()[j as int],
                                        );
                                    }
                                }
                            }
                            best = Some(j);
                        } else {
                            proof {
                                lemma_lex_le_total(
                                    self.patterns()[b as int],
                                    self.patterns()[j as int],
                                );
                            }
                        }
                    },
                }
            }
            j = j + 1;
        }
        best
    }

    /// The handler registered at `i`, as [`Self::resolve`] counts them.
    pub fn handler(&self, i: usize) -> (h: &H)
        requires
            i < self.handlers().len(),
        ensures
            *h == self.handlers()[i as int],
    {
        &self.routes[i].1
    }
}

/// What one connection's dispatch came to: no route matched the path, the
/// matched handler ended abnormally, or the handler returned a response.
pub enum DispatchOutcome {
    NoRoute,
    HandlerFault,
    Handled(HttpResponse),
}

/// The connection handler's response policy: a resolution miss answers 404
/// with an empty body, a handler fault answers 500 with an empty body, and a
/// handler's own response passes through unchanged.
pub fn dispatch_response(outcome: DispatchOutcome) -> (r: HttpResponse)
    ensures
        match outcome {
            DispatchOutcome::NoRoute => r.status_code == 404 && r.body@.len() == 0
                && r.headers@.len() == 0 && r.content_type@.len() == 0,
            DispatchOutcome::HandlerFault => r.status_code == 500 && r.body@.len() == 0
                && r.headers@.len() == 0 && r.content_type@.len() == 0,
            DispatchOutcome::Handled(h) => r == h,
        },
{
    match outcome {
        DispatchOutcome::NoRoute => HttpResponse::with_status(404),
        DispatchOutcome::HandlerFault => HttpResponse::with_status(500),
        DispatchOutcome::Handled(h) => h,
    }
}

} // verus!
