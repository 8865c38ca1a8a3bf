//! The route table: one routing tree per request verb.

use crate::verb::Verb;
use crate::model::{tree_accepts, tree_insert, tree_lookup, NodeView};
use crate::params::Params;
use crate::text::lowered;
use crate::tree::{found_is, RouteError, Tree};
use vstd::prelude::*;

verus! {

/// The routes of an application, by request verb.
#[derive(Debug)]
pub struct Router<T> {
    routes: Vec<(Verb, Tree<T>)>,
}

/// Whether `routes` holds the tree of `verb` at position `i`.
pub open spec fn tree_at<T>(routes: Seq<(Verb, Tree<T>)>, verb: Verb, i: int) -> bool {
    0 <= i < routes.len() && routes[i].0 == verb
}

/// No verb has two trees in `routes`.
pub open spec fn distinct_verbs<T>(routes: Seq<(Verb, Tree<T>)>) -> bool {
    forall|i: int, j: int|
        0 <= i < j < routes.len() ==> (#[trigger] routes[i]).0 != (#[trigger] routes[j]).0
}

/// The tree that `table` holds for `verb`: the empty tree where it holds
/// none.
pub open spec fn tree_of<T>(table: Map<Verb, Option<NodeView<T>>>, verb: Verb) -> Option<
    NodeView<T>,
> {
    if table.contains_key(verb) {
        table[verb]
    } else {
        None
    }
}

impl<T> View for Router<T> {
    type V = Map<Verb, Option<NodeView<T>>>;

    closed spec fn view(&self) -> Map<Verb, Option<NodeView<T>>> {
        Map::new(
            |verb: Verb| exists|i: int| tree_at(self.routes@, verb, i),
            |verb: Verb| self.routes@[choose|i: int| tree_at(self.routes@, verb, i)].1@,
        )
    }
}

impl<T> Router<T> {
    #[verifier::type_invariant]
    spec fn distinct(&self) -> bool {
        distinct_verbs(self.routes@)
    }

    /// The table with an empty tree for `GET` and one for `POST`.
    pub fn new() -> (router: Self)
        ensures
            router@ == Map::<Verb, Option<NodeView<T>>>::empty().insert(Verb::Get, None).insert(
                Verb::Post,
                None,
            ),
    {
        let mut routes: Vec<(Verb, Tree<T>)> = Vec::new();
        routes.push((Verb::Get, Tree::new()));
        routes.push((Verb::Post, Tree::new()));
        let router = Router { routes };
        proof {
            assert(tree_at(router.routes@, Verb::Get, 0));
            assert(tree_at(router.routes@, Verb::Post, 1));
        }
        router
    }

    /// The position of the tree of `verb`.
    fn position(&self, verb: Verb) -> (found: Option<usize>)
        ensures
            match found {
                Some(i) => tree_at(self.routes@, verb, i as int) && self@.contains_key(verb)
                    && self@[verb] == self.routes@[i as int].1@,
                None => !self@.contains_key(verb),
            },
    {
        proof {
            use_type_invariant(self);
        }
        let mut i: usize = 0;
        while i < self.routes.len()
            invariant
                0 <= i <= self.routes@.len(),
                distinct_verbs(self.routes@),
                forall|j: int| 0 <= j < i ==> !tree_at(self.routes@, verb, j),
            decreases self.routes@.len() - i,
        {
            if self.routes[i].0 == verb {
                proof {
                    let j = choose|j: int| tree_at(self.routes@, verb, j);
                }
                return Some(i);
            }
            i += 1;
        }
        None
    }

    /// Whether `path` can be registered for `verb`: it names each
    /// parameter as the routes registered before it do.
    pub fn accepts(&self, verb: Verb, path: &str) -> (accepted: bool)
        ensures
            accepted == tree_accepts(tree_of(self@, verb), path@),
    {
        match self.position(verb) {
            Some(i) => self.routes[i].1.accepts(path),
            None => true,
        }
    }

    /// Registers `path` with `handler` for `verb`.
    pub fn route(&mut self, verb: Verb, path: &str, handler: T)
        requires
            tree_accepts(tree_of(old(self)@, verb), path@),
        ensures
            final(self)@ == old(self)@.insert(
                verb,
                tree_insert(tree_of(old(self)@, verb), path@, handler),
            ),
    {
        proof {
            use_type_invariant(&*self);
        }
        let ghost before = self.routes@;
        let found = self.position(verb);
        let mut routes: Vec<(Verb, Tree<T>)> = Vec::new();
        std::mem::swap(&mut routes, &mut self.routes);
        let at = match found {
            Some(i) => i,
            None => {
                routes.push((verb, Tree::new()));
                routes.len() - 1
            },
        };
        routes[at].1.add_path(path, handler);
        proof {
            let after = routes@;
            assert forall|i: int, j: int| 0 <= i < j < after.len() implies (#[trigger] after[i]).0
                != (#[trigger] after[j]).0 by {
                if found is None && j == before.len() {
                    assert(!tree_at(before, verb, i));
                }
            }
        }
        self.routes = routes;
        proof {
            let after = self.routes@;
            let expected = old(self)@.insert(
                verb,
                tree_insert(tree_of(old(self)@, verb), path@, handler),
            );
            assert forall|m: Verb| #[trigger] self@.contains_key(m) <==> expected.contains_key(
                m,
            ) by {
                if self@.contains_key(m) {
                    let i = choose|i: int| tree_at(after, m, i);
                    if m != verb {
                        assert(tree_at(before, m, i));
                    }
                }
                if expected.contains_key(m) {
                    if m == verb {
                        assert(tree_at(after, m, at as int));
                    } else {
                        let i = choose|i: int| tree_at(before, m, i);
                        assert(tree_at(after, m, i));
                    }
                }
            }
        }
    }

    /// Registers `path` with `handler` for `verb` unless it names a
    /// parameter otherwise than the routes registered before it do; the
    /// table is then left as it was.
    pub fn try_route(&mut self, verb: Verb, path: &str, handler: T) -> (result: Result<
        (),
        RouteError,
    >)
        ensures
            match result {
                Ok(_) => tree_accepts(tree_of(old(self)@, verb), path@) && final(self)@ == old(
                    self,
                )@.insert(verb, tree_insert(tree_of(old(self)@, verb), path@, handler)),
                Err(error) => !tree_accepts(tree_of(old(self)@, verb), path@) && final(self)@
                    == old(self)@ && error == RouteError::ParamNameConflict,
            },
    {
        if self.accepts(verb, path) {
            self.route(verb, path, handler);
            Ok(())
        } else {
            Err(RouteError::ParamNameConflict)
        }
    }

    /// Registers `path` with `handler` for `OPTIONS`.
    pub fn options(&mut self, path: &str, handler: T)
        requires
            tree_accepts(tree_of(old(self)@, Verb::Options), path@),
        ensures
            final(self)@ == old(self)@.insert(
                Verb::Options,
                tree_insert(tree_of(old(self)@, Verb::Options), path@, handler),
            ),
    {
        self.route(Verb::Options, path, handler);
    }

    /// Registers `path` with `handler` for `GET`.
    pub fn get(&mut self, path: &str, handler: T)
        requires
            tree_accepts(tree_of(old(self)@, Verb::Get), path@),
        ensures
            final(self)@ == old(self)@.insert(
                Verb::Get,
                tree_insert(tree_of(old(self)@, Verb::Get), path@, handler),
            ),
    {
        self.route(Verb::Get, path, handler);
    }

    /// Registers `path` with `handler` for `POST`.
    pub fn post(&mut self, path: &str, handler: T)
        requires
            tree_accepts(tree_of(old(self)@, Verb::Post), path@),
        ensures
            final(self)@ == old(self)@.insert(
                Verb::Post,
                tree_insert(tree_of(old(self)@, Verb::Post), path@, handler),
            ),
    {
        self.route(Verb::Post, path, handler);
    }

    /// Registers `path` with `handler` for `PUT`.
    pub fn put(&mut self, path: &str, handler: T)
        requires
            tree_accepts(tree_of(old(self)@, Verb::Put), path@),
        ensures
            final(self)@ == old(self)@.insert(
                Verb::Put,
                tree_insert(tree_of(old(self)@, Verb::Put), path@, handler),
            ),
    {
        self.route(Verb::Put, path, handler);
    }

    /// Registers `path` with `handler` for `DELETE`.
    pub fn delete(&mut self, path: &str, handler: T)
        requires
            tree_accepts(tree_of(old(self)@, Verb::Delete), path@),
        ensures
            final(self)@ == old(self)@.insert(
                Verb::Delete,
                tree_insert(tree_of(old(self)@, Verb::Delete), path@, handler),
            ),
    {
        self.route(Verb::Delete, path, handler);
    }

    /// Registers `path` with `handler` for `HEAD`.
    pub fn head(&mut self, path: &str, handler: T)
        requires
            tree_accepts(tree_of(old(self)@, Verb::Head), path@),
        ensures
            final(self)@ == old(self)@.insert(
                Verb::Head,
                tree_insert(tree_of(old(self)@, Verb::Head), path@, handler),
            ),
    {
        self.route(Verb::Head, path, handler);
    }

    /// Registers `path` with `handler` for `PATCH`.
    pub fn patch(&mut self, path: &str, handler: T)
        requires
            tree_accepts(tree_of(old(self)@, Verb::Patch), path@),
        ensures
            final(self)@ == old(self)@.insert(
                Verb::Patch,
                tree_insert(tree_of(old(self)@, Verb::Patch), path@, handler),
            ),
    {
        self.route(Verb::Patch, path, handler);
    }

    /// Looks up the route of `verb` that matches `path`: its handler and
    /// the parameters that it captured. The lower-case form of `path` is
    /// compared with the literal text of the routes; parameters are captured
    /// from `path` as it stands.
    pub fn resolve(&self, verb: &Verb, path: &str) -> (found: Option<(&T, Params)>)
        ensures
            found_is(found, tree_lookup(tree_of(self@, *verb), lowered(path@), path@)),
    {
        match self.position(*verb) {
            Some(i) => self.routes[i].1.find_ignoring_case(path),
            None => None,
        }
    }
}

} // verus!
