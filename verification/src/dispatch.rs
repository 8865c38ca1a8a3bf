//! What to do with a request: hand it to the handler of the route that
//! matches it, or pass it on.

use crate::model::{tree_lookup, Bindings};
use crate::params::Params;
use crate::router::{tree_of, Router};
use crate::text::lowered;
use crate::verb::Verb;
use vstd::prelude::*;

verus! {

/// The state of a request, which can take up the parameters that a route
/// captured.
pub trait AsParams {
    /// The state with `params` taken up.
    fn with_params(self, params: Params) -> Self where Self: Sized;

    /// The parameters that the state has taken up.
    fn params(&self) -> Option<&Params>;
}

/// What to do with a request.
pub enum Dispatch<'a, T, S> {
    /// Call the handler, with the state that has taken up the parameters.
    Handle(&'a T, S),
    /// No route matches: pass the request on, with the state as it was.
    Next(S),
}

/// Whether `taken` is what `state` became when it took up, through
/// `with_params`, parameters that bind what `bindings` binds.
pub open spec fn took_up<S: AsParams>(state: S, bindings: Bindings, taken: S) -> bool {
    exists|params: Params|
        params@ == bindings && #[trigger] call_ensures(S::with_params, (state, params), taken)
}

impl<T> Router<T> {
    /// Decides what to do with the request for `path` by `verb`. Where a
    /// route matches, the state takes up the parameters that the route
    /// captured, and the route's handler is to be called with it. Where none
    /// does, the request is to be passed on with the state as it was.
    pub fn dispatch<'a, S: AsParams>(&'a self, verb: &Verb, path: &str, state: S) -> (action:
        Dispatch<'a, T, S>)
        ensures
            match tree_lookup(tree_of(self@, *verb), lowered(path@), path@) {
                Some((value, bindings)) => action matches Dispatch::Handle(handler, taken)
                    && *handler == value && took_up(state, bindings, taken),
                None => action == Dispatch::<'a, T, S>::Next(state),
            },
    {
        match self.resolve(verb, path) {
            Some((handler, params)) => {
                let taken = state.with_params(params);
                Dispatch::Handle(handler, taken)
            },
            None => Dispatch::Next(state),
        }
    }
}

} // verus!
