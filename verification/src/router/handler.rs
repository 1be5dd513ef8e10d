//! Handlers: what an application registers against a method and a path.

use vstd::prelude::*;
use std::rc::Rc;
use crate::request::{Method, Request};
use crate::response::Response;
use super::params::Params;
use super::context::Context;

verus! {

/// What a handler tells the dispatcher to do next.
#[derive(Debug, PartialEq, Eq, Structural, Clone, Copy)]
pub enum Return {
    /// Go on with the chain.
    Next,
    /// Stop the chain; this is no failure.
    End,
}

/// The text of a failure, as it goes into the body of the error response.
pub type Failure = String;

/// A handler function: something that can be called with a mutable context
/// and answers `Next`, `End` or a failure.
///
/// The library asks nothing of an implementation. What a call does to the
/// response and what it answers is the implementation's to decide, and to
/// state, if it wants to, as its `may`. An application that wants handlers of
/// many shapes behind one type implements this for a type of its own that
/// holds a boxed closure.
pub trait HandlerFn: Sized {
    /// Whether a call for the request `req`, on behalf of the registration
    /// `handler` with the captured `params`, may turn the response `before`
    /// into the response `after` and give `result`.
    ///
    /// An implementation that says nothing of itself may do anything.
    open spec fn may(
        &self,
        req: Request,
        handler: Handler<Self>,
        params: Params,
        before: Response,
        after: Response,
        result: Result<Return, Failure>,
    ) -> bool {
        true
    }

    /// Serves the request of the context. The response that the context
    /// holds afterwards is the response as the handler leaves it.
    fn call(&self, ctx: &mut Context<'_, Self>) -> (result: Result<Return, Failure>)
        ensures
            self.may(
                *old(ctx).req,
                *old(ctx).handler,
                *old(ctx).params,
                *old(ctx).res,
                *final(ctx).res,
                result,
            ),
    ;
}

/// The phase of the dispatch chain in which a handler runs.
#[derive(Debug, PartialEq, Eq, PartialOrd, Ord, Structural, Clone, Copy)]
pub enum HookType {
    Before,
    Main,
    After,
}

/// A registration: the function `function` serves requests of `method` whose
/// path matches the pattern `path`, in the phase `hook_type`.
#[derive(Debug)]
pub struct Handler<F> {
    pub method: Method,
    pub path: String,
    pub function: Rc<F>,
    pub hook_type: HookType,
}

pub type SharedHandler<F> = Rc<Handler<F>>;

/// `Rc::clone`: another pointer to the same allocation, so the value behind
/// the result is the value behind `rc`.
#[verifier::external_body]
pub(crate) fn share<T>(rc: &Rc<T>) -> (shared: Rc<T>)
    ensures
        shared == *rc,
{
    rc.clone()
}

impl<F> Clone for Handler<F> {
    /// A handler with the same method, path and phase that shares the
    /// function.
    fn clone(&self) -> (copy: Self)
        ensures
            copy == *self,
    {
        Handler {
            method: self.method,
            path: self.path.clone(),
            function: share(&self.function),
            hook_type: self.hook_type,
        }
    }
}

} // verus!
