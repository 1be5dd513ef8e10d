//! What a handler sees while it runs.

use vstd::prelude::*;
use crate::request::Request;
use crate::response::Response;
use super::handler::Handler;
use super::params::Params;

verus! {

pub struct Context<'a, F> {
    /// The request being served.
    pub req: &'a Request,
    /// The response under construction, shared by all handlers of one
    /// dispatch.
    pub res: &'a mut Response,
    /// The registration of the handler that is running.
    pub handler: &'a Handler<F>,
    /// What the handler's pattern captured from the request path.
    pub params: &'a Params,
}

impl<'a, F> Context<'a, F> {
    /// The context of one call: the request, the response as it stands, the
    /// registration of the handler that is called, and what its pattern
    /// captured. What the handler does to the response of the context, it
    /// does to `res`.
    pub fn new(
        req: &'a Request,
        res: &'a mut Response,
        handler: &'a Handler<F>,
        params: &'a Params,
    ) -> (ctx: Context<'a, F>)
        ensures
            *ctx.req == *req,
            *ctx.res == *old(res),
            *ctx.handler == *handler,
            *ctx.params == *params,
            *final(res) == *final(ctx.res),
    {
        Context { req, res, handler, params }
    }
}

} // verus!
