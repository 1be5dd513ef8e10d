//! The registration facade of an application.

use vstd::prelude::*;
use std::rc::Rc;
use crate::request::{Method, Request};
use crate::response::Response;
use crate::router::tree::pattern::route;
use crate::router::{
    dispatched, Failure, Handle, HandleType, Handler, HandlerFn, HookType, Router,
};

verus! {

pub struct App<F> {
    router: Router<F>,
}

/// Whether `handler` registers `function` for `method` and the pattern
/// `path` in the phase `hook`.
pub open spec fn registers<F>(
    handler: Handler<F>,
    method: Method,
    path: Seq<char>,
    function: Rc<F>,
    hook: HookType,
) -> bool {
    &&& handler.method == method
    &&& handler.path@ == path
    &&& handler.function == function
    &&& handler.hook_type == hook
}

/// Whether `after` is `before` with the registrations that `handle` stands
/// for added at its end: one in the phase that the handle names, or, for a
/// middleware, one `Before` and one `After` that share the function.
pub open spec fn extended<F>(
    before: Seq<Handler<F>>,
    after: Seq<Handler<F>>,
    method: Method,
    path: Seq<char>,
    handle: Handle<F>,
) -> bool {
    match handle.0 {
        HandleType::Main => after.len() == before.len() + 1 && after.drop_last() == before
            && registers(after.last(), method, path, handle.1, HookType::Main),
        HandleType::Before => after.len() == before.len() + 1 && after.drop_last() == before
            && registers(after.last(), method, path, handle.1, HookType::Before),
        HandleType::After => after.len() == before.len() + 1 && after.drop_last() == before
            && registers(after.last(), method, path, handle.1, HookType::After),
        HandleType::Middleware => {
            &&& after.len() == before.len() + 2
            &&& after.take(before.len() as int) == before
            &&& registers(after[before.len() as int], method, path, handle.1, HookType::Before)
            &&& registers(after[before.len() as int + 1], method, path, handle.1, HookType::After)
        },
    }
}

/// The number of registrations that `handle` stands for: two for a
/// middleware, one for any other.
pub open spec fn takes<F>(handle: Handle<F>) -> int {
    if handle.0 == HandleType::Middleware {
        2
    } else {
        1
    }
}

impl<F> View for App<F> {
    type V = Seq<Handler<F>>;

    /// The registrations, in the order in which they were made.
    closed spec fn view(&self) -> Seq<Handler<F>> {
        self.router@
    }
}

impl<F> App<F> {
    pub closed spec fn wf(&self) -> bool {
        self.router.wf()
    }

    /// The number of registrations that the application can still take. A
    /// middleware takes two.
    pub closed spec fn room(&self) -> int {
        self.router.room()
    }

    pub fn new() -> (app: App<F>)
        ensures
            app.wf(),
            app@ == Seq::<Handler<F>>::empty(),
            app.room() == u32::MAX,
    {
        App { router: Router::new() }
    }

    /// Registers `handle` for every method.
    pub fn all(&mut self, path: &str, handle: Handle<F>) -> (app: &Self)
        requires
            old(self).wf(),
            old(self).room() >= takes(handle),
        ensures
            final(self).wf(),
            extended(old(self)@, final(self)@, Method::All, path@, handle),
            final(self).room() == old(self).room() - takes(handle),
            *app == *final(self),
    {
        self.register_handle(Method::All, path, handle)
    }

    /// Registers `handle` for `GET` requests.
    pub fn get(&mut self, path: &str, handle: Handle<F>) -> (app: &Self)
        requires
            old(self).wf(),
            old(self).room() >= takes(handle),
        ensures
            final(self).wf(),
            extended(old(self)@, final(self)@, Method::Get, path@, handle),
            final(self).room() == old(self).room() - takes(handle),
            *app == *final(self),
    {
        self.register_handle(Method::Get, path, handle)
    }

    /// Registers `handle` for `POST` requests.
    pub fn post(&mut self, path: &str, handle: Handle<F>) -> (app: &Self)
        requires
            old(self).wf(),
            old(self).room() >= takes(handle),
        ensures
            final(self).wf(),
            extended(old(self)@, final(self)@, Method::Post, path@, handle),
            final(self).room() == old(self).room() - takes(handle),
            *app == *final(self),
    {
        self.register_handle(Method::Post, path, handle)
    }

    fn register_handle(&mut self, method: Method, path: &str, handle: Handle<F>) -> (app: &Self)
        requires
            old(self).wf(),
            old(self).room() >= takes(handle),
        ensures
            final(self).wf(),
            extended(old(self)@, final(self)@, method, path@, handle),
            final(self).room() == old(self).room() - takes(handle),
            *app == *final(self),
    {
        let ghost before = self@;
        let (hook_type, function) = Router::handler(handle);
        let mut handler = Handler { method, path: path.to_owned(), function, hook_type: HookType::Main };
        match hook_type {
            HandleType::Main => {
                handler.hook_type = HookType::Main;
            },
            HandleType::After => {
                handler.hook_type = HookType::After;
            },
            HandleType::Before => {
                handler.hook_type = HookType::Before;
            },
            HandleType::Middleware => {
                let mut another_handler = handler.clone();
                handler.hook_type = HookType::Before;
                another_handler.hook_type = HookType::After;
                self.router.register(handler);
                self.router.register(another_handler);
                proof {
                    assert(self@.take(before.len() as int) =~= before);
                }
                return self;
            },
        }
        self.router.register(handler);
        proof {
            assert(self@.drop_last() =~= before);
        }
        self
    }
}

impl<F: HandlerFn> App<F> {
    /// Serves one request: dispatches it over the registrations, as
    /// `Router::dispatch` does.
    pub fn serve(&self, req: &Request) -> (outcome: (Response, Option<Failure>))
        requires
            self.wf(),
        ensures
            dispatched(self@, *req, outcome),
            route(self@, req.spec_location().0, req.spec_location().1@).len() == 0 ==> {
                &&& outcome.1 is None
                &&& outcome.0.untouched()
            },
    {
        self.router.dispatch(req)
    }
}

} // verus!
