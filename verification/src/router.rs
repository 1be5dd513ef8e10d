//! The router: registration, matching and dispatch.

pub mod context;
pub mod dispatch;
pub mod handler;
pub mod params;
pub mod tree;

pub use context::Context;
pub use handler::{Failure, Handler, HandlerFn, HookType, Return};

use vstd::prelude::*;
use std::rc::Rc;
use crate::request::Request;
use crate::response::Response;
use self::dispatch::{
    calls, lemma_phases_run_in_order, lemma_run_calls, stand, stand_from, upcoming, Answer, Chain,
    Stage,
};
use self::tree::order::rank;
use self::handler::SharedHandler;
use self::params::{Params, SharedParams};
use self::tree::pattern::route;
use self::tree::Tree;

verus! {

pub struct Router<F> {
    tree: Tree<F>,
}

/// The kind of a handle: a phase, or `Middleware` for a function that runs
/// both before and after.
#[derive(Debug, PartialEq, Eq, PartialOrd, Ord, Structural, Clone, Copy)]
pub enum HandleType {
    Main,
    Before,
    After,
    Middleware,
}

/// A handler function packed with the kind of hook it is meant for.
#[derive(Debug)]
pub struct Handle<F>(pub HandleType, pub Rc<F>);

impl<F> Handle<F> {
    pub fn main(handler: F) -> (handle: Handle<F>)
        ensures
            handle.0 == HandleType::Main,
            *handle.1 == handler,
    {
        Handle(HandleType::Main, Rc::new(handler))
    }

    pub fn before(handler: F) -> (handle: Handle<F>)
        ensures
            handle.0 == HandleType::Before,
            *handle.1 == handler,
    {
        Handle(HandleType::Before, Rc::new(handler))
    }

    pub fn after(handler: F) -> (handle: Handle<F>)
        ensures
            handle.0 == HandleType::After,
            *handle.1 == handler,
    {
        Handle(HandleType::After, Rc::new(handler))
    }

    pub fn middleware(handler: F) -> (handle: Handle<F>)
        ensures
            handle.0 == HandleType::Middleware,
            *handle.1 == handler,
    {
        Handle(HandleType::Middleware, Rc::new(handler))
    }
}

impl<F> View for Router<F> {
    type V = Seq<Handler<F>>;

    /// The registrations, in the order in which they were made.
    closed spec fn view(&self) -> Seq<Handler<F>> {
        self.tree@
    }
}

impl<F> Router<F> {
    pub closed spec fn wf(&self) -> bool {
        self.tree.wf()
    }

    /// The number of registrations that the router can still take.
    pub closed spec fn room(&self) -> int {
        u32::MAX - self.tree.next_order()
    }

    pub fn new() -> (router: Router<F>)
        ensures
            router.wf(),
            router@ == Seq::<Handler<F>>::empty(),
            router.room() == u32::MAX,
    {
        Router { tree: Tree::new() }
    }

    /// The kind and the function of a handle.
    pub fn handler(handle: Handle<F>) -> (parts: (HandleType, Rc<F>))
        ensures
            parts.0 == handle.0,
            parts.1 == handle.1,
    {
        (handle.0, handle.1)
    }

    pub fn register(&mut self, handler: Handler<F>) -> (router: &Self)
        requires
            old(self).wf(),
            old(self).room() > 0,
        ensures
            final(self).wf(),
            final(self)@ == old(self)@.push(handler),
            final(self).room() == old(self).room() - 1,
            *router == *final(self),
    {
        self.tree.register(handler);
        self
    }

    /// The match list of a request, as `Tree::handlers` gives it.
    pub fn matches(&self, req: &Request) -> (matches: Vec<(SharedHandler<F>, SharedParams)>)
        requires
            self.wf(),
        ensures
            matches@.len() == route(self@, req.spec_location().0, req.spec_location().1@).len(),
            forall|x: int|
                0 <= x < matches@.len() ==> *(#[trigger] matches@[x]).0 == route(
                    self@,
                    req.spec_location().0,
                    req.spec_location().1@,
                )[x].0 && matches@[x].1@ == route(
                    self@,
                    req.spec_location().0,
                    req.spec_location().1@,
                )[x].1,
    {
        let location = req.location();
        self.tree.handlers(&location.0, location.1.as_str())
    }
}

/// The answer that the chain takes from a handler's result.
pub open spec fn answer(result: Result<Return, Failure>) -> Answer {
    match result {
        Ok(Return::Next) => Answer::Next,
        Ok(Return::End) => Answer::End,
        Err(_) => Answer::Failed,
    }
}

/// The failure that a handler's result holds, if it holds one.
pub open spec fn failure(result: Result<Return, Failure>) -> Option<Failure> {
    match result {
        Ok(_) => None,
        Err(text) => Some(text),
    }
}

/// What a handler's result means to the dispatch: the answer that the
/// chain takes, and the failure to hand back if the handler failed.
pub fn answer_of(result: Result<Return, Failure>) -> (outcome: (Answer, Option<Failure>))
    ensures
        outcome == (answer(result), failure(result)),
{
    match result {
        Ok(Return::Next) => (Answer::Next, None),
        Ok(Return::End) => (Answer::End, None),
        Err(text) => (Answer::Failed, Some(text)),
    }
}

/// One call of a dispatch: the handler at place `at` of the match list was
/// called with `params`, left the response as `after`, and gave `result`.
pub struct Step {
    pub at: int,
    pub params: Params,
    pub after: Response,
    pub result: Result<Return, Failure>,
}

impl Step {
    /// The step with these parts.
    pub open spec fn of(
        at: int,
        params: &Params,
        after: Response,
        result: Result<Return, Failure>,
    ) -> Step {
        Step { at, params: *params, after, result }
    }
}

/// The phases of the handlers of a match list.
pub open spec fn phases<F>(list: Seq<(Handler<F>, Map<Seq<char>, Seq<char>>)>) -> Seq<HookType> {
    Seq::new(list.len(), |i: int| list[i].0.hook_type)
}

/// The answers that the chain took in the course of `steps`.
pub open spec fn heard(steps: Seq<Step>) -> Seq<Answer> {
    Seq::new(steps.len(), |k: int| answer(steps[k].result))
}

/// The response that the dispatch holds after `steps`: the fresh one where
/// no handler was called, and the one that the last handler left otherwise.
pub open spec fn left_by(fresh: Response, steps: Seq<Step>) -> Response {
    if steps.len() == 0 {
        fresh
    } else {
        steps.last().after
    }
}

/// Whether `steps[k]` is a call that the dispatch of `req` over the match
/// list `list` makes after the calls before it: the handler is the one that
/// the chain names when it has heard the answers so far, it is called with
/// what its pattern captured and finds the response as the call before left
/// it, and the call is one that the handler may make.
pub open spec fn step_follows<F: HandlerFn>(
    list: Seq<(Handler<F>, Map<Seq<char>, Seq<char>>)>,
    req: Request,
    fresh: Response,
    steps: Seq<Step>,
    k: int,
) -> bool {
    let step = steps[k];
    let (stage, cursor) = stand(phases(list), heard(steps).take(k));
    &&& upcoming(phases(list), stage, cursor) == Some(step.at)
    &&& 0 <= step.at < list.len()
    &&& step.params@ == list[step.at].1
    &&& list[step.at].0.function.may(
        req,
        list[step.at].0,
        step.params,
        left_by(fresh, steps.take(k)),
        step.after,
        step.result,
    )
}

/// Whether `steps` are the calls of a whole dispatch of `req` over the match
/// list `list` that starts with the response `fresh`: each call follows the
/// calls before it, and after the last the chain names no handler.
pub open spec fn follows<F: HandlerFn>(
    list: Seq<(Handler<F>, Map<Seq<char>, Seq<char>>)>,
    req: Request,
    fresh: Response,
    steps: Seq<Step>,
) -> bool {
    &&& fresh.untouched()
    &&& forall|k: int| 0 <= k < steps.len() ==> #[trigger] step_follows(list, req, fresh, steps, k)
    &&& upcoming(
        phases(list),
        stand(phases(list), heard(steps)).0,
        stand(phases(list), heard(steps)).1,
    ) is None
}

/// Whether `outcome` is what a dispatch of `req` over the registrations
/// `registered` may end in: there is a run of calls over the match list of
/// the request, from a fresh response on, from which the response comes back
/// as the last call left it, with the failure of the last call if it
/// failed.
pub open spec fn dispatched<F: HandlerFn>(
    registered: Seq<Handler<F>>,
    req: Request,
    outcome: (Response, Option<Failure>),
) -> bool {
    exists|fresh: Response, steps: Seq<Step>|
        {
            &&& #[trigger] follows(
                route(registered, req.spec_location().0, req.spec_location().1@),
                req,
                fresh,
                steps,
            )
            &&& outcome.0 == left_by(fresh, steps)
            &&& outcome.1 == if steps.len() == 0 {
                None
            } else {
                failure(steps.last().result)
            }
        }
}

/// A dispatch over an empty match list calls nothing: the response comes
/// back fresh, and there is no failure.
pub proof fn lemma_nothing_dispatched<F: HandlerFn>(
    registered: Seq<Handler<F>>,
    req: Request,
    outcome: (Response, Option<Failure>),
)
    requires
        dispatched(registered, req, outcome),
        route(registered, req.spec_location().0, req.spec_location().1@).len() == 0,
    ensures
        outcome.0.untouched(),
        outcome.1 is None,
{
    let list = route(registered, req.spec_location().0, req.spec_location().1@);
    let (fresh, steps) = choose|fresh: Response, steps: Seq<Step>|
        {
            &&& #[trigger] follows(list, req, fresh, steps)
            &&& outcome.0 == left_by(fresh, steps)
            &&& outcome.1 == if steps.len() == 0 {
                None
            } else {
                failure(steps.last().result)
            }
        };
    if steps.len() > 0 {
        assert(step_follows(list, req, fresh, steps, 0));
    }
}

/// In a dispatch, no handler is called after one of a later phase, and no
/// `Main` handler after another `Main` handler: every `Before` handler that
/// runs precedes the one `Main` handler that runs, which precedes every
/// `After` handler that runs.
pub proof fn lemma_dispatch_in_phase_order<F: HandlerFn>(
    list: Seq<(Handler<F>, Map<Seq<char>, Seq<char>>)>,
    req: Request,
    fresh: Response,
    steps: Seq<Step>,
    k: int,
    m: int,
)
    requires
        follows(list, req, fresh, steps),
        0 <= k < m < steps.len(),
    ensures
        0 <= steps[k].at < list.len(),
        0 <= steps[m].at < list.len(),
        rank(list[steps[k].at].0.hook_type) <= rank(list[steps[m].at].0.hook_type),
        !(list[steps[k].at].0.hook_type == HookType::Main && list[steps[m].at].0.hook_type
            == HookType::Main),
{
    let hooks = phases(list);
    let called = Seq::new(steps.len(), |i: int| steps[i].at);
    assert forall|i: int| 0 <= i < called.len() implies upcoming(
        hooks,
        stand_from(hooks, Stage::Pre, 0, heard(steps).take(i)).0,
        stand_from(hooks, Stage::Pre, 0, heard(steps).take(i)).1,
    ) == Some(#[trigger] called[i]) by {
        assert(step_follows(list, req, fresh, steps, i));
    }
    lemma_run_calls(hooks, Stage::Pre, 0, heard(steps), called);
    lemma_phases_run_in_order(hooks, Stage::Pre, 0, heard(steps));
    assert(step_follows(list, req, fresh, steps, k));
    assert(step_follows(list, req, fresh, steps, m));
    let all = calls(hooks, Stage::Pre, 0, heard(steps));
    assert(all[k] == steps[k].at);
    assert(all[m] == steps[m].at);
}

impl<F: HandlerFn> Router<F> {
    /// Serves `req`: builds a fresh response, calls the matching handlers
    /// as the dispatch chain orders them, each with the response as the
    /// handler before it left it, and hands back the response as the last
    /// handler left it, with the failure that ended the dispatch if one did.
    ///
    /// What a handler does to the response is its own to decide. Where no
    /// registration serves the request, no handler is called, and the
    /// response comes back as it was made.
    pub fn dispatch(&self, req: &Request) -> (outcome: (Response, Option<Failure>))
        requires
            self.wf(),
        ensures
            dispatched(self@, *req, outcome),
            route(self@, req.spec_location().0, req.spec_location().1@).len() == 0 ==> {
                &&& outcome.1 is None
                &&& outcome.0.untouched()
            },
    {
        let ghost list = route(self@, req.spec_location().0, req.spec_location().1@);
        let mut response = Response::new();
        let ghost fresh = response;
        let matches = self.matches(req);
        let mut hooks: Vec<HookType> = Vec::new();
        let mut i: usize = 0;
        while i < matches.len()
            invariant
                i <= matches@.len(),
                hooks@.len() == i,
                forall|j: int| 0 <= j < i ==> hooks@[j] == (#[trigger] matches@[j]).0.hook_type,
            decreases matches@.len() - i,
        {
            hooks.push(matches[i].0.hook_type);
            i = i + 1;
        }
        proof {
            assert forall|j: int| 0 <= j < hooks@.len() implies hooks@[j] == phases(list)[j] by {
                assert(*matches@[j].0 == list[j].0);
            }
            assert(hooks@ =~= phases(list));
        }
        let mut chain = Chain::new(hooks);
        let mut failed: Option<Failure> = None;
        let ghost mut steps: Seq<Step> = Seq::empty();
        proof {
            assert(heard(steps) =~= Seq::<Answer>::empty());
        }
        loop
            invariant
                list == route(self@, req.spec_location().0, req.spec_location().1@),
                matches@.len() == list.len(),
                forall|x: int|
                    0 <= x < matches@.len() ==> *(#[trigger] matches@[x]).0 == list[x].0
                        && matches@[x].1@ == list[x].1,
                chain.wf(),
                chain.hooks() == phases(list),
                (chain.stage(), chain.cursor()) == stand(phases(list), heard(steps)),
                fresh.untouched(),
                forall|k: int|
                    0 <= k < steps.len() ==> #[trigger] step_follows(list, *req, fresh, steps, k),
                response == left_by(fresh, steps),
                failed == if steps.len() == 0 {
                    None
                } else {
                    failure(steps.last().result)
                },
            ensures
                follows(list, *req, fresh, steps),
                response == left_by(fresh, steps),
                failed == if steps.len() == 0 {
                    None
                } else {
                    failure(steps.last().result)
                },
            decreases chain.left(),
        {
            let next = chain.next();
            if next.is_none() {
                break ;
            }
            let at = next.unwrap();
            let found = &matches[at];
            let ghost earlier = steps;
            // The response goes on as the handler leaves it in the context.
            let mut left = Response::new();
            let result = {
                let mut ctx = Context::new(req, &mut response, &*found.0, &*found.1);
                let result = found.0.function.call(&mut ctx);
                core::mem::swap(ctx.res, &mut left);
                result
            };
            response = left;
            let ghost step = Step::of(at as int, &*found.1, response, result);
            proof {
                steps = earlier.push(step);
                assert(heard(steps).drop_last() =~= heard(earlier));
                assert(heard(steps).take(earlier.len() as int) =~= heard(earlier));
                assert(steps.take(earlier.len() as int) =~= earlier);
                assert forall|k: int| 0 <= k < steps.len() implies #[trigger] step_follows(
                    list,
                    *req,
                    fresh,
                    steps,
                    k,
                ) by {
                    if k < earlier.len() {
                        assert(step_follows(list, *req, fresh, earlier, k));
                        assert(heard(steps).take(k) =~= heard(earlier).take(k));
                        assert(steps.take(k) =~= earlier.take(k));
                    }
                }
            }
            let (answer, failure) = answer_of(result);
            chain.record(answer);
            failed = failure;
        }
        proof {
            assert(dispatched(self@, *req, (response, failed)));
            if list.len() == 0 {
                lemma_nothing_dispatched(self@, *req, (response, failed));
            }
        }
        (response, failed)
    }
}

} // verus!
