use minihttp::request::{Location, Method, Request};
use minihttp::router::dispatch::{Answer, Chain};
use minihttp::router::{answer_of, Context, Failure, Handler, HandlerFn, HookType, Return, Router};
use std::rc::Rc;

use HookType::{After, Before, Main};

/// The indices that a chain over `hooks` calls when the answers come in as
/// `answers` gives them; answers beyond the last are `Next`.
fn calls(hooks: &[HookType], answers: &[Answer]) -> Vec<usize> {
    let mut chain = Chain::new(hooks.to_vec());
    let mut called = Vec::new();
    let mut answers = answers.iter();
    while let Some(i) = chain.next() {
        called.push(i);
        chain.record(*answers.next().unwrap_or(&Answer::Next));
    }
    called
}

#[test]
fn chain_runs_befores_one_main_and_afters() {
    let hooks = [Before, Before, Main, Main, After, After];
    assert_eq!(calls(&hooks, &[]), vec![0, 1, 2, 4, 5]);
}

#[test]
fn chain_of_nothing_calls_nothing() {
    assert_eq!(calls(&[], &[]), Vec::<usize>::new());
    let mut chain = Chain::new(Vec::new());
    assert_eq!(chain.next(), None);
    chain.record(Answer::Next);
    assert_eq!(chain.next(), None);
}

#[test]
fn main_ends_the_first_part_whatever_it_answers() {
    let hooks = [Main, Before, Main, After];
    assert_eq!(calls(&hooks, &[Answer::Next]), vec![0, 3]);
    assert_eq!(calls(&hooks, &[Answer::End]), vec![0, 3]);
}

#[test]
fn before_end_skips_to_the_afters() {
    let hooks = [Before, Before, Main, After, After, After];
    assert_eq!(calls(&hooks, &[Answer::End]), vec![0, 3, 4, 5]);
    assert_eq!(calls(&hooks, &[Answer::Next, Answer::End]), vec![0, 1, 3, 4, 5]);
}

#[test]
fn after_end_stops_the_chain() {
    let hooks = [Before, Main, After, After, After];
    assert_eq!(calls(&hooks, &[Answer::Next, Answer::Next, Answer::End]), vec![0, 1, 2]);
    assert_eq!(
        calls(&hooks, &[Answer::Next, Answer::Next, Answer::Next, Answer::End]),
        vec![0, 1, 2, 3]
    );
}

#[test]
fn failure_aborts_the_dispatch() {
    let hooks = [Before, Main, After];
    assert_eq!(calls(&hooks, &[Answer::Failed]), vec![0]);
    assert_eq!(calls(&hooks, &[Answer::Next, Answer::Failed]), vec![0, 1]);
    assert_eq!(calls(&hooks, &[Answer::Next, Answer::Next, Answer::Failed]), vec![0, 1, 2]);
}

#[test]
fn afters_run_without_any_before_or_main() {
    assert_eq!(calls(&[After, After], &[]), vec![0, 1]);
    assert_eq!(calls(&[After, After], &[Answer::End]), vec![0]);
}

#[test]
fn parts_keep_their_order_in_an_unsorted_list() {
    let hooks = [After, Before, After, Main, Before];
    assert_eq!(calls(&hooks, &[]), vec![1, 3, 0, 2]);
}

#[test]
fn answers_are_read_from_results() {
    assert_eq!(answer_of(Ok(Return::Next)), (Answer::Next, None));
    assert_eq!(answer_of(Ok(Return::End)), (Answer::End, None));
    assert_eq!(
        answer_of(Err("broken".to_string())),
        (Answer::Failed, Some("broken".to_string()))
    );
}

/// A handler that writes its name into the `trace` header and gives its
/// fixed answer.
struct Step {
    name: &'static str,
    answer: Result<Return, Failure>,
}

impl HandlerFn for Step {
    fn call(&self, ctx: &mut Context<'_, Self>) -> Result<Return, Failure> {
        assert!(std::ptr::eq(&*ctx.handler.function, self));
        let seen = match ctx.params.get("id") {
            Some(id) => format!("{}:{}", self.name, id),
            None => self.name.to_string(),
        };
        ctx.res.headers.append("trace".to_string(), seen);
        self.answer.clone()
    }
}

fn step(name: &'static str, hook: HookType, answer: Result<Return, Failure>) -> Handler<Step> {
    Handler {
        function: Rc::new(Step { name, answer }),
        hook_type: hook,
        method: Method::Get,
        path: "/item/:id".to_string(),
    }
}

fn trace(router: &Router<Step>, path: &str) -> (Vec<String>, Option<Failure>) {
    let mut req = Request::new(None);
    req.set_location(Location(Method::Get, path.to_string()));
    let (res, failure) = router.dispatch(&req);
    (res.headers.get_all("trace").cloned().unwrap_or_default(), failure)
}

#[test]
fn dispatch_runs_the_phases_in_order() {
    let mut router = Router::new();
    router.register(step("after1", After, Ok(Return::Next)));
    router.register(step("main1", Main, Ok(Return::Next)));
    router.register(step("before1", Before, Ok(Return::Next)));
    router.register(step("main2", Main, Ok(Return::Next)));
    router.register(step("before2", Before, Ok(Return::Next)));
    router.register(step("after2", After, Ok(Return::Next)));
    let (seen, failure) = trace(&router, "/item/7");
    assert_eq!(seen, vec!["before1:7", "before2:7", "main1:7", "after1:7", "after2:7"]);
    assert!(failure.is_none());
}

#[test]
fn dispatch_before_end_skips_main_but_not_after() {
    let mut router = Router::new();
    router.register(step("before1", Before, Ok(Return::End)));
    router.register(step("before2", Before, Ok(Return::Next)));
    router.register(step("main", Main, Ok(Return::Next)));
    router.register(step("after1", After, Ok(Return::Next)));
    router.register(step("after2", After, Ok(Return::Next)));
    let (seen, failure) = trace(&router, "/item/x");
    assert_eq!(seen, vec!["before1:x", "after1:x", "after2:x"]);
    assert!(failure.is_none());
}

#[test]
fn dispatch_hands_back_the_failure() {
    let mut router = Router::new();
    router.register(step("before", Before, Ok(Return::Next)));
    router.register(step("main", Main, Err("no luck".to_string())));
    router.register(step("after", After, Ok(Return::Next)));
    let (seen, failure) = trace(&router, "/item/x");
    assert_eq!(seen, vec!["before:x", "main:x"]);
    assert_eq!(failure, Some("no luck".to_string()));
}

#[test]
fn dispatch_without_a_match_leaves_the_response_fresh() {
    let mut router = Router::new();
    router.register(step("main", Main, Ok(Return::End)));
    let mut req = Request::new(None);
    req.set_location(Location(Method::Get, "/other".to_string()));
    let (res, failure) = router.dispatch(&req);
    assert!(failure.is_none());
    assert_eq!(res.status.to_u16(), 200);
    assert_eq!(res.headers.len(), 0);
    assert!(res.wire().is_empty());
    assert!(!res.is_header_written());
    assert!(!res.is_body_written());
}

/// A handler that notes the status it finds and then sets its own.
struct Relay(u16);

impl HandlerFn for Relay {
    fn call(&self, ctx: &mut Context<'_, Self>) -> Result<Return, Failure> {
        let found = ctx.res.status.to_u16();
        ctx.res.headers.append("found".to_string(), found.to_string());
        ctx.res.status(minihttp::protocol::StatusCode::Other(self.0, String::new()));
        Ok(Return::Next)
    }
}

#[test]
fn each_handler_finds_the_response_as_the_last_left_it() {
    let mut router = Router::new();
    for (code, hook) in [(301, After), (302, Before), (303, Main), (304, After), (305, Before)] {
        router.register(Handler {
            function: Rc::new(Relay(code)),
            hook_type: hook,
            method: Method::All,
            path: "*".to_string(),
        });
    }
    let mut req = Request::new(None);
    req.set_location(Location(Method::Post, "/any".to_string()));
    let (res, failure) = router.dispatch(&req);
    assert!(failure.is_none());
    assert_eq!(
        res.headers.get_all("found"),
        Some(&vec![
            "200".to_string(),
            "302".to_string(),
            "305".to_string(),
            "303".to_string(),
            "301".to_string()
        ])
    );
    assert_eq!(res.status.to_u16(), 304);
}
