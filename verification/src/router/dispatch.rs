//! The dispatch chain: which matched handler is called next, given what the
//! handlers before it answered.
//!
//! The handlers of a match list fall into two parts that keep its order: the
//! `Before` and `Main` handlers, which run first, and the `After` handlers,
//! which run last. The first part ends with the first handler that answers
//! `End`, and always with the first `Main` handler, whatever it answers. The
//! second part runs however the first ended, and ends with the first handler
//! that answers `End`. A failure ends the dispatch at once.

use vstd::prelude::*;
use crate::router::handler::HookType;
use crate::router::tree::order::rank;

verus! {

/// What a handler answered, as far as the chain is concerned.
#[derive(Debug, PartialEq, Eq, Structural, Clone, Copy)]
pub enum Answer {
    Next,
    End,
    Failed,
}

/// The part of the chain that is running.
#[derive(Debug, PartialEq, Eq, Structural, Clone, Copy)]
pub enum Stage {
    /// The `Before` and `Main` handlers.
    Pre,
    /// The `After` handlers.
    Post,
    /// Nothing is left to run.
    Done,
}

/// Whether a handler of phase `hook` belongs to the part `stage`.
pub open spec fn belongs(hook: HookType, stage: Stage) -> bool {
    match stage {
        Stage::Pre => hook != HookType::After,
        Stage::Post => hook == HookType::After,
        Stage::Done => false,
    }
}

/// The first index from `from` on whose handler belongs to `stage`, or
/// `hooks.len()` if there is none.
pub open spec fn seek(hooks: Seq<HookType>, from: int, stage: Stage) -> int
    decreases hooks.len() - from,
{
    if from < 0 || from >= hooks.len() {
        hooks.len() as int
    } else if belongs(hooks[from], stage) {
        from
    } else {
        seek(hooks, from + 1, stage)
    }
}

/// The handler that is called next when the chain stands at `cursor` in
/// `stage`, if any is. Where the first part has run out, the second begins.
pub open spec fn upcoming(hooks: Seq<HookType>, stage: Stage, cursor: int) -> Option<int> {
    match stage {
        Stage::Pre => {
            let i = seek(hooks, cursor, Stage::Pre);
            if i < hooks.len() {
                Some(i)
            } else {
                let j = seek(hooks, 0, Stage::Post);
                if j < hooks.len() {
                    Some(j)
                } else {
                    None
                }
            }
        },
        Stage::Post => {
            let j = seek(hooks, cursor, Stage::Post);
            if j < hooks.len() {
                Some(j)
            } else {
                None
            }
        },
        Stage::Done => None,
    }
}

/// Where the chain stands after the handler that was called from
/// (`stage`, `cursor`) gave `answer`.
pub open spec fn advanced(hooks: Seq<HookType>, stage: Stage, cursor: int, answer: Answer) -> (
    Stage,
    int,
) {
    match upcoming(hooks, stage, cursor) {
        None => (Stage::Done, cursor),
        Some(i) => match answer {
            Answer::Failed => (Stage::Done, i + 1),
            Answer::End => if hooks[i] != HookType::After {
                (Stage::Post, 0)
            } else {
                (Stage::Done, i + 1)
            },
            Answer::Next => if hooks[i] == HookType::Main {
                (Stage::Post, 0)
            } else if hooks[i] == HookType::Before {
                (Stage::Pre, i + 1)
            } else {
                (Stage::Post, i + 1)
            },
        },
    }
}

/// Where the chain stands once the handlers that were called from
/// (`stage`, `cursor`) on have given `answers`.
pub open spec fn stand_from(
    hooks: Seq<HookType>,
    stage: Stage,
    cursor: int,
    answers: Seq<Answer>,
) -> (Stage, int)
    decreases answers.len(),
{
    if answers.len() == 0 {
        (stage, cursor)
    } else {
        let (stage, cursor) = stand_from(hooks, stage, cursor, answers.drop_last());
        advanced(hooks, stage, cursor, answers.last())
    }
}

/// Where the chain stands, from its start, once the handlers that were
/// called have given `answers`.
pub open spec fn stand(hooks: Seq<HookType>, answers: Seq<Answer>) -> (Stage, int) {
    stand_from(hooks, Stage::Pre, 0, answers)
}

/// The handlers that are called, in order, when the chain starts from
/// (`stage`, `cursor`) and the answers come in as `answers` lists them. The
/// chain may stop before the answers run out; answers that are left over
/// then count for nothing.
pub open spec fn calls(hooks: Seq<HookType>, stage: Stage, cursor: int, answers: Seq<Answer>) -> Seq<
    int,
>
    decreases answers.len(),
{
    match upcoming(hooks, stage, cursor) {
        None => Seq::empty(),
        Some(i) => if answers.len() == 0 {
            seq![i]
        } else {
            let (stage, cursor) = advanced(hooks, stage, cursor, answers[0]);
            seq![i] + calls(hooks, stage, cursor, answers.drop_first())
        },
    }
}

/// `seek` finds a handler of the stage at or behind `from`, and passes
/// over none.
pub proof fn lemma_seek(hooks: Seq<HookType>, from: int, stage: Stage)
    requires
        0 <= from,
    ensures
        from <= seek(hooks, from, stage) || seek(hooks, from, stage) == hooks.len(),
        seek(hooks, from, stage) <= hooks.len(),
        seek(hooks, from, stage) < hooks.len() ==> belongs(hooks[seek(hooks, from, stage)], stage),
        forall|k: int| from <= k < seek(hooks, from, stage) ==> !belongs(#[trigger] hooks[k], stage),
    decreases hooks.len() - from,
{
    if from < hooks.len() && !belongs(hooks[from], stage) {
        lemma_seek(hooks, from + 1, stage);
    }
}

/// Once the `After` handlers run, nothing else is called.
pub proof fn lemma_calls_post(hooks: Seq<HookType>, stage: Stage, cursor: int, answers: Seq<Answer>)
    requires
        0 <= cursor,
        stage != Stage::Pre,
    ensures
        forall|x: int|
            0 <= x < calls(hooks, stage, cursor, answers).len() ==> {
                let i = #[trigger] calls(hooks, stage, cursor, answers)[x];
                0 <= i < hooks.len() && hooks[i] == HookType::After
            },
    decreases answers.len(),
{
    lemma_seek(hooks, cursor, Stage::Post);
    match upcoming(hooks, stage, cursor) {
        None => {},
        Some(i) => {
            if answers.len() > 0 {
                let (next_stage, next_cursor) = advanced(hooks, stage, cursor, answers[0]);
                lemma_calls_post(hooks, next_stage, next_cursor, answers.drop_first());
                let rest = calls(hooks, next_stage, next_cursor, answers.drop_first());
                let all = calls(hooks, stage, cursor, answers);
                assert forall|x: int| 0 <= x < all.len() implies {
                    let k = #[trigger] all[x];
                    0 <= k < hooks.len() && hooks[k] == HookType::After
                } by {
                    if x > 0 {
                        assert(all[x] == rest[x - 1]);
                    }
                }
            }
        },
    }
}

/// Whatever the handlers answer, no handler is called after one of a later
/// phase, and no `Main` handler after another `Main` handler. So every
/// `Before` handler that runs precedes the one `Main` handler that runs,
/// which precedes every `After` handler that runs.
pub proof fn lemma_phases_run_in_order(
    hooks: Seq<HookType>,
    stage: Stage,
    cursor: int,
    answers: Seq<Answer>,
)
    requires
        0 <= cursor,
    ensures
        forall|x: int|
            0 <= x < calls(hooks, stage, cursor, answers).len() ==> 0 <= #[trigger] calls(
                hooks,
                stage,
                cursor,
                answers,
            )[x] < hooks.len(),
        forall|x: int, y: int|
            0 <= x < y < calls(hooks, stage, cursor, answers).len() ==> {
                let first = hooks[#[trigger] calls(hooks, stage, cursor, answers)[x]];
                let second = hooks[#[trigger] calls(hooks, stage, cursor, answers)[y]];
                rank(first) <= rank(second) && !(first == HookType::Main && second == HookType::Main)
            },
    decreases answers.len(),
{
    lemma_seek(hooks, cursor, Stage::Pre);
    lemma_seek(hooks, cursor, Stage::Post);
    lemma_seek(hooks, 0, Stage::Post);
    let all = calls(hooks, stage, cursor, answers);
    match upcoming(hooks, stage, cursor) {
        None => {},
        Some(i) => {
            if answers.len() > 0 {
                let (next_stage, next_cursor) = advanced(hooks, stage, cursor, answers[0]);
                let rest = calls(hooks, next_stage, next_cursor, answers.drop_first());
                lemma_phases_run_in_order(hooks, next_stage, next_cursor, answers.drop_first());
                if next_stage != Stage::Pre {
                    lemma_calls_post(hooks, next_stage, next_cursor, answers.drop_first());
                }
                assert forall|x: int| 0 <= x < all.len() implies 0 <= #[trigger] all[x]
                    < hooks.len() by {
                    if x > 0 {
                        assert(all[x] == rest[x - 1]);
                    }
                }
                assert forall|x: int, y: int| 0 <= x < y < all.len() implies {
                    let first = hooks[#[trigger] all[x]];
                    let second = hooks[#[trigger] all[y]];
                    rank(first) <= rank(second) && !(first == HookType::Main && second
                        == HookType::Main)
                } by {
                    assert(all[y] == rest[y - 1]);
                    if x > 0 {
                        assert(all[x] == rest[x - 1]);
                    }
                }
            }
        },
    }
}

/// To hear answers from a place is to take the first and to hear the rest
/// from where that leads.
pub proof fn lemma_stand_first(hooks: Seq<HookType>, stage: Stage, cursor: int, answers: Seq<Answer>)
    requires
        answers.len() > 0,
    ensures
        stand_from(hooks, stage, cursor, answers) == stand_from(
            hooks,
            advanced(hooks, stage, cursor, answers[0]).0,
            advanced(hooks, stage, cursor, answers[0]).1,
            answers.drop_first(),
        ),
    decreases answers.len(),
{
    let (next_stage, next_cursor) = advanced(hooks, stage, cursor, answers[0]);
    let init = answers.drop_last();
    let rest = answers.drop_first();
    if answers.len() == 1 {
        assert(stand_from(hooks, stage, cursor, init) == (stage, cursor));
        assert(stand_from(hooks, next_stage, next_cursor, rest) == (next_stage, next_cursor));
    } else {
        lemma_stand_first(hooks, stage, cursor, init);
        assert(init.drop_first() =~= rest.drop_last());
        assert(init[0] == answers[0]);
        assert(rest.last() == answers.last());
        assert(stand_from(hooks, next_stage, next_cursor, rest) == advanced(
            hooks,
            stand_from(hooks, next_stage, next_cursor, rest.drop_last()).0,
            stand_from(hooks, next_stage, next_cursor, rest.drop_last()).1,
            rest.last(),
        ));
    }
}

/// Handlers that are, one after the other, the handler that the chain names
/// when it has heard the answers so far, up to the point where it names
/// none, are the handlers that are called.
pub proof fn lemma_run_calls(
    hooks: Seq<HookType>,
    stage: Stage,
    cursor: int,
    answers: Seq<Answer>,
    called: Seq<int>,
)
    requires
        called.len() == answers.len(),
        forall|k: int|
            0 <= k < called.len() ==> upcoming(
                hooks,
                stand_from(hooks, stage, cursor, answers.take(k)).0,
                stand_from(hooks, stage, cursor, answers.take(k)).1,
            ) == Some(#[trigger] called[k]),
        upcoming(
            hooks,
            stand_from(hooks, stage, cursor, answers).0,
            stand_from(hooks, stage, cursor, answers).1,
        ) is None,
    ensures
        calls(hooks, stage, cursor, answers) == called,
    decreases answers.len(),
{
    if answers.len() == 0 {
        assert(calls(hooks, stage, cursor, answers) =~= called);
    } else {
        assert(answers.take(0) =~= Seq::<Answer>::empty());
        assert(upcoming(hooks, stage, cursor) == Some(called[0]));
        let (next_stage, next_cursor) = advanced(hooks, stage, cursor, answers[0]);
        let rest = answers.drop_first();
        let later = called.drop_first();
        assert forall|k: int| 0 <= k < later.len() implies upcoming(
            hooks,
            stand_from(hooks, next_stage, next_cursor, rest.take(k)).0,
            stand_from(hooks, next_stage, next_cursor, rest.take(k)).1,
        ) == Some(#[trigger] later[k]) by {
            lemma_stand_first(hooks, stage, cursor, answers.take(k + 1));
            assert(answers.take(k + 1).drop_first() =~= rest.take(k));
            assert(later[k] == called[k + 1]);
        }
        lemma_stand_first(hooks, stage, cursor, answers);
        lemma_run_calls(hooks, next_stage, next_cursor, rest, later);
        assert(calls(hooks, stage, cursor, answers) =~= called);
    }
}

/// The dispatch chain over the phases of a match list.
pub struct Chain {
    hooks: Vec<HookType>,
    stage: Stage,
    cursor: usize,
}

impl Chain {
    /// The phases of the match list that the chain runs over.
    pub closed spec fn hooks(&self) -> Seq<HookType> {
        self.hooks@
    }

    pub closed spec fn stage(&self) -> Stage {
        self.stage
    }

    pub closed spec fn cursor(&self) -> int {
        self.cursor as int
    }

    /// The cursor lies within the list, or just behind it.
    pub open spec fn wf(&self) -> bool {
        0 <= self.cursor() <= self.hooks().len()
    }

    /// A bound on the number of calls that are still to come.
    pub open spec fn left(&self) -> int {
        match self.stage() {
            Stage::Pre => 2 * self.hooks().len() - self.cursor() + 2,
            Stage::Post => self.hooks().len() - self.cursor() + 1,
            Stage::Done => 0,
        }
    }

    /// The chain at its start: nothing has been called.
    pub fn new(hooks: Vec<HookType>) -> (chain: Chain)
        ensures
            chain.wf(),
            chain.hooks() == hooks@,
            chain.stage() == Stage::Pre,
            chain.cursor() == 0,
    {
        Chain { hooks, stage: Stage::Pre, cursor: 0 }
    }

    /// The first index from `from` on whose handler belongs to `stage`.
    fn seek_from(&self, from: usize, stage: Stage) -> (found: usize)
        requires
            from <= self.hooks@.len(),
        ensures
            found == seek(self.hooks@, from as int, stage),
            from <= found <= self.hooks@.len(),
    {
        let mut i: usize = from;
        while i < self.hooks.len()
            invariant
                from <= i <= self.hooks@.len(),
                seek(self.hooks@, i as int, stage) == seek(self.hooks@, from as int, stage),
            decreases self.hooks@.len() - i,
        {
            let hook = self.hooks[i];
            let fits = match stage {
                Stage::Pre => hook != HookType::After,
                Stage::Post => hook == HookType::After,
                Stage::Done => false,
            };
            if fits {
                return i;
            }
            i = i + 1;
        }
        i
    }

    /// The index, in the match list, of the handler to call next; `None`
    /// when the dispatch is over.
    pub fn next(&self) -> (index: Option<usize>)
        requires
            self.wf(),
        ensures
            match index {
                Some(i) => upcoming(self.hooks(), self.stage(), self.cursor()) == Some(i as int) && i
                    < self.hooks().len(),
                None => upcoming(self.hooks(), self.stage(), self.cursor()) is None,
            },
    {
        match self.stage {
            Stage::Pre => {
                let i = self.seek_from(self.cursor, Stage::Pre);
                if i < self.hooks.len() {
                    Some(i)
                } else {
                    let j = self.seek_from(0, Stage::Post);
                    if j < self.hooks.len() {
                        Some(j)
                    } else {
                        None
                    }
                }
            },
            Stage::Post => {
                let j = self.seek_from(self.cursor, Stage::Post);
                if j < self.hooks.len() {
                    Some(j)
                } else {
                    None
                }
            },
            Stage::Done => None,
        }
    }

    /// Takes the answer of the handler that `next` named, and moves on.
    pub fn record(&mut self, answer: Answer)
        requires
            old(self).wf(),
        ensures
            final(self).wf(),
            final(self).hooks() == old(self).hooks(),
            (final(self).stage(), final(self).cursor()) == advanced(
                old(self).hooks(),
                old(self).stage(),
                old(self).cursor(),
                answer,
            ),
            upcoming(old(self).hooks(), old(self).stage(), old(self).cursor()) is Some
                ==> final(self).left() < old(self).left(),
    {
        match self.next() {
            None => {
                self.stage = Stage::Done;
            },
            Some(i) => {
                let hook = self.hooks[i];
                let n = self.hooks.len();
                assert(i < n);
                proof {
                    lemma_seek(self.hooks@, self.cursor as int, Stage::Pre);
                    lemma_seek(self.hooks@, self.cursor as int, Stage::Post);
                    lemma_seek(self.hooks@, 0, Stage::Post);
                }
                match answer {
                    Answer::Failed => {
                        self.stage = Stage::Done;
                        self.cursor = i + 1;
                    },
                    Answer::End => {
                        if hook != HookType::After {
                            self.stage = Stage::Post;
                            self.cursor = 0;
                        } else {
                            self.stage = Stage::Done;
                            self.cursor = i + 1;
                        }
                    },
                    Answer::Next => {
                        if hook == HookType::Main {
                            self.stage = Stage::Post;
                            self.cursor = 0;
                        } else if hook == HookType::Before {
                            self.stage = Stage::Pre;
                            self.cursor = i + 1;
                        } else {
                            self.stage = Stage::Post;
                            self.cursor = i + 1;
                        }
                    },
                }
            },
        }
    }
}

} // verus!
