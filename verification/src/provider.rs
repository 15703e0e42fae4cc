//! The provider's life: one session after the other, and what is done in between.
use crate::session::{maybe_text, session_over, Status, StatusView, RETRY_MILLIS};
use vstd::prelude::*;

verus! {

/// What can come of what the provider does.
pub enum RunEvent {
    /// A session ended, and why where it failed.
    Ended(Option<String>),
    /// The endpoint that was served, if any, is forgotten.
    Forgotten,
    /// The editor was told, or is not there any more.
    Told(bool),
    /// The wait is over.
    Waited,
}

/// What can come of what the provider does.
pub enum RunEventView {
    Ended(Option<Seq<char>>),
    Forgotten,
    Told(bool),
    Waited,
}

impl View for RunEvent {
    type V = RunEventView;

    open spec fn view(&self) -> RunEventView {
        match self {
            RunEvent::Ended(error) => RunEventView::Ended(maybe_text(*error)),
            RunEvent::Forgotten => RunEventView::Forgotten,
            RunEvent::Told(heard) => RunEventView::Told(*heard),
            RunEvent::Waited => RunEventView::Waited,
        }
    }
}

/// What the provider does next.
pub enum RunAction {
    /// Hold a session.
    HoldSession,
    /// Forget the endpoint that was served.
    Forget,
    /// Tell the editor how the provider is doing.
    Tell(Status),
    /// Wait a number of milliseconds.
    Wait(u64),
    /// Stop for good.
    Return,
}

/// What the provider does next.
pub enum RunActionView {
    HoldSession,
    Forget,
    Tell(StatusView),
    Wait(u64),
    Return,
}

impl View for RunAction {
    type V = RunActionView;

    open spec fn view(&self) -> RunActionView {
        match self {
            RunAction::HoldSession => RunActionView::HoldSession,
            RunAction::Forget => RunActionView::Forget,
            RunAction::Tell(status) => RunActionView::Tell(status@),
            RunAction::Wait(millis) => RunActionView::Wait(*millis),
            RunAction::Return => RunActionView::Return,
        }
    }
}

/// How far the provider has come.
pub enum RunView {
    InSession,
    Forgetting(Option<Seq<char>>),
    Telling,
    Waiting,
    Over,
}

/// Whether something can have come of what is done at a stage.
pub open spec fn comes_of(stage: RunView, event: RunEventView) -> bool {
    match stage {
        RunView::InSession => event is Ended,
        RunView::Forgetting(_) => event is Forgotten,
        RunView::Telling => event is Told,
        RunView::Waiting => event is Waited,
        RunView::Over => false,
    }
}

/// News that a session is over.
pub open spec fn over_view(error: Option<Seq<char>>) -> StatusView {
    StatusView { available: false, error, succeeded: false }
}

/// One decision of the provider.
pub open spec fn run_step(stage: RunView, event: RunEventView) -> (RunView, RunActionView) {
    match (stage, event) {
        (RunView::InSession, RunEventView::Ended(error)) => (
            RunView::Forgetting(error),
            RunActionView::Forget,
        ),
        (RunView::Forgetting(error), RunEventView::Forgotten) => (
            RunView::Telling,
            RunActionView::Tell(over_view(error)),
        ),
        (RunView::Telling, RunEventView::Told(true)) => (
            RunView::Waiting,
            RunActionView::Wait(RETRY_MILLIS),
        ),
        (RunView::Waiting, RunEventView::Waited) => (
            RunView::InSession,
            RunActionView::HoldSession,
        ),
        _ => (RunView::Over, RunActionView::Return),
    }
}

enum Stage {
    InSession,
    Forgetting(Option<String>),
    Telling,
    Waiting,
    Over,
}

/// The provider's life.
pub struct Run {
    stage: Stage,
}

impl View for Run {
    type V = RunView;

    closed spec fn view(&self) -> RunView {
        match self.stage {
            Stage::InSession => RunView::InSession,
            Stage::Forgetting(error) => RunView::Forgetting(maybe_text(error)),
            Stage::Telling => RunView::Telling,
            Stage::Waiting => RunView::Waiting,
            Stage::Over => RunView::Over,
        }
    }
}

impl Run {
    /// Begins with a session.
    pub fn new() -> (started: (Run, RunAction))
        ensures
            started.0@ == RunView::InSession,
            started.1@ == RunActionView::HoldSession,
    {
        (Run { stage: Stage::InSession }, RunAction::HoldSession)
    }

    /// Takes what came of the last action, and says what to do next.
    pub fn decide(&mut self, event: RunEvent) -> (action: RunAction)
        requires
            comes_of(old(self)@, event@),
        ensures
            (final(self)@, action@) == run_step(old(self)@, event@),
    {
        let mut stage = Stage::Over;
        std::mem::swap(&mut stage, &mut self.stage);
        match (stage, event) {
            (Stage::InSession, RunEvent::Ended(error)) => {
                self.stage = Stage::Forgetting(error);
                RunAction::Forget
            },
            (Stage::Forgetting(error), RunEvent::Forgotten) => {
                self.stage = Stage::Telling;
                RunAction::Tell(session_over(error))
            },
            (Stage::Telling, RunEvent::Told(true)) => {
                self.stage = Stage::Waiting;
                RunAction::Wait(RETRY_MILLIS)
            },
            (Stage::Waiting, RunEvent::Waited) => {
                self.stage = Stage::InSession;
                RunAction::HoldSession
            },
            _ => RunAction::Return,
        }
    }
}

/// A life from a stage on: where it comes to, and what is done on the way.
pub open spec fn lived(stage: RunView, events: Seq<RunEventView>) -> (
    RunView,
    Seq<RunActionView>,
)
    decreases events.len(),
{
    if events.len() == 0 {
        (stage, Seq::empty())
    } else {
        let (before, actions) = lived(stage, events.drop_last());
        let (after, action) = run_step(before, events.last());
        (after, actions.push(action))
    }
}

/// Whether each of several events can come where it comes.
pub open spec fn can_be_lived(stage: RunView, events: Seq<RunEventView>) -> bool
    decreases events.len(),
{
    events.len() > 0 ==> {
        &&& can_be_lived(stage, events.drop_last())
        &&& comes_of(lived(stage, events.drop_last()).0, events.last())
    }
}

/// How many sessions have ended.
pub open spec fn sessions(events: Seq<RunEventView>) -> nat
    decreases events.len(),
{
    if events.len() == 0 {
        0
    } else {
        sessions(events.drop_last()) + if events.last() is Ended {
            1nat
        } else {
            0
        }
    }
}

/// How often the editor was told.
pub open spec fn tellings(actions: Seq<RunActionView>) -> nat
    decreases actions.len(),
{
    if actions.len() == 0 {
        0
    } else {
        tellings(actions.drop_last()) + if actions.last() is Tell {
            1nat
        } else {
            0
        }
    }
}

/// What follows each session, whatever it came to: the endpoint is forgotten, and the
/// editor is told once that the provider is not available, and why where the session
/// failed. Where the editor is gone the provider stops; otherwise it waits and holds the
/// next session.
pub proof fn law_after_a_session(error: Option<Seq<char>>)
    ensures
        lived(
            RunView::InSession,
            seq![
                RunEventView::Ended(error),
                RunEventView::Forgotten,
                RunEventView::Told(true),
                RunEventView::Waited,
            ],
        ) == (
            RunView::InSession,
            seq![
                RunActionView::Forget,
                RunActionView::Tell(StatusView { available: false, error, succeeded: false }),
                RunActionView::Wait(1_000),
                RunActionView::HoldSession,
            ],
        ),
        lived(
            RunView::InSession,
            seq![RunEventView::Ended(error), RunEventView::Forgotten, RunEventView::Told(false)],
        ) == (
            RunView::Over,
            seq![
                RunActionView::Forget,
                RunActionView::Tell(StatusView { available: false, error, succeeded: false }),
                RunActionView::Return,
            ],
        ),
{
    reveal_with_fuel(lived, 5);
    let heard = seq![
        RunEventView::Ended(error),
        RunEventView::Forgotten,
        RunEventView::Told(true),
        RunEventView::Waited,
    ];
    let unheard = seq![
        RunEventView::Ended(error),
        RunEventView::Forgotten,
        RunEventView::Told(false),
    ];
    let told = seq![RunEventView::Ended(error), RunEventView::Forgotten];
    let ended = seq![RunEventView::Ended(error)];
    assert(heard.drop_last().drop_last() =~= told);
    assert(unheard.drop_last() =~= told);
    assert(told.drop_last() =~= ended);
    assert(ended.drop_last() =~= Seq::empty());
    assert(lived(RunView::InSession, told).1 =~= seq![
        RunActionView::Forget,
        RunActionView::Tell(StatusView { available: false, error, succeeded: false }),
    ]);
    assert(lived(RunView::InSession, heard).1 =~= seq![
        RunActionView::Forget,
        RunActionView::Tell(StatusView { available: false, error, succeeded: false }),
        RunActionView::Wait(1_000),
        RunActionView::HoldSession,
    ]);
    assert(lived(RunView::InSession, unheard).1 =~= seq![
        RunActionView::Forget,
        RunActionView::Tell(StatusView { available: false, error, succeeded: false }),
        RunActionView::Return,
    ]);
}

/// Throughout the provider's life, the editor is told once for each session that ended, as
/// soon as the endpoint is forgotten, and the provider stops just when the editor cannot
/// be told.
pub proof fn law_one_status_for_each_session(events: Seq<RunEventView>)
    requires
        can_be_lived(RunView::InSession, events),
    ensures
        ({
            let (stage, actions) = lived(RunView::InSession, events);
            &&& actions.len() == events.len()
            &&& sessions(events) == tellings(actions) + if stage is Forgetting {
                1int
            } else {
                0
            }
            &&& stage is Over <==> events.len() > 0 && events.last() == RunEventView::Told(false)
            &&& stage is Over <==> actions.len() > 0 && actions.last() is Return
        }),
    decreases events.len(),
{
    if events.len() > 0 {
        law_one_status_for_each_session(events.drop_last());
        let (stage, actions) = lived(RunView::InSession, events);
        assert(actions.drop_last() =~= lived(RunView::InSession, events.drop_last()).1);
    }
}

} // verus!
