//! Same-user, local-only named pipes. The first instance flag arbitrates router
//! ownership without opening a second server underneath a live official app.
use crate::text::{utf16, utf16_units};
use vstd::prelude::*;
use vstd::slice::slice_to_vec;
use vstd::utf8::encode_utf8;

verus! {

/// Named pipes vanish with the process, so there is nothing to unlink at quit.
#[derive(Clone, Copy, PartialEq, Eq, Structural, Debug)]
pub struct EndpointIdentity;

impl EndpointIdentity {
    /// The path to remove: there never is one.
    pub fn unlink_if_current(&self) -> (remove: Option<&[u8]>)
        ensures
            remove is None,
    {
        None
    }
}

/// The pipe, which is the same wherever the home directory is.
pub fn endpoint(_home: &[u8]) -> (path: Vec<u8>)
    ensures
        path@ == encode_utf8("\\\\.\\pipe\\codex-ipc"@),
{
    slice_to_vec("\\\\.\\pipe\\codex-ipc".as_bytes())
}

/// The access rules that let one user in and no one else, in the security descriptor
/// definition language.
pub open spec fn private_to(user: Seq<char>) -> Seq<char> {
    "D:P(A;;GA;;;"@ + user + ")"@
}

/// The access rules that let one user in and no one else, as wide characters that end
/// with a null.
pub fn security_descriptor(user: &str) -> (text: Vec<u16>)
    ensures
        text@ == utf16(private_to(user@)).push(0),
{
    let mut rules = String::new();
    rules.append("D:P(A;;GA;;;");
    rules.append(user);
    rules.append(")");
    assert(rules@ =~= private_to(user@));
    let mut text = utf16_units(rules.as_str());
    text.push(0);
    text
}

/// How many machine words hold the bytes that say who owns a process.
pub fn owner_words(size: u32, word: usize) -> (words: Result<usize, &'static str>)
    requires
        word > 0,
    ensures
        match words {
            Ok(n) => size > 0 && n > 0 && (n - 1) * word < size <= n * word,
            Err(reason) => size == 0 && reason@ == "cannot read IPC process owner"@,
        },
{
    if size == 0 {
        return Err("cannot read IPC process owner");
    }
    let bytes: usize = size as usize;
    let whole: usize = bytes / word;
    let rest: usize = bytes % word;
    assert(bytes == whole * word + rest && 0 <= rest < word) by (nonlinear_arith)
        requires
            whole == bytes / word,
            rest == bytes % word,
            word > 0,
    ;
    assert(whole <= bytes) by (nonlinear_arith)
        requires
            bytes == whole * word + rest,
            word > 0,
            rest >= 0,
            whole >= 0,
    ;
    if rest == 0 {
        assert(whole > 0) by (nonlinear_arith)
            requires
                bytes == whole * word + rest,
                rest == 0,
                bytes > 0,
        ;
        assert((whole - 1) * word < bytes) by (nonlinear_arith)
            requires
                bytes == whole * word,
                word > 0,
        ;
        Ok(whole)
    } else {
        assert(whole * word < bytes <= (whole + 1) * word) by (nonlinear_arith)
            requires
                bytes == whole * word + rest,
                0 < rest < word,
        ;
        assert(whole < bytes) by (nonlinear_arith)
            requires
                bytes == whole * word + rest,
                rest > 0,
                word > 0,
                whole >= 0,
        ;
        Ok(whole + 1)
    }
}

/// How far an election has come.
#[derive(Clone, Copy, PartialEq, Eq, Structural, Debug)]
pub enum PipeStage {
    Probing,
    Creating,
    Joining,
    Ended,
}

/// What is to be done next.
pub enum PipeAction {
    /// Connect to the pipe, and check that its server belongs to the same user.
    Connect,
    /// Create the first instance of the pipe. This fails where there is one, also
    /// where all are busy: no one's pipe is taken over.
    CreateFirst,
    /// Use the connection that was made, to a router of another process.
    Join,
    /// Serve the pipe that was created, and use the connection that was made to it.
    Serve,
    /// Give up.
    Fail(String),
}

/// What is to be done next.
pub enum PipeActionView {
    Connect,
    CreateFirst,
    Join,
    Serve,
    Fail(Seq<char>),
}

impl View for PipeAction {
    type V = PipeActionView;

    open spec fn view(&self) -> PipeActionView {
        match self {
            PipeAction::Connect => PipeActionView::Connect,
            PipeAction::CreateFirst => PipeActionView::CreateFirst,
            PipeAction::Join => PipeActionView::Join,
            PipeAction::Serve => PipeActionView::Serve,
            PipeAction::Fail(reason) => PipeActionView::Fail(reason@),
        }
    }
}

/// One decision of an election: `failure` says why the last action failed, if it did.
pub open spec fn decide_pipe(stage: PipeStage, failure: Option<Seq<char>>) -> (
    PipeStage,
    PipeActionView,
) {
    match (stage, failure) {
        (PipeStage::Probing, None) => (PipeStage::Ended, PipeActionView::Join),
        (PipeStage::Probing, Some(_)) => (PipeStage::Creating, PipeActionView::CreateFirst),
        (PipeStage::Creating, None) => (PipeStage::Joining, PipeActionView::Connect),
        (PipeStage::Joining, None) => (PipeStage::Ended, PipeActionView::Serve),
        (PipeStage::Ended, None) => (PipeStage::Ended, PipeActionView::Fail(Seq::empty())),
        (_, Some(reason)) => (PipeStage::Ended, PipeActionView::Fail(reason)),
    }
}

/// An election for the pipe under way.
pub struct PipeElection {
    stage: PipeStage,
}

impl View for PipeElection {
    type V = PipeStage;

    closed spec fn view(&self) -> PipeStage {
        self.stage
    }
}

impl PipeElection {
    /// Opens an election, and says what to do first.
    pub fn new() -> (started: (PipeElection, PipeAction))
        ensures
            started.0@ == PipeStage::Probing,
            started.1@ == PipeActionView::Connect,
    {
        (PipeElection { stage: PipeStage::Probing }, PipeAction::Connect)
    }

    /// Takes why the last action failed, if it did, and says what to do next.
    pub fn decide(&mut self, failure: Option<String>) -> (action: PipeAction)
        requires
            !(old(self)@ is Ended),
        ensures
            (final(self)@, action@) == decide_pipe(
                old(self)@,
                match failure {
                    Some(reason) => Some(reason@),
                    None => None,
                },
            ),
    {
        match (self.stage, failure) {
            (PipeStage::Probing, None) => {
                self.stage = PipeStage::Ended;
                PipeAction::Join
            },
            (PipeStage::Probing, Some(_)) => {
                self.stage = PipeStage::Creating;
                PipeAction::CreateFirst
            },
            (PipeStage::Creating, None) => {
                self.stage = PipeStage::Joining;
                PipeAction::Connect
            },
            (PipeStage::Joining, None) => {
                self.stage = PipeStage::Ended;
                PipeAction::Serve
            },
            (PipeStage::Ended, None) => {
                PipeAction::Fail(String::new())
            },
            (_, Some(reason)) => {
                self.stage = PipeStage::Ended;
                PipeAction::Fail(reason)
            },
        }
    }
}

/// A pipe is served only where none could be reached at first, and only the first
/// instance of it that this process created: in every other outcome the election ends
/// with another's router or with nothing.
pub proof fn law_no_pipe_is_taken_over(
    probe: Option<Seq<char>>,
    create: Option<Seq<char>>,
    join: Option<Seq<char>>,
)
    ensures
        ({
            let (s1, a1) = decide_pipe(PipeStage::Probing, probe);
            let (s2, a2) = decide_pipe(s1, create);
            let (s3, a3) = decide_pipe(s2, join);
            &&& !(a1 is Serve) && !(a2 is Serve)
            &&& a3 is Serve <==> probe is Some && create is None && join is None
            &&& a1 is CreateFirst <==> probe is Some
            &&& a1 is Join <==> probe is None
            &&& !(a2 is CreateFirst) && !(a3 is CreateFirst)
        }),
{
}

/// What fails once no pipe could be reached ends an election, with the reason. A pipe that
/// was created is joined before it is served.
pub proof fn law_pipe_failures_end_elections(
    probe: Seq<char>,
    create: Option<Seq<char>>,
    join: Option<Seq<char>>,
)
    ensures
        ({
            let (s1, a1) = decide_pipe(PipeStage::Probing, Some(probe));
            let (s2, a2) = decide_pipe(s1, create);
            let (s3, a3) = decide_pipe(s2, join);
            &&& create matches Some(reason) ==> s2 is Ended && a2 == PipeActionView::Fail(reason)
            &&& create is None ==> a2 is Connect
            &&& create is None ==> (join matches Some(reason) ==> s3 is Ended && a3
                == PipeActionView::Fail(reason))
        }),
{
}

/// The access rules of a pipe are those of one user: they differ for any two users, and
/// nothing but the user makes a difference.
pub proof fn law_access_rules(user: Seq<char>, other: Seq<char>)
    ensures
        private_to(user) == "D:P(A;;GA;;;"@ + user + ")"@,
        private_to(user) == private_to(other) ==> user == other,
{
    let a = private_to(user);
    let b = private_to(other);
    let n = "D:P(A;;GA;;;"@.len() as int;
    if a == b {
        assert(a.len() == n + user.len() + ")"@.len());
        assert(b.len() == n + other.len() + ")"@.len());
        assert(a.subrange(n, n + user.len()) =~= user);
        assert(b.subrange(n, n + other.len()) =~= other);
    }
}

} // verus!
