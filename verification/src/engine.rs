//! The comparison of two roots, subdirectory by subdirectory.
//!
//! The engine never touches the file system. It says what it needs to know next, is told,
//! and hands out each subdirectory's result when it is settled.

use vstd::prelude::*;
use crate::compare::{Comparison, Progress};
use crate::content::{Answer, Check, Question};
use crate::path::RelPath;
use crate::path_set::{lemma_listing_is_sorted, sorted, views, PathSet};
use crate::report::{Outcome, Side, SubdirResult};
use crate::walk::{direct_subdirs, subdirectories, Entry, Node, Probe, WalkState, Walker};

verus! {

/// On which sides a subdirectory exists.
#[derive(Clone, Copy, Debug, PartialEq, Eq, Structural)]
pub enum Presence {
    /// On both: its files are to be compared.
    Both,
    /// On one side only: it is reported as such, and nothing below it is looked at.
    OnlyIn(Side),
    /// On neither side any more.
    Neither,
}

/// Where a subdirectory exists, from whether each root holds it as a directory.
pub fn presence(in_a: bool, in_b: bool) -> (found: Presence)
    ensures
        found == (match (in_a, in_b) {
            (true, true) => Presence::Both,
            (true, false) => Presence::OnlyIn(Side::A),
            (false, true) => Presence::OnlyIn(Side::B),
            (false, false) => Presence::Neither,
        }),
{
    if in_a {
        if in_b {
            Presence::Both
        } else {
            Presence::OnlyIn(Side::A)
        }
    } else if in_b {
        Presence::OnlyIn(Side::B)
    } else {
        Presence::Neither
    }
}

/// What the engine needs to know next. Every path is relative to the root of the side named.
#[derive(Debug, PartialEq, Eq)]
pub enum Request {
    /// The entries of a root.
    Listing(Side),
    /// Whether each root holds this subdirectory as a directory.
    Presence(RelPath),
    /// What is found at this path.
    Probe(Side, RelPath),
    /// The size of the file at this path.
    Size(Side, RelPath),
    /// The digest of the file at this path.
    Digest(Side, RelPath),
    /// Nothing: the run is over.
    Done,
}

/// A request as plain values.
pub enum Ask {
    Listing(Side),
    Presence(Seq<Seq<u8>>),
    Probe(Side, Seq<Seq<u8>>),
    Size(Side, Seq<Seq<u8>>),
    Digest(Side, Seq<Seq<u8>>),
    Nothing,
}

impl View for Request {
    type V = Ask;

    open spec fn view(&self) -> Ask {
        match self {
            Request::Listing(side) => Ask::Listing(*side),
            Request::Presence(sub) => Ask::Presence(sub@),
            Request::Probe(side, path) => Ask::Probe(*side, path@),
            Request::Size(side, path) => Ask::Size(*side, path@),
            Request::Digest(side, path) => Ask::Digest(*side, path@),
            Request::Done => Ask::Nothing,
        }
    }
}

/// What the engine is told in reply to a request.
#[derive(Debug, PartialEq, Eq)]
pub enum Reply {
    /// The entries of the root; none if it could not be listed.
    Listing(Option<Vec<Entry>>),
    /// Whether each root holds the subdirectory as a directory.
    Presence { in_a: bool, in_b: bool },
    /// What was found at the path.
    Found(Probe),
    /// The size or the digest asked for, or why it could not be had.
    Answer(Answer),
}

/// A reply as plain values.
pub enum Told {
    Listing(Option<Seq<Entry>>),
    Presence { in_a: bool, in_b: bool },
    Found(Node),
    Answer(Answer),
}

impl View for Reply {
    type V = Told;

    open spec fn view(&self) -> Told {
        match self {
            Reply::Listing(Some(entries)) => Told::Listing(Some(entries@)),
            Reply::Listing(None) => Told::Listing(None),
            Reply::Presence { in_a, in_b } => Told::Presence { in_a: *in_a, in_b: *in_b },
            Reply::Found(probe) => Told::Found(probe@),
            Reply::Answer(answer) => Told::Answer(*answer),
        }
    }
}

/// The result of one subdirectory.
#[derive(Debug, PartialEq, Eq)]
pub struct Settled {
    pub subdir: RelPath,
    pub result: SubdirResult,
}

/// What a reply settled, as plain values: the subdirectory and its result, if any.
pub open spec fn settled_view(settled: Option<Settled>) -> Option<(Seq<Seq<u8>>, Outcome)> {
    match settled {
        Some(s) => Some((s.subdir@, s.result@)),
        None => None,
    }
}

/// The subdirectories that a listing of a root shows.
pub open spec fn listed(listing: Option<Seq<Entry>>) -> Set<Seq<Seq<u8>>> {
    match listing {
        Some(entries) => subdirectories(entries),
        None => Set::empty(),
    }
}

/// What a run is busy with.
pub enum Phase {
    /// Waiting for the entries of root A.
    ListingA,
    /// Waiting for the entries of root B.
    ListingB { dirs_a: Set<Seq<Seq<u8>>> },
    /// Waiting to learn which roots hold `sub`.
    Presence { sub: Seq<Seq<u8>> },
    /// Walking `sub` below root A.
    WalkingA { sub: Seq<Seq<u8>>, walk: WalkState },
    /// Walking `sub` below root B, with the files found below A.
    WalkingB { sub: Seq<Seq<u8>>, files_a: Set<Seq<Seq<u8>>>, walk: WalkState },
    /// Checking the contents of the first pending common file of `sub`.
    Checking { sub: Seq<Seq<u8>>, progress: Progress, check: Check },
    /// Done with every subdirectory.
    Finished,
}

/// A run as plain values: whether contents are verified, what the run is busy with, and the
/// subdirectories still to come, in order.
pub struct Run {
    pub verify: bool,
    pub phase: Phase,
    pub rest: Seq<Seq<Seq<u8>>>,
}

impl Run {
    /// A run that has asked nothing yet.
    pub open spec fn start(verify: bool) -> Run {
        Run { verify, phase: Phase::ListingA, rest: Seq::empty() }
    }

    /// A walk under way has a path to look at, and a check under way has a file to check and
    /// a question to ask.
    pub open spec fn coherent(self) -> bool {
        match self.phase {
            Phase::WalkingA { walk, .. } => walk.pending.len() > 0,
            Phase::WalkingB { walk, .. } => walk.pending.len() > 0,
            Phase::Checking { progress, check, .. } => progress.pending.len() > 0
                && check.asks() is Some,
            _ => true,
        }
    }

    /// The subdirectory that the run is busy with, if any.
    pub open spec fn current(self) -> Option<Seq<Seq<u8>>> {
        match self.phase {
            Phase::Presence { sub } => Some(sub),
            Phase::WalkingA { sub, .. } => Some(sub),
            Phase::WalkingB { sub, .. } => Some(sub),
            Phase::Checking { sub, .. } => Some(sub),
            _ => None,
        }
    }

    /// The subdirectories that are not settled yet, the current one first.
    pub open spec fn queue(self) -> Seq<Seq<Seq<u8>>> {
        match self.current() {
            Some(sub) => seq![sub] + self.rest,
            None => self.rest,
        }
    }

    /// What the run needs to know next.
    pub open spec fn asks(self) -> Ask {
        match self.phase {
            Phase::ListingA => Ask::Listing(Side::A),
            Phase::ListingB { .. } => Ask::Listing(Side::B),
            Phase::Presence { sub } => Ask::Presence(sub),
            Phase::WalkingA { sub, walk } => Ask::Probe(Side::A, sub + walk.pending.last()),
            Phase::WalkingB { sub, walk, .. } => Ask::Probe(Side::B, sub + walk.pending.last()),
            Phase::Checking { sub, progress, check } => match check.asks() {
                Some(Question::SizeOfA) => Ask::Size(Side::A, sub + progress.pending[0]),
                Some(Question::SizeOfB) => Ask::Size(Side::B, sub + progress.pending[0]),
                Some(Question::DigestOfA) => Ask::Digest(Side::A, sub + progress.pending[0]),
                Some(Question::DigestOfB) => Ask::Digest(Side::B, sub + progress.pending[0]),
                None => Ask::Nothing,
            },
            Phase::Finished => Ask::Nothing,
        }
    }

    /// The run turned to the next subdirectory, or finished if none is left.
    pub open spec fn moved_on(self) -> Run {
        if self.rest.len() == 0 {
            Run { verify: self.verify, phase: Phase::Finished, rest: self.rest }
        } else {
            Run {
                verify: self.verify,
                phase: Phase::Presence { sub: self.rest[0] },
                rest: self.rest.drop_first(),
            }
        }
    }

    /// The run with the comparison of `sub` at `progress`: the next common file is checked,
    /// or, if none is pending, the subdirectory is settled and the run moves on.
    pub open spec fn compared(self, sub: Seq<Seq<u8>>, progress: Progress) -> (
        Run,
        Option<(Seq<Seq<u8>>, Outcome)>,
    ) {
        if progress.pending.len() > 0 {
            (
                Run {
                    verify: self.verify,
                    phase: Phase::Checking { sub, progress, check: Check::NeedSizeA },
                    rest: self.rest,
                },
                None,
            )
        } else {
            (self.moved_on(), Some((sub, progress.outcome())))
        }
    }

    /// The run after a reply, and the subdirectory that the reply settled, if any.
    ///
    /// The two listings give the subdirectories to go through: those of either root, sorted.
    /// A subdirectory that only one root holds is settled at once, and nothing below it is
    /// asked for; one that neither holds is passed over. One that both hold is walked below
    /// A, then below B, and the two sets of files are compared; with verification each common
    /// file is checked in turn. A reply that does not fit the request changes nothing.
    pub open spec fn step(self, told: Told) -> (Run, Option<(Seq<Seq<u8>>, Outcome)>) {
        match (self.phase, told) {
            (Phase::ListingA, Told::Listing(listing)) => (
                Run {
                    verify: self.verify,
                    phase: Phase::ListingB { dirs_a: listed(listing) },
                    rest: self.rest,
                },
                None,
            ),
            (Phase::ListingB { dirs_a }, Told::Listing(listing)) => (
                Run {
                    verify: self.verify,
                    phase: Phase::Finished,
                    rest: sorted(dirs_a.union(listed(listing))),
                }.moved_on(),
                None,
            ),
            (Phase::Presence { sub }, Told::Presence { in_a, in_b }) => if in_a && in_b {
                (
                    Run {
                        verify: self.verify,
                        phase: Phase::WalkingA { sub, walk: WalkState::start() },
                        rest: self.rest,
                    },
                    None,
                )
            } else if in_a {
                (self.moved_on(), Some((sub, Outcome::OnlyIn(Side::A))))
            } else if in_b {
                (self.moved_on(), Some((sub, Outcome::OnlyIn(Side::B))))
            } else {
                (self.moved_on(), None)
            },
            (Phase::WalkingA { sub, walk }, Told::Found(node)) => {
                let next = walk.advance(node);
                if next.pending.len() > 0 {
                    (
                        Run {
                            verify: self.verify,
                            phase: Phase::WalkingA { sub, walk: next },
                            rest: self.rest,
                        },
                        None,
                    )
                } else {
                    (
                        Run {
                            verify: self.verify,
                            phase: Phase::WalkingB {
                                sub,
                                files_a: next.files,
                                walk: WalkState::start(),
                            },
                            rest: self.rest,
                        },
                        None,
                    )
                }
            },
            (Phase::WalkingB { sub, files_a, walk }, Told::Found(node)) => {
                let next = walk.advance(node);
                if next.pending.len() > 0 {
                    (
                        Run {
                            verify: self.verify,
                            phase: Phase::WalkingB { sub, files_a, walk: next },
                            rest: self.rest,
                        },
                        None,
                    )
                } else {
                    self.compared(sub, Progress::opening(files_a, next.files, self.verify))
                }
            },
            (Phase::Checking { sub, progress, check }, Told::Answer(answer)) => {
                match check.after(answer) {
                    Check::Decided(verdict) => self.compared(sub, progress.after(verdict)),
                    waiting => (
                        Run {
                            verify: self.verify,
                            phase: Phase::Checking { sub, progress, check: waiting },
                            rest: self.rest,
                        },
                        None,
                    ),
                }
            },
            _ => (self, None),
        }
    }
}

/// What an engine is busy with.
enum Stage {
    ListingA,
    ListingB(PathSet),
    Presence(RelPath),
    WalkingA(RelPath, Walker),
    WalkingB(RelPath, PathSet, Walker),
    Checking(RelPath, Comparison, Check),
    Finished,
}

impl View for Stage {
    type V = Phase;

    closed spec fn view(&self) -> Phase {
        match self {
            Stage::ListingA => Phase::ListingA,
            Stage::ListingB(dirs_a) => Phase::ListingB { dirs_a: dirs_a@ },
            Stage::Presence(sub) => Phase::Presence { sub: sub@ },
            Stage::WalkingA(sub, walker) => Phase::WalkingA { sub: sub@, walk: walker@ },
            Stage::WalkingB(sub, files_a, walker) => Phase::WalkingB {
                sub: sub@,
                files_a: files_a@,
                walk: walker@,
            },
            Stage::Checking(sub, comparison, check) => Phase::Checking {
                sub: sub@,
                progress: comparison@,
                check: *check,
            },
            Stage::Finished => Phase::Finished,
        }
    }
}

/// One run of the comparison of two roots.
pub struct Engine {
    verify: bool,
    stage: Stage,
    rest: Vec<RelPath>,
}

impl View for Engine {
    type V = Run;

    closed spec fn view(&self) -> Run {
        Run { verify: self.verify, phase: self.stage@, rest: views(self.rest@) }
    }
}

impl Engine {
    #[verifier::type_invariant]
    spec fn sound(self) -> bool {
        self@.coherent()
    }

    /// An engine about to start; `verify` says whether the contents of common files are to be
    /// compared.
    pub fn new(verify: bool) -> (engine: Engine)
        ensures
            engine@ == Run::start(verify),
    {
        let engine = Engine { verify, stage: Stage::ListingA, rest: Vec::new() };
        assert(engine@.rest =~= Seq::empty());
        engine
    }

    /// What the engine needs to know next.
    pub fn request(&self) -> (request: Request)
        ensures
            request@ == self@.asks(),
            self@.coherent(),
    {
        proof {
            use_type_invariant(self);
        }
        match &self.stage {
            Stage::ListingA => Request::Listing(Side::A),
            Stage::ListingB(_) => Request::Listing(Side::B),
            Stage::Presence(sub) => Request::Presence(sub.duplicate()),
            Stage::WalkingA(sub, walker) => match walker.current() {
                Some(at) => Request::Probe(Side::A, sub.join(at)),
                None => Request::Done,
            },
            Stage::WalkingB(sub, _, walker) => match walker.current() {
                Some(at) => Request::Probe(Side::B, sub.join(at)),
                None => Request::Done,
            },
            Stage::Checking(sub, comparison, check) => match comparison.pending() {
                Some(at) => match check.question() {
                    Some(Question::SizeOfA) => Request::Size(Side::A, sub.join(at)),
                    Some(Question::SizeOfB) => Request::Size(Side::B, sub.join(at)),
                    Some(Question::DigestOfA) => Request::Digest(Side::A, sub.join(at)),
                    Some(Question::DigestOfB) => Request::Digest(Side::B, sub.join(at)),
                    None => Request::Done,
                },
                None => Request::Done,
            },
            Stage::Finished => Request::Done,
        }
    }

    /// The engine turned to the first of `rest`, or finished if there is none.
    fn move_on(verify: bool, rest: Vec<RelPath>) -> (engine: Engine)
        ensures
            engine@ == (Run { verify, phase: Phase::Finished, rest: views(rest@) }).moved_on(),
    {
        let mut rest = rest;
        if rest.len() == 0 {
            Engine { verify, stage: Stage::Finished, rest }
        } else {
            let ghost before = views(rest@);
            let sub = rest.remove(0);
            assert(views(rest@) =~= before.drop_first());
            assert(sub@ == before[0]);
            Engine { verify, stage: Stage::Presence(sub), rest }
        }
    }

    /// The engine with the comparison of `sub` as it stands: busy with the next common file,
    /// or moved on with the subdirectory settled.
    fn compare(verify: bool, rest: Vec<RelPath>, sub: RelPath, comparison: Comparison) -> (next: (
        Engine,
        Option<Settled>,
    ))
        ensures
            (next.0@, settled_view(next.1)) == (Run {
                verify,
                phase: Phase::Finished,
                rest: views(rest@),
            }).compared(sub@, comparison@),
    {
        if comparison.pending().is_some() {
            (Engine { verify, stage: Stage::Checking(sub, comparison, Check::start()), rest }, None)
        } else {
            let result = comparison.finish();
            (Engine::move_on(verify, rest), Some(Settled { subdir: sub, result }))
        }
    }

    /// Takes the reply to the pending request. Gives the engine as it goes on and, where the
    /// reply settled a subdirectory, that subdirectory with its result.
    pub fn reply(self, reply: Reply) -> (next: (Engine, Option<Settled>))
        ensures
            (next.0@, settled_view(next.1)) == self@.step(reply@),
    {
        proof {
            use_type_invariant(&self);
        }
        let ghost before = self@;
        let verify = self.verify;
        let rest = self.rest;
        match (self.stage, reply) {
            (Stage::ListingA, Reply::Listing(listing)) => {
                let dirs_a = direct_subdirs(&listing);
                (Engine { verify, stage: Stage::ListingB(dirs_a), rest }, None)
            },
            (Stage::ListingB(dirs_a), Reply::Listing(listing)) => {
                let dirs_b = direct_subdirs(&listing);
                let all = dirs_a.union(&dirs_b);
                proof {
                    lemma_listing_is_sorted(views(all@), dirs_a@.union(dirs_b@));
                }
                (Engine::move_on(verify, all), None)
            },
            (Stage::Presence(sub), Reply::Presence { in_a, in_b }) => {
                match presence(in_a, in_b) {
                    Presence::Both => (
                        Engine { verify, stage: Stage::WalkingA(sub, Walker::new()), rest },
                        None,
                    ),
                    Presence::OnlyIn(side) => (
                        Engine::move_on(verify, rest),
                        Some(Settled { subdir: sub, result: SubdirResult::OnlyIn(side) }),
                    ),
                    Presence::Neither => (Engine::move_on(verify, rest), None),
                }
            },
            (Stage::WalkingA(sub, walker), Reply::Found(probe)) => {
                let mut walker = walker;
                walker.advance(probe);
                if walker.current().is_some() {
                    (Engine { verify, stage: Stage::WalkingA(sub, walker), rest }, None)
                } else {
                    let files_a = walker.finish();
                    (Engine { verify, stage: Stage::WalkingB(sub, files_a, Walker::new()), rest }, None)
                }
            },
            (Stage::WalkingB(sub, files_a, walker), Reply::Found(probe)) => {
                let mut walker = walker;
                walker.advance(probe);
                if walker.current().is_some() {
                    (Engine { verify, stage: Stage::WalkingB(sub, files_a, walker), rest }, None)
                } else {
                    let files_b = walker.finish();
                    let comparison = Comparison::begin(&files_a, &files_b, verify);
                    Engine::compare(verify, rest, sub, comparison)
                }
            },
            (Stage::Checking(sub, comparison, check), Reply::Answer(answer)) => {
                match check.answer(answer) {
                    Check::Decided(verdict) => {
                        let mut comparison = comparison;
                        comparison.record(verdict);
                        Engine::compare(verify, rest, sub, comparison)
                    },
                    waiting => (
                        Engine { verify, stage: Stage::Checking(sub, comparison, waiting), rest },
                        None,
                    ),
                }
            },
            (stage, _) => (Engine { verify, stage, rest }, None),
        }
    }
}

/// A subdirectory that only one root holds is settled by that answer alone, as only in that
/// root, and the run turns to the next subdirectory, or ends if there is none: nothing below
/// the subdirectory is ever asked for.
pub proof fn lemma_one_sided_is_not_entered(run: Run, sub: Seq<Seq<u8>>, told: Told, side: Side)
    requires
        run.phase == (Phase::Presence { sub }),
        told == (Told::Presence { in_a: side is A, in_b: side is B }),
    ensures
        run.step(told).1 == Some((sub, Outcome::OnlyIn(side))),
        run.step(told).0.queue() == run.rest,
        run.rest.len() > 0 ==> run.step(told).0.asks() == Ask::Presence(run.rest[0]),
        run.rest.len() == 0 ==> run.step(told).0.asks() == Ask::Nothing,
{
    let next = run.step(told).0;
    assert(next == run.moved_on());
    if run.rest.len() > 0 {
        assert(next.queue() =~= run.rest);
    }
}

/// Once both roots are listed, the subdirectories to go through are those of either root,
/// each once, in increasing order.
pub proof fn lemma_listings_fill_the_queue(
    run: Run,
    dirs_a: Set<Seq<Seq<u8>>>,
    listing: Option<Seq<Entry>>,
)
    requires
        run.phase == (Phase::ListingB { dirs_a }),
    ensures
        run.step(Told::Listing(listing)).0.queue() == sorted(dirs_a.union(listed(listing))),
        run.step(Told::Listing(listing)).1 is None,
{
    let all = sorted(dirs_a.union(listed(listing)));
    let next = run.step(Told::Listing(listing)).0;
    if all.len() > 0 {
        assert(next.queue() =~= all);
    }
}

/// After the listings a reply either settles nothing and leaves the subdirectories to go
/// through as they are, or takes the first of them off; what it settles, if anything, is the
/// one taken off. So the subdirectories are settled in order, each at most once.
pub proof fn lemma_queue_is_worked_off(run: Run, told: Told)
    requires
        !(run.phase is ListingA),
        !(run.phase is ListingB),
    ensures
        ({
            let (next, settled) = run.step(told);
            ||| next.queue() == run.queue() && settled is None
            ||| run.queue().len() > 0 && next.queue() == run.queue().drop_first() && (
            settled matches Some((sub, _)) ==> sub == run.queue()[0])
        }),
{
    let (next, settled) = run.step(told);
    if run.current() is Some {
        assert(run.queue().drop_first() =~= run.rest);
        if run.rest.len() > 0 {
            assert(run.moved_on().queue() =~= run.rest);
        }
        if next.current() == run.current() && next.rest == run.rest {
            assert(next.queue() =~= run.queue());
        }
    }
}

/// Whatever the run asks about a path concerns the subdirectory that it is busy with: the
/// path is that subdirectory or lies below it.
pub proof fn lemma_asks_within_current(run: Run)
    ensures
        (match run.asks() {
            Ask::Presence(path) => run.current() == Some(path),
            Ask::Probe(_, path) => run.current() matches Some(sub) && sub.is_prefix_of(path),
            Ask::Size(_, path) => run.current() matches Some(sub) && sub.is_prefix_of(path),
            Ask::Digest(_, path) => run.current() matches Some(sub) && sub.is_prefix_of(path),
            _ => true,
        }),
{
    match run.asks() {
        Ask::Probe(_, path) => {
            let sub = run.current()->0;
            assert(path.subrange(0, sub.len() as int) =~= sub);
        },
        Ask::Size(_, path) => {
            let sub = run.current()->0;
            assert(path.subrange(0, sub.len() as int) =~= sub);
        },
        Ask::Digest(_, path) => {
            let sub = run.current()->0;
            assert(path.subrange(0, sub.len() as int) =~= sub);
        },
        _ => {},
    }
}

/// A report that is handed out lists something: a comparison that found nothing is settled
/// as identical.
pub proof fn lemma_reports_are_not_empty(run: Run, told: Told)
    ensures
        run.step(told).1 matches Some((_, Outcome::Different(found))) ==> !found.clean(),
{
}

/// A coherent run stays coherent, whatever it is told.
pub proof fn lemma_run_stays_coherent(run: Run, told: Told)
    requires
        run.coherent(),
    ensures
        run.step(told).0.coherent(),
{
}

} // verus!
