//! What a run reports when it is told the truth about two trees.

use vstd::prelude::*;
use crate::compare::{failed_paths, in_order, lemma_verdict_keeps_order, Progress};
use crate::content::{agrees, lemma_answer_keeps_agreement, Check, Findings, Question, Verdict};
use crate::engine::{lemma_reports_are_not_empty, Ask, Phase, Run, Told};
use crate::order::{increasing, lemma_listing_of_empty, lists};
use crate::path::path_order;
use crate::path_set::lemma_sorted_lists;
use crate::report::{Outcome, ReportView, Side};
use crate::walk::{
    files_of, lemma_finished_walk_is_complete, lemma_walk_starts_on_course,
    lemma_walk_stays_on_course, on_course, Node,
};

verus! {

/// Two trees as the file system shows them: what each path of each root holds, and what
/// examining the two files at a path gives. Every path is relative to the roots.
pub struct World {
    pub tree_a: spec_fn(Seq<Seq<u8>>) -> Node,
    pub tree_b: spec_fn(Seq<Seq<u8>>) -> Node,
    pub facts: spec_fn(Seq<Seq<u8>>) -> Findings,
}

/// The tree that `tree` holds at `sub`: what each path below `sub` holds.
pub open spec fn below(tree: spec_fn(Seq<Seq<u8>>) -> Node, sub: Seq<Seq<u8>>) -> spec_fn(
    Seq<Seq<u8>>,
) -> Node {
    |path: Seq<Seq<u8>>| tree(sub + path)
}

/// `node` is a directory, listed or not.
pub open spec fn is_directory(node: Node) -> bool {
    node is Directory || node is Unreadable
}

impl World {
    /// The files below `sub` of root A, relative to `sub`.
    pub open spec fn files_a(self, sub: Seq<Seq<u8>>) -> Set<Seq<Seq<u8>>> {
        files_of(below(self.tree_a, sub))
    }

    /// The files below `sub` of root B, relative to `sub`.
    pub open spec fn files_b(self, sub: Seq<Seq<u8>>) -> Set<Seq<Seq<u8>>> {
        files_of(below(self.tree_b, sub))
    }

    /// The files that both roots hold below `sub`.
    pub open spec fn common(self, sub: Seq<Seq<u8>>) -> Set<Seq<Seq<u8>>> {
        self.files_a(sub).intersect(self.files_b(sub))
    }

    /// What a check of the two files at `path` below `sub` concludes.
    pub open spec fn verdict(self, sub: Seq<Seq<u8>>, path: Seq<Seq<u8>>) -> Verdict {
        (self.facts)(sub + path).conclusion()
    }

    /// The common files below `sub` whose contents differ.
    pub open spec fn differing(self, sub: Seq<Seq<u8>>) -> Set<Seq<Seq<u8>>> {
        Set::new(|x: Seq<Seq<u8>>| self.common(sub).contains(x) && self.verdict(sub, x) is Differs)
    }

    /// The common files below `sub` whose contents cannot be compared.
    pub open spec fn failing(self, sub: Seq<Seq<u8>>) -> Set<Seq<Seq<u8>>> {
        Set::new(|x: Seq<Seq<u8>>| self.common(sub).contains(x) && self.verdict(sub, x) is Unknown)
    }

    /// `told` answers `ask` as the world is. A question about a path is answered by what the
    /// tree of that side holds there, or by what examining the file there gives; a question
    /// of presence by whether each tree holds a directory there. Listings may be answered in
    /// any way.
    pub open spec fn answers(self, ask: Ask, told: Told) -> bool {
        match ask {
            Ask::Presence(sub) => told == Told::Presence {
                in_a: is_directory((self.tree_a)(sub)),
                in_b: is_directory((self.tree_b)(sub)),
            },
            Ask::Probe(Side::A, path) => told == Told::Found((self.tree_a)(path)),
            Ask::Probe(Side::B, path) => told == Told::Found((self.tree_b)(path)),
            Ask::Size(Side::A, path) => told == Told::Answer(
                (self.facts)(path).reply(Question::SizeOfA),
            ),
            Ask::Size(Side::B, path) => told == Told::Answer(
                (self.facts)(path).reply(Question::SizeOfB),
            ),
            Ask::Digest(Side::A, path) => told == Told::Answer(
                (self.facts)(path).reply(Question::DigestOfA),
            ),
            Ask::Digest(Side::B, path) => told == Told::Answer(
                (self.facts)(path).reply(Question::DigestOfB),
            ),
            _ => true,
        }
    }

    /// The report is right for `sub`: it lists as missing what one tree holds and the other
    /// lacks; with verification it lists as changed the common files that differ, and as
    /// failed those that cannot be compared, each with its cause; without verification it
    /// lists none of either. Every list is in increasing order.
    pub open spec fn reported(self, sub: Seq<Seq<u8>>, found: ReportView, verify: bool) -> bool {
        &&& lists(found.missing_in_b, self.files_a(sub).difference(self.files_b(sub)), path_order())
        &&& lists(found.missing_in_a, self.files_b(sub).difference(self.files_a(sub)), path_order())
        &&& if verify {
            &&& lists(found.changed, self.differing(sub), path_order())
            &&& lists(failed_paths(found.errored), self.failing(sub), path_order())
            &&& forall|i: int|
                0 <= i < found.errored.len() ==> self.verdict(sub, (#[trigger] found.errored[i]).0)
                    == Verdict::Unknown(found.errored[i].1)
        } else {
            found.changed.len() == 0 && found.errored.len() == 0
        }
    }

    /// Both roots hold a directory at `sub`.
    pub open spec fn matched(self, sub: Seq<Seq<u8>>) -> bool {
        is_directory((self.tree_a)(sub)) && is_directory((self.tree_b)(sub))
    }

    /// What is settled is right: `OnlyIn` for a subdirectory that the named root alone holds
    /// as a directory; for one that both hold, a report as `reported` says, and `Identical`
    /// only where the report that lists nothing is right.
    pub open spec fn settles(self, settled: Option<(Seq<Seq<u8>>, Outcome)>, verify: bool) -> bool {
        match settled {
            Some((sub, Outcome::OnlyIn(Side::A))) => is_directory((self.tree_a)(sub))
                && !is_directory((self.tree_b)(sub)),
            Some((sub, Outcome::OnlyIn(Side::B))) => is_directory((self.tree_b)(sub))
                && !is_directory((self.tree_a)(sub)),
            Some((sub, Outcome::Identical)) => self.matched(sub) && self.reported(
                sub,
                ReportView {
                    missing_in_b: Seq::empty(),
                    missing_in_a: Seq::empty(),
                    changed: Seq::empty(),
                    errored: Seq::empty(),
                },
                verify,
            ),
            Some((sub, Outcome::Different(found))) => self.matched(sub) && self.reported(
                sub,
                found,
                verify,
            ),
            None => true,
        }
    }

    /// The comparison of `sub` accounts for every common file that is no longer pending: the
    /// changed files differ, the failed ones cannot be compared, for the cause noted, and no
    /// file that differs or fails is left out.
    pub open spec fn accounted(self, sub: Seq<Seq<u8>>, progress: Progress) -> bool {
        &&& in_order(progress, self.common(sub))
        &&& forall|i: int|
            0 <= i < progress.found.changed.len() ==> self.verdict(
                sub,
                #[trigger] progress.found.changed[i],
            ) is Differs
        &&& forall|i: int|
            0 <= i < progress.found.errored.len() ==> self.verdict(
                sub,
                (#[trigger] progress.found.errored[i]).0,
            ) == Verdict::Unknown(progress.found.errored[i].1)
        &&& forall|x: Seq<Seq<u8>>| #[trigger]
            self.common(sub).contains(x) && !progress.pending.contains(x) ==> match self.verdict(
                sub,
                x,
            ) {
                Verdict::Same => true,
                Verdict::Differs => progress.found.changed.contains(x),
                Verdict::Unknown(_) => failed_paths(progress.found.errored).contains(x),
            }
    }

    /// The comparison of `sub` lists as missing what the two trees say, and, with
    /// verification, accounts for the common files; without verification it has checked and
    /// will check nothing.
    pub open spec fn compares(self, sub: Seq<Seq<u8>>, progress: Progress, verify: bool) -> bool {
        &&& lists(
            progress.found.missing_in_b,
            self.files_a(sub).difference(self.files_b(sub)),
            path_order(),
        )
        &&& lists(
            progress.found.missing_in_a,
            self.files_b(sub).difference(self.files_a(sub)),
            path_order(),
        )
        &&& if verify {
            self.accounted(sub, progress)
        } else {
            &&& progress.pending.len() == 0
            &&& progress.found.changed.len() == 0
            &&& progress.found.errored.len() == 0
        }
    }

    /// The run agrees with the world: a walk under way is on course in the tree that it
    /// walks, the files found below A are the files of A's tree, and a comparison under way
    /// is right so far, as is the check of the pending file.
    pub open spec fn agrees_with(self, run: Run) -> bool {
        match run.phase {
            Phase::WalkingA { sub, walk } => self.matched(sub) && on_course(
                below(self.tree_a, sub),
                walk,
            ),
            Phase::WalkingB { sub, files_a, walk } => {
                &&& self.matched(sub)
                &&& files_a.finite()
                &&& files_a == self.files_a(sub)
                &&& on_course(below(self.tree_b, sub), walk)
            },
            Phase::Checking { sub, progress, check } => {
                &&& self.matched(sub)
                &&& run.verify
                &&& self.compares(sub, progress, true)
                &&& agrees(check, (self.facts)(sub + progress.pending[0]))
            },
            _ => true,
        }
    }
}

/// The verdict on the first pending file, if it is the world's, keeps the comparison
/// accounting for the common files.
proof fn lemma_verdict_keeps_account(world: World, sub: Seq<Seq<u8>>, progress: Progress)
    requires
        world.accounted(sub, progress),
        progress.pending.len() > 0,
    ensures
        world.accounted(sub, progress.after(world.verdict(sub, progress.pending[0]))),
{
    let path = progress.pending[0];
    let verdict = world.verdict(sub, path);
    let next = progress.after(verdict);
    let common = world.common(sub);
    lemma_verdict_keeps_order(progress, common, verdict);
    assert forall|i: int| 0 <= i < next.found.changed.len() implies world.verdict(
        sub,
        #[trigger] next.found.changed[i],
    ) is Differs by {
        if i < progress.found.changed.len() {
            assert(next.found.changed[i] == progress.found.changed[i]);
        }
    }
    assert forall|i: int| 0 <= i < next.found.errored.len() implies world.verdict(
        sub,
        (#[trigger] next.found.errored[i]).0,
    ) == Verdict::Unknown(next.found.errored[i].1) by {
        if i < progress.found.errored.len() {
            assert(next.found.errored[i] == progress.found.errored[i]);
        }
    }
    assert forall|x: Seq<Seq<u8>>| #[trigger]
        common.contains(x) && !next.pending.contains(x) implies match world.verdict(sub, x) {
        Verdict::Same => true,
        Verdict::Differs => next.found.changed.contains(x),
        Verdict::Unknown(_) => failed_paths(next.found.errored).contains(x),
    } by {
        if progress.pending.contains(x) {
            let k = choose|k: int| 0 <= k < progress.pending.len() && progress.pending[k] == x;
            if k > 0 {
                assert(next.pending[k - 1] == x);
            }
            assert(x == path);
            match verdict {
                Verdict::Same => {},
                Verdict::Differs => {
                    assert(next.found.changed[next.found.changed.len() - 1] == x);
                },
                Verdict::Unknown(cause) => {
                    let failed = failed_paths(next.found.errored);
                    assert(failed[failed.len() - 1] == x);
                },
            }
        } else {
            match world.verdict(sub, x) {
                Verdict::Same => {},
                Verdict::Differs => {
                    let k = choose|k: int|
                        0 <= k < progress.found.changed.len() && progress.found.changed[k] == x;
                    assert(next.found.changed[k] == x);
                },
                Verdict::Unknown(_) => {
                    let before = failed_paths(progress.found.errored);
                    let k = choose|k: int| 0 <= k < before.len() && before[k] == x;
                    assert(failed_paths(next.found.errored)[k] == x);
                },
            }
        }
    }
}

/// A sequence that is increasing together with what follows it is increasing.
proof fn lemma_front_is_increasing(front: Seq<Seq<Seq<u8>>>, back: Seq<Seq<Seq<u8>>>)
    requires
        increasing(front + back, path_order()),
    ensures
        increasing(front, path_order()),
{
    assert forall|i: int, j: int| 0 <= i < j < front.len() implies #[trigger] path_order()(
        front[i],
        front[j],
    ) by {
        assert(path_order()((front + back)[i], (front + back)[j]));
    }
}

/// A comparison that is right so far goes on right, and what it settles is right.
proof fn lemma_compared_is_right(world: World, run: Run, sub: Seq<Seq<u8>>, progress: Progress)
    requires
        world.matched(sub),
        world.compares(sub, progress, run.verify),
    ensures
        world.agrees_with(run.compared(sub, progress).0),
        world.settles(run.compared(sub, progress).1, run.verify),
{
    if progress.pending.len() == 0 {
        let found = progress.found;
        let cleared = ReportView {
            missing_in_b: Seq::empty(),
            missing_in_a: Seq::empty(),
            changed: Seq::empty(),
            errored: Seq::empty(),
        };
        if run.verify {
            lemma_front_is_increasing(found.changed, progress.pending);
            lemma_front_is_increasing(failed_paths(found.errored), progress.pending);
            assert forall|x: Seq<Seq<u8>>| found.changed.contains(x) <==> world.differing(
                sub,
            ).contains(x) by {
                if found.changed.contains(x) {
                    let k = choose|k: int| 0 <= k < found.changed.len() && found.changed[k] == x;
                    assert(world.common(sub).contains(found.changed[k]));
                }
                if world.differing(sub).contains(x) {
                    assert(world.common(sub).contains(x) && !progress.pending.contains(x));
                }
            }
            let failed = failed_paths(found.errored);
            assert forall|x: Seq<Seq<u8>>| failed.contains(x) <==> world.failing(sub).contains(
                x,
            ) by {
                if failed.contains(x) {
                    let k = choose|k: int| 0 <= k < failed.len() && failed[k] == x;
                    assert(world.common(sub).contains(found.errored[k].0));
                }
                if world.failing(sub).contains(x) {
                    assert(world.common(sub).contains(x) && !progress.pending.contains(x));
                }
            }
        }
        if found.clean() {
            assert(found.missing_in_b =~= cleared.missing_in_b);
            assert(found.missing_in_a =~= cleared.missing_in_a);
            assert(found.changed =~= cleared.changed);
            assert(found.errored =~= cleared.errored);
            assert(failed_paths(found.errored) =~= failed_paths(cleared.errored));
        }
    }
}

/// A run that agrees with the world and is told the truth about it goes on agreeing with it,
/// and whatever it settles is right.
pub proof fn lemma_truth_gives_right_results(world: World, run: Run, told: Told)
    requires
        run.coherent(),
        world.agrees_with(run),
        world.answers(run.asks(), told),
    ensures
        run.step(told).0.coherent(),
        world.agrees_with(run.step(told).0),
        world.settles(run.step(told).1, run.verify),
{
    match (run.phase, told) {
        (Phase::Presence { sub }, Told::Presence { in_a, in_b }) => {
            if in_a && in_b {
                lemma_walk_starts_on_course(below(world.tree_a, sub));
            }
        },
        (Phase::WalkingA { sub, walk }, Told::Found(node)) => {
            let tree = below(world.tree_a, sub);
            assert(node == tree(walk.pending.last()));
            lemma_walk_stays_on_course(tree, walk);
            let next = walk.advance(node);
            if next.pending.len() == 0 {
                lemma_finished_walk_is_complete(tree, next);
                lemma_walk_starts_on_course(below(world.tree_b, sub));
            }
        },
        (Phase::WalkingB { sub, files_a, walk }, Told::Found(node)) => {
            let tree = below(world.tree_b, sub);
            assert(node == tree(walk.pending.last()));
            lemma_walk_stays_on_course(tree, walk);
            let next = walk.advance(node);
            if next.pending.len() == 0 {
                lemma_finished_walk_is_complete(tree, next);
                let files_b = next.files;
                lemma_sorted_lists(files_a.difference(files_b));
                lemma_sorted_lists(files_b.difference(files_a));
                let opening = Progress::opening(files_a, files_b, run.verify);
                if run.verify {
                    lemma_sorted_lists(files_a.intersect(files_b));
                    assert(opening.found.changed + opening.pending =~= opening.pending);
                    assert(failed_paths(opening.found.errored) + opening.pending
                        =~= opening.pending);
                    assert forall|i: int| 0 <= i < opening.pending.len() implies world.common(
                        sub,
                    ).contains(#[trigger] opening.pending[i]) by {
                        assert(opening.pending.contains(opening.pending[i]));
                    }
                }
                lemma_compared_is_right(world, run, sub, opening);
            }
        },
        (Phase::Checking { sub, progress, check }, Told::Answer(answer)) => {
            let facts = (world.facts)(sub + progress.pending[0]);
            lemma_answer_keeps_agreement(check, facts);
            assert(answer == facts.reply(check.asks()->0));
            match check.after(answer) {
                Check::Decided(verdict) => {
                    lemma_verdict_keeps_account(world, sub, progress);
                    lemma_verdict_keeps_order(progress, world.common(sub), verdict);
                    lemma_compared_is_right(world, run, sub, progress.after(verdict));
                },
                _ => {},
            }
        },
        _ => {},
    }
}

/// A run agrees with every world when it starts.
pub proof fn lemma_start_agrees(world: World, verify: bool)
    ensures
        Run::start(verify).coherent(),
        world.agrees_with(Run::start(verify)),
{
}

/// Two roots that hold the same files below a subdirectory, each with the same contents on
/// both sides wherever they are compared, are reported as identical there: a run that is
/// told the truth settles the subdirectory, once it is found on both sides, as `Identical`.
pub proof fn lemma_equal_roots_are_identical(world: World, run: Run, told: Told)
    requires
        run.coherent(),
        world.agrees_with(run),
        world.answers(run.asks(), told),
        run.step(told).1 matches Some((sub, outcome)) && !(outcome is OnlyIn) && world.files_a(sub)
            == world.files_b(sub) && forall|x: Seq<Seq<u8>>| #[trigger]
            world.common(sub).contains(x) ==> world.verdict(sub, x) is Same,
    ensures
        run.step(told).1 matches Some((_, outcome)) && outcome == Outcome::Identical,
{
    lemma_truth_gives_right_results(world, run, told);
    lemma_reports_are_not_empty(run, told);
    let (sub, outcome) = run.step(told).1->0;
    if outcome is Different {
        let found = outcome->Different_0;
        assert(world.files_a(sub).difference(world.files_b(sub)) =~= Set::empty());
        lemma_listing_of_empty(found.missing_in_b, path_order());
        lemma_listing_of_empty(found.missing_in_a, path_order());
        if run.verify {
            assert(world.differing(sub) =~= Set::empty());
            assert(world.failing(sub) =~= Set::empty());
            lemma_listing_of_empty(found.changed, path_order());
            lemma_listing_of_empty(failed_paths(found.errored), path_order());
        }
    }
}

/// With verification, a common file whose two sizes are known and differ is reported as
/// changed, whatever its digests would be.
pub proof fn lemma_different_sizes_are_changed(
    world: World,
    sub: Seq<Seq<u8>>,
    found: ReportView,
    path: Seq<Seq<u8>>,
    size_a: u64,
    size_b: u64,
)
    requires
        world.reported(sub, found, true),
        world.common(sub).contains(path),
        (world.facts)(sub + path).size_a == Ok::<u64, String>(size_a),
        (world.facts)(sub + path).size_b == Ok::<u64, String>(size_b),
        size_a != size_b,
    ensures
        found.changed.contains(path),
{
    assert(world.differing(sub).contains(path));
}

/// Where root A holds every file that root B holds below a subdirectory, and more, a run
/// that is told the truth reports nothing as missing in A there, and as missing in B exactly
/// the files that only A holds.
pub proof fn lemma_superset_root_lacks_nothing(world: World, run: Run, told: Told)
    requires
        run.coherent(),
        world.agrees_with(run),
        world.answers(run.asks(), told),
        run.step(told).1 matches Some((sub, outcome)) && !(outcome is OnlyIn) && world.files_b(
            sub,
        ).subset_of(world.files_a(sub)) && world.files_a(sub) != world.files_b(sub),
    ensures
        run.step(told).1 matches Some((sub, Outcome::Different(found)))
            && found.missing_in_a.len() == 0 && found.missing_in_b.len() > 0 && lists(
            found.missing_in_b,
            world.files_a(sub).difference(world.files_b(sub)),
            path_order(),
        ),
{
    lemma_truth_gives_right_results(world, run, told);
    let (sub, outcome) = run.step(told).1->0;
    let only_a = world.files_a(sub).difference(world.files_b(sub));
    assert(world.files_b(sub).difference(world.files_a(sub)) =~= Set::empty());
    assert(!(world.files_a(sub) =~= world.files_b(sub)));
    let x = choose|x: Seq<Seq<u8>>|
        world.files_a(sub).contains(x) != world.files_b(sub).contains(x);
    assert(only_a.contains(x));
    if outcome is Identical {
        assert(Seq::<Seq<Seq<u8>>>::empty().contains(x));
    } else {
        let found = outcome->Different_0;
        lemma_listing_of_empty(found.missing_in_a, path_order());
        assert(found.missing_in_b.contains(x));
    }
}

} // verus!
