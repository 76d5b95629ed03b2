//! Comparing the files of one subdirectory that both roots hold: what each side lacks, and
//! which common files differ.

use vstd::prelude::*;
use crate::content::{lemma_equal_contents_are_same, Findings, Verdict};
use crate::order::{increasing, lemma_listing_of_empty, lists};
use crate::path::{path_order, RelPath};
use crate::path_set::{lemma_listing_is_sorted, sorted, views, PathSet};
use crate::report::{ComparisonReport, Failure, Outcome, ReportView, SubdirResult};

verus! {

/// A comparison under way, as plain values: the report so far, and the common files whose
/// contents are still to be checked, in order.
pub struct Progress {
    pub found: ReportView,
    pub pending: Seq<Seq<Seq<u8>>>,
}

impl Progress {
    /// How a comparison of the file sets `files_a` and `files_b` starts: the two lists of
    /// missing files are the sorted set differences; the common files wait to be checked if
    /// contents are to be verified, and none does if not.
    pub open spec fn opens(
        self,
        files_a: Set<Seq<Seq<u8>>>,
        files_b: Set<Seq<Seq<u8>>>,
        verify: bool,
    ) -> bool {
        &&& lists(self.found.missing_in_b, files_a.difference(files_b), path_order())
        &&& lists(self.found.missing_in_a, files_b.difference(files_a), path_order())
        &&& self.found.changed.len() == 0
        &&& self.found.errored.len() == 0
        &&& if verify {
            lists(self.pending, files_a.intersect(files_b), path_order())
        } else {
            self.pending.len() == 0
        }
    }

    /// The comparison of the file sets `files_a` and `files_b` as it starts.
    pub open spec fn opening(
        files_a: Set<Seq<Seq<u8>>>,
        files_b: Set<Seq<Seq<u8>>>,
        verify: bool,
    ) -> Progress {
        Progress {
            found: ReportView {
                missing_in_b: sorted(files_a.difference(files_b)),
                missing_in_a: sorted(files_b.difference(files_a)),
                changed: Seq::empty(),
                errored: Seq::empty(),
            },
            pending: if verify {
                sorted(files_a.intersect(files_b))
            } else {
                Seq::empty()
            },
        }
    }

    /// The comparison after the verdict on the first pending file: the file leaves the
    /// pending ones, and joins the changed ones if it differs, the failures if the check
    /// failed, and neither if it is the same. With no file pending nothing changes.
    pub open spec fn after(self, verdict: Verdict) -> Progress {
        if self.pending.len() == 0 {
            self
        } else {
            let path = self.pending[0];
            let rest = self.pending.drop_first();
            match verdict {
                Verdict::Same => Progress { found: self.found, pending: rest },
                Verdict::Differs => Progress {
                    found: ReportView { changed: self.found.changed.push(path), ..self.found },
                    pending: rest,
                },
                Verdict::Unknown(cause) => Progress {
                    found: ReportView {
                        errored: self.found.errored.push((path, cause)),
                        ..self.found
                    },
                    pending: rest,
                },
            }
        }
    }

    /// The comparison after a run of verdicts, one for each pending file in turn.
    pub open spec fn after_all(self, verdicts: Seq<Verdict>) -> Progress
        decreases verdicts.len(),
    {
        if verdicts.len() == 0 {
            self
        } else {
            self.after(verdicts[0]).after_all(verdicts.drop_first())
        }
    }

    /// The result that the comparison gives as it stands.
    pub open spec fn outcome(self) -> Outcome {
        if self.found.clean() {
            Outcome::Identical
        } else {
            Outcome::Different(self.found)
        }
    }
}

/// The comparison of one subdirectory that both roots hold. It starts from the two sets of
/// files, hands out the common files one by one for their contents to be checked, and takes
/// the verdict on each.
pub struct Comparison {
    report: ComparisonReport,
    common: Vec<RelPath>,
    checked: usize,
}

impl View for Comparison {
    type V = Progress;

    closed spec fn view(&self) -> Progress {
        Progress {
            found: self.report@,
            pending: if self.checked <= self.common@.len() {
                views(self.common@).skip(self.checked as int)
            } else {
                Seq::empty()
            },
        }
    }
}

impl Comparison {
    /// Starts the comparison of two sets of files.
    pub fn begin(files_a: &PathSet, files_b: &PathSet, verify: bool) -> (comparison: Comparison)
        ensures
            comparison@.opens(files_a@, files_b@, verify),
            comparison@ == Progress::opening(files_a@, files_b@, verify),
    {
        let missing_in_b = files_a.difference(files_b);
        let missing_in_a = files_b.difference(files_a);
        let common = if verify {
            files_a.intersection(files_b)
        } else {
            Vec::new()
        };
        let comparison = Comparison {
            report: ComparisonReport {
                missing_in_b,
                missing_in_a,
                changed: Vec::new(),
                errored: Vec::new(),
            },
            common,
            checked: 0,
        };
        proof {
            assert(comparison@.pending =~= views(comparison.common@));
            assert(comparison@.found.changed =~= Seq::empty());
            assert(comparison@.found.errored =~= Seq::empty());
            lemma_opening_is_unique(comparison@, files_a@, files_b@, verify);
        }
        comparison
    }

    /// The common file whose contents are to be checked next; none when all are done.
    pub fn pending(&self) -> (next: Option<&RelPath>)
        ensures
            (match next {
                Some(path) => self@.pending.len() > 0 && path@ == self@.pending[0],
                None => self@.pending.len() == 0,
            }),
    {
        if self.checked < self.common.len() {
            Some(&self.common[self.checked])
        } else {
            None
        }
    }

    /// Takes the verdict on the pending file.
    pub fn record(&mut self, verdict: Verdict)
        ensures
            final(self)@ == old(self)@.after(verdict),
    {
        if self.checked >= self.common.len() {
            return ;
        }
        let ghost before = self@;
        let path = self.common[self.checked].duplicate();
        assert(path@ == before.pending[0]);
        match verdict {
            Verdict::Same => {},
            Verdict::Differs => {
                self.report.changed.push(path);
                assert(self.report@.changed =~= before.found.changed.push(path@));
            },
            Verdict::Unknown(cause) => {
                self.report.errored.push(Failure { path, cause });
                assert(self.report@.errored =~= before.found.errored.push((path@, cause)));
            },
        }
        self.checked = self.checked + 1;
        assert(self@.pending =~= before.pending.drop_first());
    }

    /// Ends the comparison and gives its result. Pending files are left unchecked.
    pub fn finish(self) -> (result: SubdirResult)
        ensures
            result@ == self@.outcome(),
    {
        let report = self.report;
        if report.missing_in_b.len() == 0 && report.missing_in_a.len() == 0
            && report.changed.len() == 0 && report.errored.len() == 0 {
            SubdirResult::Identical
        } else {
            SubdirResult::Different(report)
        }
    }
}

/// There is one way for the comparison of two file sets to start.
pub proof fn lemma_opening_is_unique(
    start: Progress,
    files_a: Set<Seq<Seq<u8>>>,
    files_b: Set<Seq<Seq<u8>>>,
    verify: bool,
)
    requires
        start.opens(files_a, files_b, verify),
    ensures
        start == Progress::opening(files_a, files_b, verify),
{
    lemma_listing_is_sorted(start.found.missing_in_b, files_a.difference(files_b));
    lemma_listing_is_sorted(start.found.missing_in_a, files_b.difference(files_a));
    if verify {
        lemma_listing_is_sorted(start.pending, files_a.intersect(files_b));
    }
    let opening = Progress::opening(files_a, files_b, verify);
    assert(start.found.changed =~= opening.found.changed);
    assert(start.found.errored =~= opening.found.errored);
    assert(start.pending =~= opening.pending);
}

/// The paths of the files that could not be compared.
pub open spec fn failed_paths(errored: Seq<(Seq<Seq<u8>>, String)>) -> Seq<Seq<Seq<u8>>> {
    errored.map_values(|e: (Seq<Seq<u8>>, String)| e.0)
}

/// The files judged so far and those still pending are in order: the changed files followed
/// by the pending ones are increasing, so are the failed files followed by the pending ones,
/// and all of them are common files.
pub open spec fn in_order(progress: Progress, common: Set<Seq<Seq<u8>>>) -> bool {
    &&& increasing(progress.found.changed + progress.pending, path_order())
    &&& increasing(failed_paths(progress.found.errored) + progress.pending, path_order())
    &&& forall|i: int|
        0 <= i < progress.found.changed.len() ==> common.contains(
            #[trigger] progress.found.changed[i],
        )
    &&& forall|i: int|
        0 <= i < progress.found.errored.len() ==> common.contains(
            (#[trigger] progress.found.errored[i]).0,
        )
    &&& forall|i: int|
        0 <= i < progress.pending.len() ==> common.contains(#[trigger] progress.pending[i])
}

/// Taking the first item out of the second part of an increasing sequence, or moving it to the
/// end of the first part, leaves the whole increasing.
proof fn lemma_first_pending_leaves(done: Seq<Seq<Seq<u8>>>, pending: Seq<Seq<Seq<u8>>>)
    requires
        increasing(done + pending, path_order()),
        pending.len() > 0,
    ensures
        increasing(done + pending.drop_first(), path_order()),
        increasing(done.push(pending[0]) + pending.drop_first(), path_order()),
{
    let whole = done + pending;
    let without = done + pending.drop_first();
    assert(done.push(pending[0]) + pending.drop_first() =~= whole);
    assert forall|i: int, j: int| 0 <= i < j < without.len() implies #[trigger] path_order()(
        without[i],
        without[j],
    ) by {
        let i0 = if i < done.len() { i } else { i + 1 };
        let j0 = if j < done.len() { j } else { j + 1 };
        assert(without[i] == whole[i0]);
        assert(without[j] == whole[j0]);
        assert(path_order()(whole[i0], whole[j0]));
    }
}

/// A verdict keeps a comparison in order, and leaves the lists of missing files alone.
pub proof fn lemma_verdict_keeps_order(progress: Progress, common: Set<Seq<Seq<u8>>>, verdict: Verdict)
    requires
        in_order(progress, common),
    ensures
        in_order(progress.after(verdict), common),
        progress.after(verdict).found.missing_in_b == progress.found.missing_in_b,
        progress.after(verdict).found.missing_in_a == progress.found.missing_in_a,
{
    if progress.pending.len() > 0 {
        let next = progress.after(verdict);
        let path = progress.pending[0];
        let failed = failed_paths(progress.found.errored);
        lemma_first_pending_leaves(progress.found.changed, progress.pending);
        lemma_first_pending_leaves(failed, progress.pending);
        assert forall|i: int| 0 <= i < next.pending.len() implies common.contains(
            #[trigger] next.pending[i],
        ) by {
            assert(next.pending[i] == progress.pending[i + 1]);
        }
        match verdict {
            Verdict::Same => {},
            Verdict::Differs => {
                assert forall|i: int| 0 <= i < next.found.changed.len() implies common.contains(
                    #[trigger] next.found.changed[i],
                ) by {
                    if i < progress.found.changed.len() {
                        assert(next.found.changed[i] == progress.found.changed[i]);
                    }
                }
            },
            Verdict::Unknown(cause) => {
                assert(failed_paths(next.found.errored) =~= failed.push(path));
                assert forall|i: int| 0 <= i < next.found.errored.len() implies common.contains(
                    (#[trigger] next.found.errored[i]).0,
                ) by {
                    if i < progress.found.errored.len() {
                        assert(next.found.errored[i] == progress.found.errored[i]);
                    }
                }
            },
        }
    }
}

/// Any run of verdicts keeps a comparison in order, and leaves the lists of missing files
/// alone.
proof fn lemma_verdicts_keep_order(
    progress: Progress,
    common: Set<Seq<Seq<u8>>>,
    verdicts: Seq<Verdict>,
)
    requires
        in_order(progress, common),
    ensures
        in_order(progress.after_all(verdicts), common),
        progress.after_all(verdicts).found.missing_in_b == progress.found.missing_in_b,
        progress.after_all(verdicts).found.missing_in_a == progress.found.missing_in_a,
    decreases verdicts.len(),
{
    if verdicts.len() > 0 {
        lemma_verdict_keeps_order(progress, common, verdicts[0]);
        lemma_verdicts_keep_order(progress.after(verdicts[0]), common, verdicts.drop_first());
    }
}

/// Whatever the verdicts, every list of the report is sorted: the missing files are the two
/// sorted set differences, and the changed and the failed files are common files in
/// increasing order.
pub proof fn lemma_report_is_sorted(
    start: Progress,
    files_a: Set<Seq<Seq<u8>>>,
    files_b: Set<Seq<Seq<u8>>>,
    verify: bool,
    verdicts: Seq<Verdict>,
)
    requires
        start.opens(files_a, files_b, verify),
    ensures
        ({
            let end = start.after_all(verdicts).found;
            &&& lists(end.missing_in_b, files_a.difference(files_b), path_order())
            &&& lists(end.missing_in_a, files_b.difference(files_a), path_order())
            &&& increasing(end.changed, path_order())
            &&& increasing(failed_paths(end.errored), path_order())
            &&& forall|x: Seq<Seq<u8>>|
                end.changed.contains(x) ==> files_a.contains(x) && files_b.contains(x)
            &&& forall|x: Seq<Seq<u8>>|
                failed_paths(end.errored).contains(x) ==> files_a.contains(x) && files_b.contains(
                    x,
                )
        }),
{
    let common = files_a.intersect(files_b);
    assert(in_order(start, common)) by {
        assert(start.found.changed + start.pending =~= start.pending);
        assert(failed_paths(start.found.errored) + start.pending =~= start.pending);
        assert forall|i: int| 0 <= i < start.pending.len() implies common.contains(
            #[trigger] start.pending[i],
        ) by {
            assert(start.pending.contains(start.pending[i]));
        }
    }
    lemma_verdicts_keep_order(start, common, verdicts);
    let end = start.after_all(verdicts);
    let changed = end.found.changed;
    let failed = failed_paths(end.found.errored);
    assert forall|i: int, j: int| 0 <= i < j < changed.len() implies #[trigger] path_order()(
        changed[i],
        changed[j],
    ) by {
        assert(path_order()((changed + end.pending)[i], (changed + end.pending)[j]));
    }
    assert forall|i: int, j: int| 0 <= i < j < failed.len() implies #[trigger] path_order()(
        failed[i],
        failed[j],
    ) by {
        assert(path_order()((failed + end.pending)[i], (failed + end.pending)[j]));
    }
    assert forall|x: Seq<Seq<u8>>| changed.contains(x) implies files_a.contains(x)
        && files_b.contains(x) by {
        let i = choose|i: int| 0 <= i < changed.len() && changed[i] == x;
        assert(common.contains(changed[i]));
    }
    assert forall|x: Seq<Seq<u8>>| failed.contains(x) implies files_a.contains(x)
        && files_b.contains(x) by {
        let i = choose|i: int| 0 <= i < failed.len() && failed[i] == x;
        assert(common.contains(end.found.errored[i].0));
    }
}

/// A comparison that ends as identical had the same files on both sides.
pub proof fn lemma_identical_means_equal_files(
    start: Progress,
    files_a: Set<Seq<Seq<u8>>>,
    files_b: Set<Seq<Seq<u8>>>,
    verify: bool,
    verdicts: Seq<Verdict>,
)
    requires
        start.opens(files_a, files_b, verify),
        start.after_all(verdicts).outcome() == Outcome::Identical,
    ensures
        files_a == files_b,
{
    lemma_report_is_sorted(start, files_a, files_b, verify, verdicts);
    let end = start.after_all(verdicts).found;
    assert forall|x: Seq<Seq<u8>>| files_a.contains(x) <==> files_b.contains(x) by {
        if files_a.contains(x) && !files_b.contains(x) {
            assert(files_a.difference(files_b).contains(x));
            assert(end.missing_in_b.contains(x));
        }
        if files_b.contains(x) && !files_a.contains(x) {
            assert(files_b.difference(files_a).contains(x));
            assert(end.missing_in_a.contains(x));
        }
    }
    assert(files_a =~= files_b);
}

/// Verdicts of `Same` add nothing to a report.
pub proof fn lemma_same_adds_nothing(start: Progress, verdicts: Seq<Verdict>)
    requires
        forall|i: int| 0 <= i < verdicts.len() ==> verdicts[i] is Same,
    ensures
        start.after_all(verdicts).found == start.found,
    decreases verdicts.len(),
{
    if verdicts.len() > 0 {
        let rest = verdicts.drop_first();
        assert forall|i: int| 0 <= i < rest.len() implies rest[i] is Same by {
            assert(rest[i] == verdicts[i + 1]);
        }
        lemma_same_adds_nothing(start.after(verdicts[0]), rest);
    }
}

/// Two sides with the same files, whose common files are the same wherever they are checked,
/// compare as identical, with or without verification of contents.
pub proof fn lemma_equal_sides_are_identical(
    start: Progress,
    files: Set<Seq<Seq<u8>>>,
    verify: bool,
    verdicts: Seq<Verdict>,
)
    requires
        start.opens(files, files, verify),
        forall|i: int| 0 <= i < verdicts.len() ==> verdicts[i] is Same,
    ensures
        start.after_all(verdicts).outcome() == Outcome::Identical,
{
    lemma_same_adds_nothing(start, verdicts);
    assert(files.difference(files) =~= Set::empty());
    lemma_listing_of_empty(start.found.missing_in_b, path_order());
    lemma_listing_of_empty(start.found.missing_in_a, path_order());
}

/// Two sides with the same files, each with the same contents on both sides and readable,
/// compare as identical: every check concludes `Same`, and nothing is reported.
pub proof fn lemma_equal_trees_are_identical(
    start: Progress,
    files: Set<Seq<Seq<u8>>>,
    verify: bool,
    contents: Seq<Seq<u8>>,
    findings: Seq<Findings>,
)
    requires
        start.opens(files, files, verify),
        findings.len() == contents.len(),
        forall|i: int|
            0 <= i < findings.len() ==> crate::content::describes(
                #[trigger] findings[i],
                contents[i],
                contents[i],
            ),
    ensures
        start.after_all(findings.map_values(|f: Findings| f.conclusion())).outcome()
            == Outcome::Identical,
{
    let verdicts = findings.map_values(|f: Findings| f.conclusion());
    assert forall|i: int| 0 <= i < verdicts.len() implies verdicts[i] is Same by {
        lemma_equal_contents_are_same(contents[i], findings[i]);
    }
    lemma_equal_sides_are_identical(start, files, verify, verdicts);
}

/// Where side A holds every file of side B, nothing is missing in A, and what is missing in
/// B lists exactly the files that only A holds.
pub proof fn lemma_superset_lacks_nothing(
    start: Progress,
    files_a: Set<Seq<Seq<u8>>>,
    files_b: Set<Seq<Seq<u8>>>,
    verify: bool,
)
    requires
        start.opens(files_a, files_b, verify),
        files_b.subset_of(files_a),
    ensures
        start.found.missing_in_a == Seq::<Seq<Seq<u8>>>::empty(),
        lists(start.found.missing_in_b, files_a.difference(files_b), path_order()),
        files_a != files_b ==> start.found.missing_in_b.len() > 0,
{
    assert(files_b.difference(files_a) =~= Set::empty());
    lemma_listing_of_empty(start.found.missing_in_a, path_order());
    if files_a != files_b {
        assert(!(files_a =~= files_b));
        let x = choose|x: Seq<Seq<u8>>| files_a.contains(x) != files_b.contains(x);
        assert(files_a.difference(files_b).contains(x));
        assert(start.found.missing_in_b.contains(x));
    }
}

} // verus!
