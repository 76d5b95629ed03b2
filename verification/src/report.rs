//! What a comparison reports.

use vstd::prelude::*;
use crate::path::RelPath;
use crate::path_set::views;

verus! {

/// One of the two roots.
#[derive(Clone, Copy, Debug, PartialEq, Eq, Structural)]
pub enum Side {
    A,
    B,
}

/// A file whose contents could not be compared, and why.
#[derive(Debug, PartialEq, Eq)]
pub struct Failure {
    pub path: RelPath,
    pub cause: String,
}

/// What the comparison of one subdirectory found, each list sorted by path.
#[derive(Debug, PartialEq, Eq)]
pub struct ComparisonReport {
    /// Files of A that B lacks.
    pub missing_in_b: Vec<RelPath>,
    /// Files of B that A lacks.
    pub missing_in_a: Vec<RelPath>,
    /// Files of both sides whose contents differ.
    pub changed: Vec<RelPath>,
    /// Files of both sides whose contents could not be compared.
    pub errored: Vec<Failure>,
}

/// A report as plain sequences.
pub struct ReportView {
    pub missing_in_b: Seq<Seq<Seq<u8>>>,
    pub missing_in_a: Seq<Seq<Seq<u8>>>,
    pub changed: Seq<Seq<Seq<u8>>>,
    pub errored: Seq<(Seq<Seq<u8>>, String)>,
}

impl View for ComparisonReport {
    type V = ReportView;

    open spec fn view(&self) -> ReportView {
        ReportView {
            missing_in_b: views(self.missing_in_b@),
            missing_in_a: views(self.missing_in_a@),
            changed: views(self.changed@),
            errored: self.errored@.map_values(|f: Failure| (f.path@, f.cause)),
        }
    }
}

impl ReportView {
    /// Nothing is missing, changed or in error.
    pub open spec fn clean(self) -> bool {
        &&& self.missing_in_b.len() == 0
        &&& self.missing_in_a.len() == 0
        &&& self.changed.len() == 0
        &&& self.errored.len() == 0
    }
}

/// The result for one subdirectory.
#[derive(Debug, PartialEq, Eq)]
pub enum SubdirResult {
    /// The subdirectory exists on one side only.
    OnlyIn(Side),
    /// Both sides hold the same files, and no compared contents differ.
    Identical,
    /// At least one list of the report is not empty.
    Different(ComparisonReport),
}

/// A result as plain values.
pub enum Outcome {
    OnlyIn(Side),
    Identical,
    Different(ReportView),
}

impl View for SubdirResult {
    type V = Outcome;

    open spec fn view(&self) -> Outcome {
        match self {
            SubdirResult::OnlyIn(side) => Outcome::OnlyIn(*side),
            SubdirResult::Identical => Outcome::Identical,
            SubdirResult::Different(report) => Outcome::Different(report@),
        }
    }
}

} // verus!
