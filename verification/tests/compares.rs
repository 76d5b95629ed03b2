use dir_compare::compare::Comparison;
use dir_compare::content::Verdict;
use dir_compare::path::RelPath;
use dir_compare::path_set::PathSet;
use dir_compare::report::{ComparisonReport, Failure, SubdirResult};

fn path(names: &[&str]) -> RelPath {
    RelPath::new(names.iter().map(|n| n.as_bytes().to_vec()).collect())
}

fn set_of(names: &[&str]) -> PathSet {
    let mut set = PathSet::new();
    for name in names {
        set.insert(path(&[name]));
    }
    set
}

#[test]
fn comparison_hands_out_common_files_in_order() {
    let mut a = PathSet::new();
    let mut b = PathSet::new();
    for name in ["c", "a", "b", "only-a"] {
        a.insert(path(&[name]));
    }
    for name in ["b", "c", "only-b", "a"] {
        b.insert(path(&[name]));
    }
    let mut comparison = Comparison::begin(&a, &b, true);
    let mut seen = Vec::new();
    while let Some(rel) = comparison.pending() {
        seen.push(rel.duplicate());
        comparison.record(Verdict::Same);
    }
    assert_eq!(seen, vec![path(&["a"]), path(&["b"]), path(&["c"])]);
    assert_eq!(
        comparison.finish(),
        SubdirResult::Different(ComparisonReport {
            missing_in_b: vec![path(&["only-a"])],
            missing_in_a: vec![path(&["only-b"])],
            changed: vec![],
            errored: vec![],
        })
    );
}

#[test]
fn verdict_without_a_pending_file_is_ignored() {
    let a = PathSet::new();
    let b = PathSet::new();
    let mut comparison = Comparison::begin(&a, &b, true);
    assert_eq!(comparison.pending(), None);
    comparison.record(Verdict::Differs);
    comparison.record(Verdict::Unknown(String::from("stray")));
    assert_eq!(comparison.finish(), SubdirResult::Identical);
}

#[test]
fn verdicts_land_in_the_right_lists() {
    let mut a = PathSet::new();
    for name in ["1", "2", "3", "4"] {
        a.insert(path(&[name]));
    }
    let mut comparison = Comparison::begin(&a, &a, true);
    comparison.record(Verdict::Differs);
    comparison.record(Verdict::Same);
    comparison.record(Verdict::Unknown(String::from("io")));
    comparison.record(Verdict::Differs);
    assert_eq!(comparison.pending(), None);
    assert_eq!(
        comparison.finish(),
        SubdirResult::Different(ComparisonReport {
            missing_in_b: vec![],
            missing_in_a: vec![],
            changed: vec![path(&["1"]), path(&["4"])],
            errored: vec![Failure { path: path(&["3"]), cause: String::from("io") }],
        })
    );
}

#[test]
fn without_verification_no_file_is_pending() {
    let a = set_of(&["f", "g"]);
    let comparison = Comparison::begin(&a, &a, false);
    assert_eq!(comparison.pending(), None);
    assert_eq!(comparison.finish(), SubdirResult::Identical);
}

#[test]
fn comparison_ended_early_reports_what_it_has() {
    let a = set_of(&["1", "2", "3"]);
    let mut comparison = Comparison::begin(&a, &a, true);
    comparison.record(Verdict::Differs);
    assert_eq!(comparison.pending(), Some(&path(&["2"])));
    assert_eq!(
        comparison.finish(),
        SubdirResult::Different(ComparisonReport {
            missing_in_b: vec![],
            missing_in_a: vec![],
            changed: vec![path(&["1"])],
            errored: vec![],
        })
    );
}

#[test]
fn structure_alone_decides_without_verification() {
    let a = set_of(&["x", "y"]);
    let b = set_of(&["y", "z"]);
    assert_eq!(
        Comparison::begin(&a, &b, false).finish(),
        SubdirResult::Different(ComparisonReport {
            missing_in_b: vec![path(&["x"])],
            missing_in_a: vec![path(&["z"])],
            changed: vec![],
            errored: vec![],
        })
    );
}
