use dir_compare::content::{Answer, Check, Question, Verdict};
use dir_compare::digest::Digest;

fn digest(fill: u8) -> Digest {
    Digest { bytes: [fill; 32] }
}

#[test]
fn check_asks_for_the_size_of_a_first() {
    let check = Check::start();
    assert_eq!(check, Check::NeedSizeA);
    assert_eq!(check.question(), Some(Question::SizeOfA));
    assert_eq!(check.verdict(), None);
}

#[test]
fn check_asks_sizes_then_digests() {
    let c = Check::start();
    let c = c.answer(Answer::Size(5));
    assert_eq!(c.question(), Some(Question::SizeOfB));
    let c = c.answer(Answer::Size(5));
    assert_eq!(c.question(), Some(Question::DigestOfA));
    let c = c.answer(Answer::Digest(digest(1)));
    assert_eq!(c.question(), Some(Question::DigestOfB));
    let c = c.answer(Answer::Digest(digest(1)));
    assert_eq!(c.question(), None);
    assert_eq!(c.verdict(), Some(Verdict::Same));
}

#[test]
fn different_sizes_differ_without_any_digest() {
    let c = Check::start().answer(Answer::Size(5)).answer(Answer::Size(6));
    assert_eq!(c.question(), None);
    assert_eq!(c.verdict(), Some(Verdict::Differs));
}

#[test]
fn different_sizes_differ_for_many_pairs() {
    for (a, b) in [(0u64, 1u64), (1, 0), (5, 500), (u64::MAX, 0), (u64::MAX - 1, u64::MAX)] {
        let c = Check::start().answer(Answer::Size(a)).answer(Answer::Size(b));
        assert_eq!(c, Check::Decided(Verdict::Differs));
    }
}

#[test]
fn equal_sizes_and_different_digests_differ() {
    let c = Check::start()
        .answer(Answer::Size(5))
        .answer(Answer::Size(5))
        .answer(Answer::Digest(digest(1)))
        .answer(Answer::Digest(digest(2)));
    assert_eq!(c.verdict(), Some(Verdict::Differs));
}

#[test]
fn empty_files_are_still_hashed() {
    let c = Check::start().answer(Answer::Size(0)).answer(Answer::Size(0));
    assert_eq!(c.question(), Some(Question::DigestOfA));
}

#[test]
fn failure_at_any_question_is_unknown() {
    let fail = |cause: &str| Answer::Failed(String::from(cause));
    let unknown = |cause: &str| Some(Verdict::Unknown(String::from(cause)));

    let c = Check::start().answer(fail("no a"));
    assert_eq!(c.question(), None);
    assert_eq!(c.verdict(), unknown("no a"));

    let c = Check::start().answer(Answer::Size(1)).answer(fail("no b"));
    assert_eq!(c.verdict(), unknown("no b"));

    let c = Check::start().answer(Answer::Size(1)).answer(Answer::Size(1)).answer(fail("read a"));
    assert_eq!(c.verdict(), unknown("read a"));

    let c = Check::start()
        .answer(Answer::Size(1))
        .answer(Answer::Size(1))
        .answer(Answer::Digest(digest(3)))
        .answer(fail("read b"));
    assert_eq!(c.verdict(), unknown("read b"));
}

#[test]
fn decided_check_stays_decided() {
    let c = Check::start().answer(Answer::Size(1)).answer(Answer::Size(2));
    let c = c.answer(Answer::Failed(String::from("late")));
    let c = c.answer(Answer::Size(2));
    let c = c.answer(Answer::Digest(digest(0)));
    assert_eq!(c.verdict(), Some(Verdict::Differs));
}

#[test]
fn answer_that_was_not_asked_for_changes_nothing() {
    let c = Check::start().answer(Answer::Digest(digest(1)));
    assert_eq!(c, Check::NeedSizeA);
    let c = c.answer(Answer::Size(4)).answer(Answer::Digest(digest(1)));
    assert_eq!(c, Check::NeedSizeB { size_a: 4 });
    let c = c.answer(Answer::Size(4)).answer(Answer::Size(9));
    assert_eq!(c, Check::NeedDigestA);
    let c = c.answer(Answer::Digest(digest(1))).answer(Answer::Size(9));
    assert_eq!(c, Check::NeedDigestB { digest_a: digest(1) });
}

#[test]
fn check_is_repeatable() {
    let run = || {
        Check::start()
            .answer(Answer::Size(11))
            .answer(Answer::Size(11))
            .answer(Answer::Digest(digest(9)))
            .answer(Answer::Digest(digest(8)))
            .verdict()
    };
    assert_eq!(run(), run());
    assert_eq!(run(), Some(Verdict::Differs));
}

#[test]
fn undecided_check_has_no_verdict() {
    assert_eq!(Check::NeedSizeB { size_a: 1 }.verdict(), None);
    assert_eq!(Check::NeedDigestA.verdict(), None);
    assert_eq!(Check::NeedDigestB { digest_a: digest(0) }.verdict(), None);
}
