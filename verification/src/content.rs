//! Deciding whether two files hold the same bytes: sizes first, digests only if needed.

use vstd::prelude::*;
use crate::digest::{sha256, Digest};

verus! {

/// What is known of two files' contents after a check.
#[derive(Debug, PartialEq, Eq)]
pub enum Verdict {
    /// The contents are the same.
    Same,
    /// The contents differ.
    Differs,
    /// The check could not be completed, with the cause.
    Unknown(String),
}

/// What a check needs to know next.
#[derive(Clone, Copy, Debug, PartialEq, Eq, Structural)]
pub enum Question {
    SizeOfA,
    SizeOfB,
    DigestOfA,
    DigestOfB,
}

/// What was found out for a question.
#[derive(Debug, PartialEq, Eq)]
pub enum Answer {
    /// The file's size in bytes.
    Size(u64),
    /// The digest of the file's contents.
    Digest(Digest),
    /// The file could not be examined, with the cause.
    Failed(String),
}

/// A check of one pair of files. It asks for the two sizes, then, if they are equal, for the
/// two digests, and stops at the first failure.
#[derive(Debug, PartialEq, Eq)]
pub enum Check {
    NeedSizeA,
    NeedSizeB { size_a: u64 },
    NeedDigestA,
    NeedDigestB { digest_a: Digest },
    Decided(Verdict),
}

impl Check {
    /// The question that the check waits on; none once it is decided.
    pub open spec fn asks(self) -> Option<Question> {
        match self {
            Check::NeedSizeA => Some(Question::SizeOfA),
            Check::NeedSizeB { .. } => Some(Question::SizeOfB),
            Check::NeedDigestA => Some(Question::DigestOfA),
            Check::NeedDigestB { .. } => Some(Question::DigestOfB),
            Check::Decided(_) => None,
        }
    }

    /// The check after `answer`. A failure decides the check as unknown; a size or a digest
    /// that was not asked for changes nothing.
    pub open spec fn after(self, answer: Answer) -> Check {
        match (self, answer) {
            (Check::Decided(verdict), _) => Check::Decided(verdict),
            (_, Answer::Failed(cause)) => Check::Decided(Verdict::Unknown(cause)),
            (Check::NeedSizeA, Answer::Size(size_a)) => Check::NeedSizeB { size_a },
            (Check::NeedSizeB { size_a }, Answer::Size(size_b)) => if size_a != size_b {
                Check::Decided(Verdict::Differs)
            } else {
                Check::NeedDigestA
            },
            (Check::NeedDigestA, Answer::Digest(digest_a)) => Check::NeedDigestB { digest_a },
            (Check::NeedDigestB { digest_a }, Answer::Digest(digest_b)) => if digest_a@
                == digest_b@ {
                Check::Decided(Verdict::Same)
            } else {
                Check::Decided(Verdict::Differs)
            },
            (waiting, _) => waiting,
        }
    }

    /// A check that has asked nothing yet.
    pub fn start() -> (check: Check)
        ensures
            check == Check::NeedSizeA,
    {
        Check::NeedSizeA
    }

    /// The question to answer next; none once the check is decided.
    pub fn question(&self) -> (question: Option<Question>)
        ensures
            question == self.asks(),
    {
        match self {
            Check::NeedSizeA => Some(Question::SizeOfA),
            Check::NeedSizeB { .. } => Some(Question::SizeOfB),
            Check::NeedDigestA => Some(Question::DigestOfA),
            Check::NeedDigestB { .. } => Some(Question::DigestOfB),
            Check::Decided(_) => None,
        }
    }

    /// Takes the answer to the pending question.
    pub fn answer(self, answer: Answer) -> (next: Check)
        ensures
            next == self.after(answer),
    {
        match self {
            Check::Decided(verdict) => Check::Decided(verdict),
            Check::NeedSizeA => match answer {
                Answer::Failed(cause) => Check::Decided(Verdict::Unknown(cause)),
                Answer::Size(size_a) => Check::NeedSizeB { size_a },
                Answer::Digest(digest) => Check::NeedSizeA,
            },
            Check::NeedSizeB { size_a } => match answer {
                Answer::Failed(cause) => Check::Decided(Verdict::Unknown(cause)),
                Answer::Size(size_b) => if size_a != size_b {
                    Check::Decided(Verdict::Differs)
                } else {
                    Check::NeedDigestA
                },
                Answer::Digest(digest) => Check::NeedSizeB { size_a },
            },
            Check::NeedDigestA => match answer {
                Answer::Failed(cause) => Check::Decided(Verdict::Unknown(cause)),
                Answer::Digest(digest_a) => Check::NeedDigestB { digest_a },
                Answer::Size(size) => Check::NeedDigestA,
            },
            Check::NeedDigestB { digest_a } => match answer {
                Answer::Failed(cause) => Check::Decided(Verdict::Unknown(cause)),
                Answer::Digest(digest_b) => if digest_a.same_as(&digest_b) {
                    Check::Decided(Verdict::Same)
                } else {
                    Check::Decided(Verdict::Differs)
                },
                Answer::Size(size) => Check::NeedDigestB { digest_a },
            },
        }
    }

    /// The verdict, once the check is decided.
    pub fn verdict(self) -> (verdict: Option<Verdict>)
        ensures
            verdict == (match self {
                Check::Decided(v) => Some(v),
                _ => None::<Verdict>,
            }),
    {
        match self {
            Check::Decided(v) => Some(v),
            _ => None,
        }
    }
}

/// What examining two files gives: each size and each digest, or why it could not be had.
pub struct Findings {
    pub size_a: Result<u64, String>,
    pub size_b: Result<u64, String>,
    pub digest_a: Result<Digest, String>,
    pub digest_b: Result<Digest, String>,
}

impl Findings {
    /// The answer that these findings give to a question.
    pub open spec fn reply(self, question: Question) -> Answer {
        match question {
            Question::SizeOfA => match self.size_a {
                Ok(size) => Answer::Size(size),
                Err(cause) => Answer::Failed(cause),
            },
            Question::SizeOfB => match self.size_b {
                Ok(size) => Answer::Size(size),
                Err(cause) => Answer::Failed(cause),
            },
            Question::DigestOfA => match self.digest_a {
                Ok(digest) => Answer::Digest(digest),
                Err(cause) => Answer::Failed(cause),
            },
            Question::DigestOfB => match self.digest_b {
                Ok(digest) => Answer::Digest(digest),
                Err(cause) => Answer::Failed(cause),
            },
        }
    }

    /// What a check concludes from these findings: the first failure in the order sizes of A
    /// and B, digests of A and B; else `Differs` on unequal sizes, and on equal sizes whatever
    /// the digests say. Where a size fails or the sizes differ the digests play no part.
    pub open spec fn conclusion(self) -> Verdict {
        match (self.size_a, self.size_b) {
            (Err(cause), _) => Verdict::Unknown(cause),
            (Ok(_), Err(cause)) => Verdict::Unknown(cause),
            (Ok(size_a), Ok(size_b)) => if size_a != size_b {
                Verdict::Differs
            } else {
                match (self.digest_a, self.digest_b) {
                    (Err(cause), _) => Verdict::Unknown(cause),
                    (Ok(_), Err(cause)) => Verdict::Unknown(cause),
                    (Ok(digest_a), Ok(digest_b)) => if digest_a@ == digest_b@ {
                        Verdict::Same
                    } else {
                        Verdict::Differs
                    },
                }
            },
        }
    }
}

/// The check agrees with the findings: what it has learnt so far, or decided, is what they
/// say.
pub open spec fn agrees(check: Check, findings: Findings) -> bool {
    match check {
        Check::NeedSizeA => true,
        Check::NeedSizeB { size_a } => findings.size_a == Ok::<u64, String>(size_a),
        Check::NeedDigestA => findings.size_a is Ok && findings.size_b == findings.size_a,
        Check::NeedDigestB { digest_a } => {
            &&& findings.size_a is Ok
            &&& findings.size_b == findings.size_a
            &&& findings.digest_a == Ok::<Digest, String>(digest_a)
        },
        Check::Decided(verdict) => verdict == findings.conclusion(),
    }
}

/// A check that agrees with the findings and is answered from them goes on agreeing with
/// them: when it is decided, its verdict is the findings' conclusion.
pub proof fn lemma_answer_keeps_agreement(check: Check, findings: Findings)
    requires
        agrees(check, findings),
        check.asks() is Some,
    ensures
        agrees(check.after(findings.reply(check.asks()->0)), findings),
{
}

/// The check as it stands after at most `steps` more questions, each answered from `findings`.
pub open spec fn carried_on(check: Check, findings: Findings, steps: nat) -> Check
    decreases steps,
{
    if steps == 0 {
        check
    } else {
        match check.asks() {
            None => check,
            Some(question) => carried_on(
                check.after(findings.reply(question)),
                findings,
                (steps - 1) as nat,
            ),
        }
    }
}

/// A check that is answered from the findings is decided after at most four questions, with
/// the findings' conclusion.
pub proof fn lemma_check_concludes(findings: Findings)
    ensures
        carried_on(Check::NeedSizeA, findings, 4) == Check::Decided(findings.conclusion()),
{
    reveal_with_fuel(carried_on, 5);
}

/// The verdict on two readable files is a function of their contents alone, so a second check
/// of files that nobody touched in between gives the verdict of the first: `Differs` if the
/// lengths differ, else `Same` or `Differs` as the two SHA-256 digests are equal or not.
pub proof fn lemma_check_is_repeatable(
    contents_a: Seq<u8>,
    contents_b: Seq<u8>,
    first: Findings,
    second: Findings,
)
    requires
        describes(first, contents_a, contents_b),
        describes(second, contents_a, contents_b),
    ensures
        first.conclusion() == second.conclusion(),
        first.conclusion() == verdict_on(contents_a, contents_b),
        carried_on(Check::NeedSizeA, first, 4) == carried_on(Check::NeedSizeA, second, 4),
{
    lemma_check_concludes(first);
    lemma_check_concludes(second);
}

/// `findings` is what examining two readable files with the given contents gives.
pub open spec fn describes(findings: Findings, contents_a: Seq<u8>, contents_b: Seq<u8>) -> bool {
    &&& findings.size_a matches Ok(size) && size == contents_a.len()
    &&& findings.size_b matches Ok(size) && size == contents_b.len()
    &&& findings.digest_a matches Ok(digest) && digest@ == sha256(contents_a)
    &&& findings.digest_b matches Ok(digest) && digest@ == sha256(contents_b)
}

/// The verdict on two files with the given contents.
pub open spec fn verdict_on(contents_a: Seq<u8>, contents_b: Seq<u8>) -> Verdict {
    if contents_a.len() != contents_b.len() {
        Verdict::Differs
    } else if sha256(contents_a) == sha256(contents_b) {
        Verdict::Same
    } else {
        Verdict::Differs
    }
}

/// Two files with the same contents are found the same.
pub proof fn lemma_equal_contents_are_same(contents: Seq<u8>, findings: Findings)
    requires
        describes(findings, contents, contents),
    ensures
        findings.conclusion() == Verdict::Same,
        carried_on(Check::NeedSizeA, findings, 4) == Check::Decided(Verdict::Same),
{
    lemma_check_concludes(findings);
}

/// Files of different sizes are found to differ once the two sizes are known: the check is
/// decided after two questions, neither of which asks for a digest.
pub proof fn lemma_sizes_settle(size_a: u64, size_b: u64)
    requires
        size_a != size_b,
    ensures
        Check::NeedSizeA.asks() == Some(Question::SizeOfA),
        Check::NeedSizeA.after(Answer::Size(size_a)).asks() == Some(Question::SizeOfB),
        Check::NeedSizeA.after(Answer::Size(size_a)).after(Answer::Size(size_b))
            == Check::Decided(Verdict::Differs),
        Check::NeedSizeA.after(Answer::Size(size_a)).after(Answer::Size(size_b)).asks()
            is None,
{
}

/// A decided check stays as it is, whatever it is told.
pub proof fn lemma_decided_is_final(verdict: Verdict, answer: Answer)
    ensures
        Check::Decided(verdict).after(answer) == Check::Decided(verdict),
{
}

} // verus!
