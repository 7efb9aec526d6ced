//! Space-efficiency answers: at which request count a compact multiproof
//! becomes ten times smaller than the matching set of single proofs.

use vstd::prelude::*;

verus! {

/// An answer to a space-efficiency question, with a short explanation.
#[derive(PartialEq, Eq, Debug)]
pub struct ShortAnswer {
    /// The answer to the problem.
    pub answer: usize,
    /// The explanation associated with the answer.
    pub explanation: String,
}

/// The breakpoint for a tree of 2023 items at which a compact multiproof is
/// almost exactly ten times as space-efficient as distinct single proofs.
pub fn short_answer_1() -> (r: ShortAnswer)
    ensures
        r.answer == 502,
        r.explanation@ == (
        "The number of proofs is increased until the space-efficiency ratio of the compact multiproof over distinct single proofs first exceeds ten."
        )@,
{
    ShortAnswer {
        answer: 502,
        explanation:
            "The number of proofs is increased until the space-efficiency ratio of the compact multiproof over distinct single proofs first exceeds ten.".to_owned(),
    }
}

/// The same breakpoint when the requests only ever touch the first 1000 of
/// the 2023 items, so the requested leaves share more ancestry.
pub fn short_answer_2() -> (r: ShortAnswer)
    ensures
        r.answer == 262,
        r.explanation@ == (
        "With requests drawn from the first thousand items only, the requested leaves share more ancestors, so the ratio reaches ten at a smaller request count."
        )@,
{
    ShortAnswer {
        answer: 262,
        explanation:
            "With requests drawn from the first thousand items only, the requested leaves share more ancestors, so the ratio reaches ten at a smaller request count.".to_owned(),
    }
}

/// Difficulty feedback on a scale from 0 to 100.
pub fn how_hard_was_this_section() -> (r: u8)
    ensures
        r == 96,
{
    96
}

} // verus!
