use vstd::prelude::*;

use crate::errors::SrsError;
use crate::models::{Card, CardV};
use crate::srs::{
    LeitnerSystem, due_count, lemma_due_count_nonneg, lemma_spec_due_len, spec_due,
    spec_review_system, wf_cards,
};

verus! {

/// What str::to_lowercase returns; it depends on the characters alone.
pub uninterp spec fn lower_of(s: Seq<char>) -> Seq<char>;

/// Relies on str::to_lowercase: Unicode lowercasing of every character, a
/// function of the characters alone; an empty string stays empty.
#[verifier::external_body]
fn lowercase(s: &str) -> (r: String)
    ensures
        r@ == lower_of(s@),
        s@.len() == 0 ==> r@.len() == 0,
{
    s.to_lowercase()
}

/// Whether an answer matches the expected translation up to letter case.
pub open spec fn spec_matches(answer: Seq<char>, expected: Seq<char>) -> bool {
    lower_of(answer) == lower_of(expected)
}

/// Grades one answer: a case-insensitive exact match against the translation.
pub fn grade(answer: &str, expected: &str) -> (r: bool)
    ensures
        r == spec_matches(answer@, expected@),
{
    let a = lowercase(answer);
    let e = lowercase(expected);
    a == e
}

/// The qualitative result of a finished quiz, divided at 80% and 50%.
#[derive(Clone, Copy, Debug, PartialEq, Eq, Structural)]
pub enum Tier {
    High,
    Medium,
    Low,
}

/// The tier of `score` out of `total`: High at 80% and above, Medium at 50%
/// and above, Low below.
pub open spec fn spec_tier(score: int, total: int) -> Tier {
    if 5 * score >= 4 * total {
        Tier::High
    } else if 2 * score >= total {
        Tier::Medium
    } else {
        Tier::Low
    }
}

pub fn tier_of(score: u64, total: u64) -> (r: Tier)
    ensures
        r == spec_tier(score as int, total as int),
{
    if (score as u128) * 5 >= (total as u128) * 4 {
        Tier::High
    } else if (score as u128) * 2 >= (total as u128) {
        Tier::Medium
    } else {
        Tier::Low
    }
}

impl Tier {
    /// The tier's name, for reporting.
    pub fn label(&self) -> (r: &'static str)
        ensures
            *self == Tier::High ==> r@ == "high"@,
            *self == Tier::Medium ==> r@ == "medium"@,
            *self == Tier::Low ==> r@ == "low"@,
    {
        match self {
            Tier::High => "high",
            Tier::Medium => "medium",
            Tier::Low => "low",
        }
    }
}

/// The final report of a quiz: the score out of the batch size, and its tier.
pub struct QuizReport {
    pub score: u64,
    pub total: u64,
    pub tier: Tier,
}

/// One quiz in progress: the record store, the chosen batch, and how far the
/// session has come.  The caller asks for the current term, obtains an answer
/// from whoever provides answers, and hands it to `submit_answer`; the store
/// inside is updated card by card and comes back out of `into_system`.
pub struct QuizSession {
    system: LeitnerSystem,
    batch: Vec<Card>,
    next_index: usize,
    score: u64,
}

impl QuizSession {
    pub closed spec fn sys_v(&self) -> Seq<CardV> {
        self.system@
    }

    pub closed spec fn batch_v(&self) -> Seq<CardV> {
        self.batch@.map_values(|c: Card| c@)
    }

    pub closed spec fn asked(&self) -> int {
        self.next_index as int
    }

    pub closed spec fn score_v(&self) -> int {
        self.score as int
    }

    pub open spec fn wf(&self) -> bool {
        &&& wf_cards(self.sys_v())
        &&& 1 <= self.batch_v().len()
        &&& 0 <= self.asked() <= self.batch_v().len()
        &&& 0 <= self.score_v() <= self.asked()
    }

    /// Whether every card of the batch has been asked.
    pub open spec fn finished(&self) -> bool {
        self.asked() == self.batch_v().len()
    }

    pub fn is_finished(&self) -> (r: bool)
        ensures
            r == self.finished(),
    {
        self.next_index == self.batch.len()
    }

    /// The term to ask next.
    pub fn current_term(&self) -> (t: &String)
        requires
            self.wf(),
            !self.finished(),
        ensures
            t@ == self.batch_v()[self.asked()].term,
    {
        &self.batch[self.next_index].term
    }

    /// The translation the next answer is graded against.
    pub fn current_translation(&self) -> (t: &String)
        requires
            self.wf(),
            !self.finished(),
        ensures
            t@ == self.batch_v()[self.asked()].translation,
    {
        &self.batch[self.next_index].translation
    }

    /// Grades the answer for the current card, feeds the outcome into the
    /// scheduler, counts the score, and moves to the next card.
    pub fn submit_answer(&mut self, answer: &str, now: u64) -> (correct: bool)
        requires
            old(self).wf(),
            !old(self).finished(),
        ensures
            final(self).wf(),
            correct == spec_matches(answer@, old(self).batch_v()[old(self).asked()].translation),
            final(self).batch_v() == old(self).batch_v(),
            final(self).asked() == old(self).asked() + 1,
            final(self).score_v() == old(self).score_v() + (if correct {
                1int
            } else {
                0int
            }),
            final(self).sys_v() == spec_review_system(
                old(self).sys_v(),
                old(self).batch_v()[old(self).asked()].term,
                correct,
                now as int,
            ),
    {
        let total = self.batch.len();
        proof {
            assert(old(self).batch_v().len() == old(self).batch@.len());
            assert(old(self).next_index < total);
            assert(old(self).score <= old(self).next_index as u64);
        }
        let idx = self.next_index;
        let correct = grade(answer, self.batch[idx].translation.as_str());
        let term = self.batch[idx].term.clone();
        self.system.review_card(&term, correct, now);
        if correct {
            self.score = self.score + 1;
        }
        self.next_index = idx + 1;
        correct
    }

    /// The score so far, out of the batch size, with its tier.
    pub fn report(&self) -> (r: QuizReport)
        requires
            self.wf(),
        ensures
            r.score == self.score_v(),
            r.total == self.batch_v().len(),
            r.tier == spec_tier(self.score_v(), self.batch_v().len() as int),
    {
        let total = self.batch.len() as u64;
        QuizReport { score: self.score, total, tier: tier_of(self.score, total) }
    }

    /// Hands the updated record store back, for the caller to persist once,
    /// after the whole batch.
    pub fn into_system(self) -> (s: LeitnerSystem)
        requires
            self.wf(),
        ensures
            s.wf(),
            s@ == self.sys_v(),
    {
        self.system
    }
}

impl LeitnerSystem {
    /// Starts one quiz over the cards due at `now`, consuming the store into
    /// the session.  With no card due — a zero-count request asks for none —
    /// the quiz is refused; with fewer due than `count` it is refused when
    /// `exact` demands a full batch, and otherwise proceeds with the shorter
    /// batch.
    pub fn start_quiz(self, now: u64, count: usize, exact: bool) -> (r: Result<
        QuizSession,
        SrsError,
    >)
        requires
            self.wf(),
        ensures
            count == 0 || due_count(self@, now as int) == 0 ==> r == Err::<QuizSession, SrsError>(
                SrsError::NoneDue,
            ),
            count > 0 && due_count(self@, now as int) > 0 && due_count(self@, now as int) < count
                && exact ==> r == Err::<QuizSession, SrsError>(SrsError::InsufficientDue),
            count > 0 && due_count(self@, now as int) > 0 && (due_count(self@, now as int) >= count
                || !exact) ==> (r matches Ok(q) && q.wf() && q.sys_v() == self@ && q.batch_v()
                == spec_due(self@, now as int, count as int) && q.asked() == 0 && q.score_v()
                == 0),
    {
        let batch = self.get_due_cards(now, count);
        proof {
            lemma_spec_due_len(self@, now as int, count as int);
            lemma_due_count_nonneg(self@, now as int);
        }
        if batch.len() == 0 {
            return Err(SrsError::NoneDue);
        }
        if exact && batch.len() < count {
            return Err(SrsError::InsufficientDue);
        }
        Ok(QuizSession { system: self, batch, next_index: 0, score: 0 })
    }
}

} // verus!
