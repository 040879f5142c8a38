use vstd::prelude::*;

use crate::errors::SrsError;
use crate::frequency::{eligible_from, spec_batch, spec_freq_update, FrequencyScheduler};
use crate::models::{Card, CardV};
use crate::srs::{spec_due, spec_review_system, LeitnerSystem};

verus! {

/// The two review strategies behind one boundary, chosen by configuration at
/// startup: the Leitner-box store scheduled by review dates, or the
/// frequency-weighted store scheduled by past performance.  Both share the
/// select/update contract; the variant also tags which state shape the
/// collection persists.
pub enum Scheduler {
    Leitner(LeitnerSystem),
    Frequency(FrequencyScheduler),
}

impl Scheduler {
    pub open spec fn wf(&self) -> bool {
        match self {
            Scheduler::Leitner(l) => l.wf(),
            Scheduler::Frequency(f) => f.wf(),
        }
    }

    /// Feeds one graded answer to whichever strategy is configured; an
    /// unknown term changes nothing either way.
    pub fn update(&mut self, term: &String, correct: bool, now: u64)
        requires
            old(self).wf(),
        ensures
            final(self).wf(),
            (*old(self)) matches Scheduler::Leitner(l) ==> ((*final(self)) matches Scheduler::Leitner(l2)
                && l2@ == spec_review_system(l@, term@, correct, now as int)),
            (*old(self)) matches Scheduler::Frequency(f) ==> ((*final(self)) matches Scheduler::Frequency(f2)
                && f2@ == spec_freq_update(f@, term@, correct)),
    {
        match self {
            Scheduler::Leitner(l) => l.review_card(term, correct, now),
            Scheduler::Frequency(f) => f.update(term, correct),
        }
    }

    /// The terms of the next review batch: the cards due at `now` in
    /// collection order for the box strategy, or one weighted pick per draw
    /// for the frequency strategy.  Each strategy reads only the inputs it is
    /// driven by.
    pub fn select(&self, now: u64, count: usize, draws: &Vec<u64>) -> (r: Result<
        Vec<String>,
        SrsError,
    >)
        requires
            self.wf(),
            draws@.len() == count,
        ensures
            self matches Scheduler::Leitner(l) ==> (r matches Ok(v) && v@.map_values(
                |t: String| t@,
            ) == spec_due(l@, now as int, count as int).map_values(|c: CardV| c.term)),
            self matches Scheduler::Frequency(f) ==> {
                &&& count > eligible_from(f@, Set::empty(), 0) ==> r == Err::<
                    Vec<String>,
                    SrsError,
                >(SrsError::InsufficientDue)
                &&& count <= eligible_from(f@, Set::empty(), 0) ==> (r matches Ok(v)
                    && v@.map_values(|t: String| t@) == spec_batch(
                    f@,
                    Set::empty(),
                    draws@.map_values(|d: u64| d as int),
                ).map_values(|ix: int| f@[ix].term))
            },
    {
        match self {
            Scheduler::Leitner(l) => {
                let due = l.get_due_cards(now, count);
                let ghost dv = due@.map_values(|c: Card| c@);
                let mut terms: Vec<String> = Vec::new();
                let m = due.len();
                let mut i: usize = 0;
                while i < m
                    invariant
                        m == due@.len(),
                        dv == due@.map_values(|c: Card| c@),
                        i <= m,
                        terms@.len() == i,
                        forall|k: int| 0 <= k < i ==> (#[trigger] terms@[k])@ == dv[k].term,
                    decreases m - i,
                {
                    let t = due[i].term.clone();
                    terms.push(t);
                    i += 1;
                }
                proof {
                    assert(terms@.map_values(|t: String| t@) =~= dv.map_values(
                        |c: CardV| c.term,
                    ));
                }
                Ok(terms)
            },
            Scheduler::Frequency(f) => {
                let picks = match f.select_indices(count, draws) {
                    Err(e) => {
                        return Err(e);
                    },
                    Ok(p) => p,
                };
                let ghost bv = spec_batch(f@, Set::empty(), draws@.map_values(|d: u64| d as int));
                let mut terms: Vec<String> = Vec::new();
                let m = picks.len();
                let mut i: usize = 0;
                while i < m
                    invariant
                        m == picks@.len(),
                        f.wf(),
                        bv == picks@.map_values(|u: usize| u as int),
                        forall|a: int| 0 <= a < m ==> #[trigger] picks@[a] < f@.len(),
                        i <= m,
                        terms@.len() == i,
                        forall|k: int| 0 <= k < i ==> (#[trigger] terms@[k])@ == f@[picks@[k] as int].term,
                    decreases m - i,
                {
                    let c = f.card_at(picks[i]);
                    terms.push(c.term);
                    i += 1;
                }
                proof {
                    assert(terms@.map_values(|t: String| t@) =~= bv.map_values(
                        |ix: int| f@[ix].term,
                    ));
                }
                Ok(terms)
            },
        }
    }
}

} // verus!
