use vstd::prelude::*;

use crate::errors::SrsError;
use crate::models::{Card, CardV, MAX_BOX, has_term, terms_unique, valid_card_v};

verus! {

/// 2^e for small nonnegative exponents; the review back-off factor.
pub open spec fn pow2(e: int) -> int
    decreases e,
{
    if e <= 0 {
        1
    } else {
        2 * pow2(e - 1)
    }
}

/// Addition of nonnegative times, saturating at the largest representable time.
pub open spec fn sat_add_u64(a: int, b: int) -> int {
    if a + b <= u64::MAX {
        a + b
    } else {
        u64::MAX as int
    }
}

/// Every card in `s` sits in a box below `MAX_BOX` and fits the machine fields.
pub open spec fn cards_bounded(s: Seq<CardV>) -> bool {
    forall|i: int| 0 <= i < s.len() ==> valid_card_v(#[trigger] s[i]) && s[i].box_number < MAX_BOX
}

/// The well-formed collections: bounded cards with pairwise distinct terms.
pub open spec fn wf_cards(s: Seq<CardV>) -> bool {
    cards_bounded(s) && terms_unique(s)
}

/// The state machine of one graded answer: a correct answer promotes the card
/// one box (saturating at the highest box), an incorrect answer demotes it to
/// box 0; either way the next review is `2^box` days after `now`, keyed to the
/// new box, saturating at the largest representable time.
pub open spec fn reviewed(c: CardV, correct: bool, now: int) -> CardV {
    let nb = if correct {
        if c.box_number < MAX_BOX - 1 {
            c.box_number + 1
        } else {
            c.box_number
        }
    } else {
        0
    };
    CardV {
        term: c.term,
        translation: c.translation,
        box_number: nb,
        next_review: sat_add_u64(now, pow2(nb) * 86400),
    }
}

/// Index of the first card in `s` carrying term `t`.
pub open spec fn idx_of(s: Seq<CardV>, t: Seq<char>) -> int
    decreases s.len(),
{
    if s.len() == 0 {
        0
    } else if s[0].term == t {
        0
    } else {
        1 + idx_of(s.skip(1), t)
    }
}

/// What one graded answer does to the whole collection: the card carrying `t`
/// steps through `reviewed`; an unknown term changes nothing.
pub open spec fn spec_review_system(s: Seq<CardV>, t: Seq<char>, correct: bool, now: int) -> Seq<
    CardV,
> {
    if has_term(s, t) {
        s.update(idx_of(s, t), reviewed(s[idx_of(s, t)], correct, now))
    } else {
        s
    }
}

/// The first `count` cards of `s`, in collection order, whose next review time
/// has passed.
pub open spec fn spec_due(s: Seq<CardV>, now: int, count: int) -> Seq<CardV>
    decreases s.len(),
{
    if s.len() == 0 || count <= 0 {
        Seq::empty()
    } else if s[0].next_review <= now {
        seq![s[0]] + spec_due(s.skip(1), now, count - 1)
    } else {
        spec_due(s.skip(1), now, count)
    }
}

/// How many cards of `s` are due at `now`.
pub open spec fn due_count(s: Seq<CardV>, now: int) -> int
    decreases s.len(),
{
    if s.len() == 0 {
        0
    } else {
        (if s[0].next_review <= now {
            1int
        } else {
            0int
        }) + due_count(s.skip(1), now)
    }
}

/// The model of a freshly added card: box 0, due at once.
pub open spec fn new_card_v(t: Seq<char>, tr: Seq<char>, now: int) -> CardV {
    CardV { term: t, translation: tr, box_number: 0, next_review: now }
}

pub proof fn lemma_due_count_nonneg(s: Seq<CardV>, now: int)
    ensures
        0 <= due_count(s, now) <= s.len(),
    decreases s.len(),
{
    if s.len() > 0 {
        lemma_due_count_nonneg(s.skip(1), now);
    }
}

/// A due batch holds as many cards as are due, capped at the requested count.
pub proof fn lemma_spec_due_len(s: Seq<CardV>, now: int, count: int)
    requires
        count >= 0,
    ensures
        spec_due(s, now, count).len() == if due_count(s, now) <= count {
            due_count(s, now)
        } else {
            count
        },
    decreases s.len(),
{
    lemma_due_count_nonneg(s, now);
    if s.len() > 0 && count > 0 {
        if s[0].next_review <= now {
            lemma_spec_due_len(s.skip(1), now, count - 1);
            lemma_due_count_nonneg(s.skip(1), now);
        } else {
            lemma_spec_due_len(s.skip(1), now, count);
        }
    } else if s.len() > 0 {
        lemma_due_count_nonneg(s.skip(1), now);
    }
}

/// `idx_of` finds exactly the first matching position.
pub proof fn lemma_idx_of_first(s: Seq<CardV>, t: Seq<char>, j: int)
    requires
        0 <= j < s.len(),
        s[j].term == t,
        forall|k: int| 0 <= k < j ==> s[k].term != t,
    ensures
        idx_of(s, t) == j,
    decreases s.len(),
{
    if j > 0 {
        assert(s[0].term != t);
        lemma_idx_of_first(s.skip(1), t, j - 1);
    }
}

/// The in-memory record store of the Leitner strategy: the card collection,
/// with pairwise distinct terms, in insertion order.
pub struct LeitnerSystem {
    cards: Vec<Card>,
}

impl View for LeitnerSystem {
    type V = Seq<CardV>;

    closed spec fn view(&self) -> Seq<CardV> {
        self.cards@.map_values(|c: Card| c@)
    }
}

impl LeitnerSystem {
    pub open spec fn wf(&self) -> bool {
        wf_cards(self@)
    }

    /// An empty record store.
    pub fn new() -> (s: Self)
        ensures
            s.wf(),
            s@.len() == 0,
    {
        let s = LeitnerSystem { cards: Vec::new() };
        proof {
            assert(s@ =~= Seq::<CardV>::empty());
        }
        s
    }

    /// Builds the store from a loaded collection, accepting it exactly when it
    /// is well formed: no duplicate terms and every box number in range.  A
    /// collection that fails the test is reported as corrupt and discarded.
    pub fn from_cards(cards: Vec<Card>) -> (r: Result<Self, SrsError>)
        ensures
            wf_cards(cards@.map_values(|c: Card| c@)) ==> (r matches Ok(s) && s@ == cards@.map_values(
                |c: Card| c@,
            ) && s.wf()),
            !wf_cards(cards@.map_values(|c: Card| c@)) ==> r == Err::<Self, SrsError>(
                SrsError::Corrupt,
            ),
    {
        let ghost m = cards@.map_values(|c: Card| c@);
        let n = cards.len();
        let mut j: usize = 0;
        while j < n
            invariant
                n == cards@.len(),
                m == cards@.map_values(|c: Card| c@),
                j <= n,
                forall|a: int, b: int| 0 <= a < b < j ==> m[a].term != m[b].term,
                forall|a: int| 0 <= a < j ==> m[a].box_number < MAX_BOX,
            decreases n - j,
        {
            if cards[j].box_number >= MAX_BOX {
                assert(m[j as int] == cards@[j as int]@);
                assert(!cards_bounded(m));
                return Err(SrsError::Corrupt);
            }
            let mut i: usize = 0;
            while i < j
                invariant
                    n == cards@.len(),
                    m == cards@.map_values(|c: Card| c@),
                    i <= j < n,
                    forall|a: int| 0 <= a < i ==> m[a].term != m[j as int].term,
                decreases j - i,
            {
                if cards[i].term == cards[j].term {
                    assert(m[i as int].term == m[j as int].term);
                    assert(!terms_unique(m));
                    return Err(SrsError::Corrupt);
                }
                i += 1;
            }
            j += 1;
        }
        assert(terms_unique(m));
        assert forall|a: int| 0 <= a < m.len() implies valid_card_v(#[trigger] m[a])
            && m[a].box_number < MAX_BOX by {
            assert(m[a] == cards@[a]@);
        }
        Ok(LeitnerSystem { cards })
    }

    /// Adds a new card with the given term and translation, rejecting a
    /// duplicate term without changing anything.  A fresh card starts in box 0
    /// and is due at once.
    pub fn add_card(&mut self, term: String, translation: String, now: u64) -> (r: Result<
        (),
        SrsError,
    >)
        requires
            old(self).wf(),
        ensures
            final(self).wf(),
            has_term(old(self)@, term@) ==> r == Err::<(), SrsError>(SrsError::DuplicateTerm)
                && final(self)@ == old(self)@,
            !has_term(old(self)@, term@) ==> r == Ok::<(), SrsError>(()) && final(self)@ == old(
                self,
            )@.push(new_card_v(term@, translation@, now as int)),
    {
        let n = self.cards.len();
        let mut j: usize = 0;
        while j < n
            invariant
                *self == *old(self),
                old(self).wf(),
                n == self.cards@.len(),
                j <= n,
                forall|k: int| 0 <= k < j ==> self@[k].term != term@,
            decreases n - j,
        {
            if self.cards[j].term == term {
                assert(self@[j as int].term == term@);
                assert(has_term(self@, term@));
                return Err(SrsError::DuplicateTerm);
            }
            j += 1;
        }
        assert(!has_term(self@, term@));
        let card = Card { term, translation, box_number: 0, next_review: now };
        let ghost oldm = self@;
        self.cards.push(card);
        proof {
            assert(self@ =~= oldm.push(card@));
            assert(forall|k: int|
                0 <= k < oldm.len() ==> #[trigger] self@[k].term == oldm[k].term);
        }
        Ok(())
    }

    /// The due batch: up to `count` cards whose review time has passed, in
    /// collection order, as clones.
    pub fn get_due_cards(&self, now: u64, count: usize) -> (r: Vec<Card>)
        ensures
            r@.map_values(|c: Card| c@) == spec_due(self@, now as int, count as int),
    {
        let mut r: Vec<Card> = Vec::new();
        let n = self.cards.len();
        let mut i: usize = 0;
        proof {
            assert(self@.skip(0) =~= self@);
            assert(r@.map_values(|c: Card| c@) =~= Seq::<CardV>::empty());
        }
        while i < n && r.len() < count
            invariant
                n == self.cards@.len(),
                i <= n,
                r@.len() <= count,
                spec_due(self@, now as int, count as int) == r@.map_values(|c: Card| c@)
                    + spec_due(self@.skip(i as int), now as int, count - r@.len()),
            decreases n - i,
        {
            let ghost pre = r@.map_values(|c: Card| c@);
            let ghost rest = self@.skip(i as int);
            proof {
                assert(rest.len() > 0);
                assert(rest[0] == self@[i as int]);
                assert(rest.skip(1) =~= self@.skip(i as int + 1));
            }
            if self.cards[i].next_review <= now {
                let c = self.cards[i].clone();
                r.push(c);
                proof {
                    assert(r@.map_values(|c: Card| c@) =~= pre.push(self@[i as int]));
                    assert(pre.push(self@[i as int]) =~= pre + seq![rest[0]]);
                    assert(spec_due(rest, now as int, count - pre.len()) == seq![rest[0]]
                        + spec_due(rest.skip(1), now as int, count - pre.len() - 1));
                }
            }
            i += 1;
        }
        proof {
            if i == n && r@.len() < count {
                assert(self@.skip(i as int).len() == 0);
            }
            assert(spec_due(self@.skip(i as int), now as int, count - r@.len()) =~= Seq::<
                CardV,
            >::empty());
            assert(r@.map_values(|c: Card| c@) + Seq::<CardV>::empty() =~= r@.map_values(
                |c: Card| c@,
            ));
        }
        r
    }

    /// Grades one answer for the card carrying `term`: the card steps through
    /// the box state machine; an unknown term changes nothing.
    pub fn review_card(&mut self, term: &String, correct: bool, now: u64)
        requires
            old(self).wf(),
        ensures
            final(self).wf(),
            final(self)@ == spec_review_system(old(self)@, term@, correct, now as int),
    {
        let n = self.cards.len();
        let mut j: usize = 0;
        while j < n
            invariant
                *self == *old(self),
                old(self).wf(),
                n == self.cards@.len(),
                j <= n,
                forall|k: int| 0 <= k < j ==> self@[k].term != term@,
            decreases n - j,
        {
            if self.cards[j].term == *term {
                assert(self@[j as int].term == term@);
                assert(has_term(self@, term@));
                proof {
                    lemma_idx_of_first(self@, term@, j as int);
                }
                let old_box = self.cards[j].box_number;
                let nb: u64 = if correct {
                    if old_box < MAX_BOX - 1 {
                        old_box + 1
                    } else {
                        old_box
                    }
                } else {
                    0
                };
                let interval = interval_for_box(nb);
                let next: u64 = if now <= u64::MAX - interval {
                    now + interval
                } else {
                    u64::MAX
                };
                let t = self.cards[j].term.clone();
                let tr = self.cards[j].translation.clone();
                let ghost oldm = self@;
                self.cards[j] = Card { term: t, translation: tr, box_number: nb, next_review: next };
                proof {
                    assert(self@ =~= oldm.update(j as int, reviewed(oldm[j as int], correct, now as int)));
                    assert(forall|k: int|
                        0 <= k < oldm.len() ==> #[trigger] self@[k].term == oldm[k].term);
                }
                return ;
            }
            j += 1;
        }
        assert(!has_term(self@, term@));
    }

    /// How many cards are in the store.
    pub fn len(&self) -> (r: usize)
        ensures
            r == self@.len(),
    {
        self.cards.len()
    }

    /// The whole collection as clones, in ascending order of term.
    pub fn list_cards(&self) -> (r: Vec<Card>)
        ensures
            r@.map_values(|c: Card| c@).to_multiset() == self@.to_multiset(),
            crate::order::sorted_by_term(r@.map_values(|c: Card| c@)),
    {
        crate::order::sort_cards(&self.cards)
    }

    /// The whole collection as clones, in insertion order.
    pub fn cards(&self) -> (r: Vec<Card>)
        ensures
            r@.map_values(|c: Card| c@) == self@,
    {
        let mut r: Vec<Card> = Vec::new();
        let n = self.cards.len();
        let mut i: usize = 0;
        while i < n
            invariant
                n == self.cards@.len(),
                i <= n,
                r@.map_values(|c: Card| c@) =~= self@.take(i as int),
            decreases n - i,
        {
            let ghost pre = r@.map_values(|c: Card| c@);
            let c = self.cards[i].clone();
            r.push(c);
            proof {
                assert(r@.map_values(|c: Card| c@) =~= pre.push(self@[i as int]));
                assert(self@.take(i as int + 1) =~= self@.take(i as int).push(self@[i as int]));
            }
            i += 1;
        }
        proof {
            assert(self@.take(n as int) =~= self@);
        }
        r
    }
}

/// `2^b * 86400` seconds: the back-off interval of box `b`.
fn interval_for_box(b: u64) -> (r: u64)
    requires
        b < MAX_BOX,
    ensures
        r == pow2(b as int) * 86400,
        r <= 1382400,
{
    proof {
        reveal_with_fuel(pow2, 6);
    }
    if b == 0 {
        86400
    } else if b == 1 {
        172800
    } else if b == 2 {
        345600
    } else if b == 3 {
        691200
    } else {
        1382400
    }
}

/// The model of a run of incorrect answers graded at the given times.
pub open spec fn run_incorrect(c: CardV, times: Seq<int>) -> CardV
    decreases times.len(),
{
    if times.len() == 0 {
        c
    } else {
        run_incorrect(reviewed(c, false, times[0]), times.skip(1))
    }
}

/// However many incorrect answers a card takes in a row, it ends in box 0 with
/// its next review one day (2^0 days) after the last grading time; the time
/// saturates only at the edge of the representable range.
pub proof fn lemma_incorrect_run_resets(c: CardV, times: Seq<int>)
    requires
        times.len() >= 1,
    ensures
        run_incorrect(c, times).box_number == 0,
        run_incorrect(c, times).next_review == sat_add_u64(times.last(), 86400),
        times.last() + 86400 <= u64::MAX ==> run_incorrect(c, times).next_review == times.last()
            + 86400,
    decreases times.len(),
{
    if times.len() == 1 {
        assert(run_incorrect(reviewed(c, false, times[0]), times.skip(1)) == reviewed(
            c,
            false,
            times[0],
        ));
    } else {
        lemma_incorrect_run_resets(reviewed(c, false, times[0]), times.skip(1));
        assert(times.skip(1).last() == times.last());
    }
}

/// The review interval grows with box depth: a deeper box always waits at
/// least as long for its next review.
pub proof fn lemma_interval_monotone(b1: int, b2: int)
    requires
        b1 <= b2,
    ensures
        pow2(b1) * 86400 <= pow2(b2) * 86400,
    decreases b2 - b1,
{
    if b1 < b2 {
        lemma_interval_monotone(b1, b2 - 1);
        lemma_pow2_pos(b2 - 1);
    }
}

pub proof fn lemma_pow2_pos(e: int)
    ensures
        pow2(e) >= 1,
    decreases e,
{
    if e > 0 {
        lemma_pow2_pos(e - 1);
    }
}

/// One correct answer promotes a card below the highest box by exactly one
/// box, and leaves a card in the highest box where it is; either way the next
/// review comes `2^newbox` days after the grading time, saturating only at
/// the edge of the representable range.
pub proof fn lemma_correct_promotes(c: CardV, now: int)
    ensures
        c.box_number < MAX_BOX - 1 ==> reviewed(c, true, now).box_number == c.box_number + 1
            && reviewed(c, true, now).next_review == sat_add_u64(
            now,
            pow2(c.box_number + 1) * 86400,
        ),
        c.box_number == MAX_BOX - 1 ==> reviewed(c, true, now).box_number == MAX_BOX - 1
            && reviewed(c, true, now).next_review == sat_add_u64(
            now,
            pow2(MAX_BOX - 1 as int) * 86400,
        ),
{
}

} // verus!
