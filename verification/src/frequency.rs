use vstd::prelude::*;

use crate::errors::SrsError;
use crate::models::{FreqCard, FreqCardV, terms_unique, valid_freq_card_v};

verus! {

/// Weights are carried in thousandths, so the fraction `1 - success/attempt`
/// becomes an integer.
pub const WEIGHT_SCALE: u64 = 1000;

/// A card the frequency strategy may still offer: never attempted, or not yet
/// answered correctly every time.
pub open spec fn eligible(c: FreqCardV) -> bool {
    c.attempt_count == 0 || c.success_count < c.attempt_count
}

/// The selection weight of a card, in thousandths: the untried get full
/// weight, the tried get `1 - success/attempt` rounded up, so that every
/// eligible card keeps a positive weight.
pub open spec fn spec_weight(c: FreqCardV) -> int {
    if c.attempt_count == 0 {
        WEIGHT_SCALE as int
    } else {
        ((c.attempt_count - c.success_count) * (WEIGHT_SCALE as int) + c.attempt_count - 1)
            / c.attempt_count
    }
}

/// All cards of `s` are valid frequency cards.
pub open spec fn freq_cards_valid(s: Seq<FreqCardV>) -> bool {
    forall|i: int| 0 <= i < s.len() ==> valid_freq_card_v(#[trigger] s[i])
}

/// The total weight of the not-yet-chosen cards from position `i` on.
pub open spec fn total_from(s: Seq<FreqCardV>, chosen: Set<int>, i: int) -> int
    decreases s.len() - i,
{
    if i < 0 || i >= s.len() {
        0
    } else {
        (if chosen.contains(i) {
            0int
        } else {
            spec_weight(s[i])
        }) + total_from(s, chosen, i + 1)
    }
}

/// How many eligible, not-yet-chosen cards stand at position `i` or later.
pub open spec fn eligible_from(s: Seq<FreqCardV>, chosen: Set<int>, i: int) -> int
    decreases s.len() - i,
{
    if i < 0 || i >= s.len() {
        0
    } else {
        (if !chosen.contains(i) && eligible(s[i]) {
            1int
        } else {
            0int
        }) + eligible_from(s, chosen, i + 1)
    }
}

/// The weighted walk: starting at position `i` with remaining draw `r`, the
/// first not-yet-chosen card whose weight exceeds the remainder is picked;
/// otherwise its weight is subtracted and the walk goes on.  A card never
/// attempted is always within threshold: the walk stops at it whatever the
/// remainder still is.
pub open spec fn spec_pick(s: Seq<FreqCardV>, chosen: Set<int>, r: int, i: int) -> int
    decreases s.len() - i,
{
    if i < 0 || i >= s.len() {
        -1
    } else if !chosen.contains(i) && (s[i].attempt_count == 0 || r < spec_weight(s[i])) {
        i
    } else if !chosen.contains(i) {
        spec_pick(s, chosen, r - spec_weight(s[i]), i + 1)
    } else {
        spec_pick(s, chosen, r, i + 1)
    }
}

/// The whole batch of picked indices, one pick per draw, each draw reduced
/// modulo the total weight still standing.
pub open spec fn spec_batch(s: Seq<FreqCardV>, chosen: Set<int>, draws: Seq<int>) -> Seq<int>
    decreases draws.len(),
{
    if draws.len() == 0 {
        Seq::empty()
    } else {
        let t = total_from(s, chosen, 0);
        if t <= 0 {
            Seq::empty()
        } else {
            let p = spec_pick(s, chosen, draws[0] % t, 0);
            seq![p] + spec_batch(s, chosen.insert(p), draws.skip(1))
        }
    }
}

/// A valid card's weight lies in 0..=WEIGHT_SCALE and is positive exactly for
/// the eligible.
pub proof fn lemma_weight_range(c: FreqCardV)
    requires
        valid_freq_card_v(c),
    ensures
        0 <= spec_weight(c) <= WEIGHT_SCALE,
        spec_weight(c) > 0 <==> eligible(c),
{
    if c.attempt_count != 0 {
        let a = c.attempt_count;
        let s = c.success_count;
        let k = WEIGHT_SCALE as int;
        assert(((a - s) * k + a - 1) / a >= 0) by (nonlinear_arith)
            requires
                a > 0,
                0 <= s <= a,
                k > 0,
        ;
        assert(((a - s) * k + a - 1) / a <= k) by (nonlinear_arith)
            requires
                a > 0,
                0 <= s <= a,
                k > 0,
        ;
        if s < a {
            assert(((a - s) * k + a - 1) / a >= 1) by (nonlinear_arith)
                requires
                    a > 0,
                    0 <= s < a,
                    k >= 1,
            ;
        } else {
            assert(((a - s) * k + a - 1) / a == 0) by (nonlinear_arith)
                requires
                    a > 0,
                    s == a,
                    k > 0,
            ;
        }
    }
}

/// An untried card is always eligible, with full weight, whatever its success
/// counter says.
pub proof fn lemma_untried_always_eligible(c: FreqCardV)
    ensures
        c.attempt_count == 0 ==> eligible(c) && spec_weight(c) == WEIGHT_SCALE,
{
}

/// Some weight stands exactly when some eligible card stands.
pub proof fn lemma_total_pos(s: Seq<FreqCardV>, chosen: Set<int>, i: int)
    requires
        freq_cards_valid(s),
    ensures
        total_from(s, chosen, i) >= 0,
        eligible_from(s, chosen, i) >= 0,
        total_from(s, chosen, i) > 0 <==> eligible_from(s, chosen, i) > 0,
    decreases s.len() - i,
{
    if 0 <= i < s.len() {
        lemma_weight_range(s[i]);
        lemma_total_pos(s, chosen, i + 1);
        if !chosen.contains(i) && eligible(s[i]) {
            assert(spec_weight(s[i]) > 0);
            assert(total_from(s, chosen, i) > 0);
            assert(eligible_from(s, chosen, i) > 0);
        } else {
            assert(total_from(s, chosen, i) == total_from(s, chosen, i + 1));
            assert(eligible_from(s, chosen, i) == eligible_from(s, chosen, i + 1));
        }
    }
}

/// Within the remaining total, the walk always lands on an eligible,
/// not-yet-chosen card.
pub proof fn lemma_pick_valid(s: Seq<FreqCardV>, chosen: Set<int>, r: int, i: int)
    requires
        freq_cards_valid(s),
        0 <= i,
        0 <= r < total_from(s, chosen, i),
    ensures
        i <= spec_pick(s, chosen, r, i) < s.len(),
        !chosen.contains(spec_pick(s, chosen, r, i)),
        eligible(s[spec_pick(s, chosen, r, i)]),
    decreases s.len() - i,
{
    lemma_weight_range(s[i]);
    if !chosen.contains(i) && (s[i].attempt_count == 0 || r < spec_weight(s[i])) {
        lemma_total_pos(s, chosen, i);
    } else if !chosen.contains(i) {
        lemma_pick_valid(s, chosen, r - spec_weight(s[i]), i + 1);
    } else {
        lemma_pick_valid(s, chosen, r, i + 1);
    }
}

/// Choosing one more card lowers the eligible count by exactly one.
pub proof fn lemma_eligible_decrement(s: Seq<FreqCardV>, chosen: Set<int>, p: int, i: int)
    requires
        0 <= i,
        i <= p < s.len(),
        !chosen.contains(p),
        eligible(s[p]),
    ensures
        eligible_from(s, chosen.insert(p), i) == eligible_from(s, chosen, i) - 1,
    decreases s.len() - i,
{
    if i < p {
        lemma_eligible_decrement(s, chosen, p, i + 1);
    } else {
        lemma_eligible_unchanged(s, chosen, p, i + 1);
    }
}

/// Past the chosen position, the eligible count does not change.
pub proof fn lemma_eligible_unchanged(s: Seq<FreqCardV>, chosen: Set<int>, p: int, i: int)
    requires
        p < i,
    ensures
        eligible_from(s, chosen.insert(p), i) == eligible_from(s, chosen, i),
    decreases s.len() - i,
{
    if i < s.len() && i >= 0 {
        lemma_eligible_unchanged(s, chosen, p, i + 1);
    }
}

/// The in-memory record store of the frequency-weighted strategy.
pub struct FrequencyScheduler {
    cards: Vec<FreqCard>,
}

impl View for FrequencyScheduler {
    type V = Seq<FreqCardV>;

    closed spec fn view(&self) -> Seq<FreqCardV> {
        self.cards@.map_values(|c: FreqCard| c@)
    }
}

impl FrequencyScheduler {
    pub open spec fn wf(&self) -> bool {
        freq_cards_valid(self@) && freq_terms_unique(self@)
    }

    /// An empty record store.
    pub fn new() -> (s: Self)
        ensures
            s.wf(),
            s@.len() == 0,
    {
        let s = FrequencyScheduler { cards: Vec::new() };
        proof {
            assert(s@ =~= Seq::<FreqCardV>::empty());
        }
        s
    }

    pub fn len(&self) -> (r: usize)
        ensures
            r == self@.len(),
    {
        self.cards.len()
    }

    /// Builds the store from a loaded collection, accepting it exactly when it
    /// is well formed: no duplicate terms and no card with more successes than
    /// attempts.  A collection that fails the test is reported as corrupt and
    /// discarded.
    pub fn from_cards(cards: Vec<FreqCard>) -> (r: Result<Self, SrsError>)
        ensures
            freq_cards_valid(cards@.map_values(|c: FreqCard| c@)) && freq_terms_unique(
                cards@.map_values(|c: FreqCard| c@),
            ) ==> (r matches Ok(s) && s@ == cards@.map_values(|c: FreqCard| c@) && s.wf()),
            !(freq_cards_valid(cards@.map_values(|c: FreqCard| c@)) && freq_terms_unique(
                cards@.map_values(|c: FreqCard| c@),
            )) ==> r == Err::<Self, SrsError>(SrsError::Corrupt),
    {
        let ghost m = cards@.map_values(|c: FreqCard| c@);
        let n = cards.len();
        let mut j: usize = 0;
        while j < n
            invariant
                n == cards@.len(),
                m == cards@.map_values(|c: FreqCard| c@),
                j <= n,
                forall|a: int, b: int| 0 <= a < b < j ==> m[a].term != m[b].term,
                forall|a: int| 0 <= a < j ==> valid_freq_card_v(#[trigger] m[a]),
            decreases n - j,
        {
            if cards[j].success_count > cards[j].attempt_count {
                assert(m[j as int] == cards@[j as int]@);
                assert(!freq_cards_valid(m));
                return Err(SrsError::Corrupt);
            }
            let mut i: usize = 0;
            while i < j
                invariant
                    n == cards@.len(),
                    m == cards@.map_values(|c: FreqCard| c@),
                    i <= j < n,
                    forall|a: int| 0 <= a < i ==> m[a].term != m[j as int].term,
                decreases j - i,
            {
                if cards[i].term == cards[j].term {
                    assert(m[i as int].term == m[j as int].term);
                    assert(!freq_terms_unique(m));
                    return Err(SrsError::Corrupt);
                }
                i += 1;
            }
            assert(m[j as int] == cards@[j as int]@);
            j += 1;
        }
        assert(freq_terms_unique(m));
        assert(freq_cards_valid(m));
        Ok(FrequencyScheduler { cards })
    }

    /// The whole collection as clones, in insertion order.
    pub fn cards(&self) -> (r: Vec<FreqCard>)
        ensures
            r@.map_values(|c: FreqCard| c@) == self@,
    {
        let mut r: Vec<FreqCard> = Vec::new();
        let n = self.cards.len();
        let mut i: usize = 0;
        while i < n
            invariant
                n == self.cards@.len(),
                i <= n,
                r@.map_values(|c: FreqCard| c@) =~= self@.take(i as int),
            decreases n - i,
        {
            let ghost pre = r@.map_values(|c: FreqCard| c@);
            let c = self.cards[i].clone();
            r.push(c);
            proof {
                assert(r@.map_values(|c: FreqCard| c@) =~= pre.push(self@[i as int]));
                assert(self@.take(i as int + 1) =~= self@.take(i as int).push(self@[i as int]));
            }
            i += 1;
        }
        proof {
            assert(self@.take(n as int) =~= self@);
        }
        r
    }

    /// Adds a new card, rejecting a duplicate term without changing anything.
    /// A fresh card starts with no attempts, so it is fully eligible.
    pub fn add_card(&mut self, term: String, translation: String) -> (r: Result<(), SrsError>)
        requires
            old(self).wf(),
        ensures
            final(self).wf(),
            freq_has_term(old(self)@, term@) ==> r == Err::<(), SrsError>(SrsError::DuplicateTerm)
                && final(self)@ == old(self)@,
            !freq_has_term(old(self)@, term@) ==> r == Ok::<(), SrsError>(()) && final(self)@
                == old(self)@.push(new_freq_card_v(term@, translation@)),
    {
        let n = self.cards.len();
        let mut j: usize = 0;
        while j < n
            invariant
                *self == *old(self),
                old(self).wf(),
                n == self.cards@.len(),
                j <= n,
                forall|k: int| 0 <= k < j ==> self@[k].term != term@,
            decreases n - j,
        {
            if self.cards[j].term == term {
                assert(self@[j as int].term == term@);
                assert(freq_has_term(self@, term@));
                return Err(SrsError::DuplicateTerm);
            }
            j += 1;
        }
        assert(!freq_has_term(self@, term@));
        let card = FreqCard { term, translation, success_count: 0, attempt_count: 0 };
        let ghost oldm = self@;
        self.cards.push(card);
        proof {
            assert(self@ =~= oldm.push(card@));
            assert(forall|k: int|
                0 <= k < oldm.len() ==> #[trigger] self@[k].term == oldm[k].term);
        }
        Ok(())
    }

    /// Grades one answer for the card carrying `term`: one more attempt, one
    /// more success exactly when the answer was correct.  Counters saturate at
    /// the machine limit.  An unknown term changes nothing.
    pub fn update(&mut self, term: &String, correct: bool)
        requires
            old(self).wf(),
        ensures
            final(self).wf(),
            final(self)@ == spec_freq_update(old(self)@, term@, correct),
    {
        let n = self.cards.len();
        let mut j: usize = 0;
        while j < n
            invariant
                *self == *old(self),
                old(self).wf(),
                n == self.cards@.len(),
                j <= n,
                forall|k: int| 0 <= k < j ==> self@[k].term != term@,
            decreases n - j,
        {
            if self.cards[j].term == *term {
                assert(self@[j as int].term == term@);
                assert(freq_has_term(self@, term@));
                proof {
                    lemma_freq_idx_of_first(self@, term@, j as int);
                }
                let a = self.cards[j].attempt_count;
                let s = self.cards[j].success_count;
                let na: u64 = if a < u64::MAX {
                    a + 1
                } else {
                    a
                };
                let ns: u64 = if correct {
                    if s < na {
                        s + 1
                    } else {
                        s
                    }
                } else {
                    s
                };
                let t = self.cards[j].term.clone();
                let tr = self.cards[j].translation.clone();
                let ghost oldm = self@;
                self.cards[j] = FreqCard {
                    term: t,
                    translation: tr,
                    success_count: ns,
                    attempt_count: na,
                };
                proof {
                    assert(self@ =~= oldm.update(
                        j as int,
                        freq_reviewed(oldm[j as int], correct),
                    ));
                    assert(forall|k: int|
                        0 <= k < oldm.len() ==> #[trigger] self@[k].term == oldm[k].term);
                }
                return ;
            }
            j += 1;
        }
        assert(!freq_has_term(self@, term@));
    }
}

/// Whether some card in `s` carries the term `t`.
pub open spec fn freq_has_term(s: Seq<FreqCardV>, t: Seq<char>) -> bool {
    exists|i: int| 0 <= i < s.len() && s[i].term == t
}

pub open spec fn freq_terms_unique(s: Seq<FreqCardV>) -> bool {
    forall|i: int, j: int| 0 <= i < j < s.len() ==> s[i].term != s[j].term
}

pub open spec fn new_freq_card_v(t: Seq<char>, tr: Seq<char>) -> FreqCardV {
    FreqCardV { term: t, translation: tr, success_count: 0, attempt_count: 0 }
}

/// The counter step of one graded answer, saturating at the machine limit.
pub open spec fn freq_reviewed(c: FreqCardV, correct: bool) -> FreqCardV {
    let na = if c.attempt_count < u64::MAX {
        c.attempt_count + 1
    } else {
        c.attempt_count
    };
    let ns = if correct {
        if c.success_count < na {
            c.success_count + 1
        } else {
            c.success_count
        }
    } else {
        c.success_count
    };
    FreqCardV { term: c.term, translation: c.translation, success_count: ns, attempt_count: na }
}

pub open spec fn freq_idx_of(s: Seq<FreqCardV>, t: Seq<char>) -> int
    decreases s.len(),
{
    if s.len() == 0 {
        0
    } else if s[0].term == t {
        0
    } else {
        1 + freq_idx_of(s.skip(1), t)
    }
}

pub open spec fn spec_freq_update(s: Seq<FreqCardV>, t: Seq<char>, correct: bool) -> Seq<
    FreqCardV,
> {
    if freq_has_term(s, t) {
        s.update(freq_idx_of(s, t), freq_reviewed(s[freq_idx_of(s, t)], correct))
    } else {
        s
    }
}

/// The positions marked `true`.
pub open spec fn taken_set(t: Seq<bool>) -> Set<int> {
    Set::new(|i: int| 0 <= i < t.len() && t[i])
}

/// The card's weight in thousandths.
fn weight_of(c: &FreqCard) -> (r: u64)
    requires
        valid_freq_card_v(c@),
    ensures
        r == spec_weight(c@),
        r <= WEIGHT_SCALE,
{
    proof {
        lemma_weight_range(c@);
    }
    if c.attempt_count == 0 {
        WEIGHT_SCALE
    } else {
        let a = c.attempt_count as u128;
        let s = c.success_count as u128;
        ((((a - s) * (WEIGHT_SCALE as u128)) + (a - 1)) / a) as u64
    }
}

/// The total weight of the unchosen cards.
fn total_weight(cards: &Vec<FreqCard>, taken: &Vec<bool>) -> (r: u128)
    requires
        freq_cards_valid(cards@.map_values(|c: FreqCard| c@)),
        taken@.len() == cards@.len(),
    ensures
        r == total_from(cards@.map_values(|c: FreqCard| c@), taken_set(taken@), 0),
{
    let ghost m = cards@.map_values(|c: FreqCard| c@);
    let ghost ch = taken_set(taken@);
    let n = cards.len();
    let mut acc: u128 = 0;
    let mut i: usize = 0;
    while i < n
        invariant
            n == cards@.len(),
            taken@.len() == n,
            m == cards@.map_values(|c: FreqCard| c@),
            ch == taken_set(taken@),
            freq_cards_valid(m),
            i <= n,
            acc as int <= 1000 * (i as int),
            total_from(m, ch, 0) == acc + total_from(m, ch, i as int),
        decreases n - i,
    {
        if !taken[i] {
            assert(m[i as int] == cards@[i as int]@);
            let w = weight_of(&cards[i]);
            assert(acc as int + w as int <= 1000 * (i as int) + 1000);
            acc = acc + w as u128;
        }
        proof {
            assert(total_from(m, ch, i as int) == (if ch.contains(i as int) {
                0int
            } else {
                spec_weight(m[i as int])
            }) + total_from(m, ch, i as int + 1));
        }
        i += 1;
    }
    acc
}

/// The weighted walk over the unchosen cards, landing where the remaining
/// draw falls.
fn pick_index(cards: &Vec<FreqCard>, taken: &Vec<bool>, r0: u128) -> (p: usize)
    requires
        freq_cards_valid(cards@.map_values(|c: FreqCard| c@)),
        taken@.len() == cards@.len(),
        r0 < total_from(cards@.map_values(|c: FreqCard| c@), taken_set(taken@), 0),
    ensures
        p == spec_pick(cards@.map_values(|c: FreqCard| c@), taken_set(taken@), r0 as int, 0),
        p < cards@.len(),
        !taken_set(taken@).contains(p as int),
        eligible(cards@.map_values(|c: FreqCard| c@)[p as int]),
{
    let ghost m = cards@.map_values(|c: FreqCard| c@);
    let ghost ch = taken_set(taken@);
    let n = cards.len();
    let mut r = r0;
    let mut i: usize = 0;
    while i < n
        invariant
            n == cards@.len(),
            taken@.len() == n,
            m == cards@.map_values(|c: FreqCard| c@),
            ch == taken_set(taken@),
            freq_cards_valid(m),
            i <= n,
            r < total_from(m, ch, i as int),
            spec_pick(m, ch, r0 as int, 0) == spec_pick(m, ch, r as int, i as int),
        decreases n - i,
    {
        proof {
            assert(total_from(m, ch, i as int) == (if ch.contains(i as int) {
                0int
            } else {
                spec_weight(m[i as int])
            }) + total_from(m, ch, i as int + 1));
            lemma_total_pos(m, ch, i as int + 1);
        }
        if !taken[i] {
            if cards[i].attempt_count == 0 {
                return i;
            }
            let w = weight_of(&cards[i]);
            if r < w as u128 {
                proof {
                    lemma_weight_range(m[i as int]);
                }
                return i;
            }
            r = r - w as u128;
        }
        i += 1;
    }
    proof {
        assert(total_from(m, ch, n as int) == 0);
        assert(false);
    }
    vstd::pervasive::unreached()
}

impl FrequencyScheduler {
    /// Selects a batch of `count` distinct card positions, one weighted pick
    /// per draw: each draw is reduced modulo the total weight of the cards
    /// still standing and walked over them in collection order.  Cards already
    /// picked in this batch are excluded; a card answered correctly every time
    /// carries no weight, while a card never attempted stops the walk outright.
    /// The batch is refused when fewer eligible cards stand than the count
    /// asks for, and never holds a position twice.
    pub fn select_indices(&self, count: usize, draws: &Vec<u64>) -> (r: Result<Vec<usize>, SrsError>)
        requires
            self.wf(),
            draws@.len() == count,
        ensures
            count > eligible_from(self@, Set::empty(), 0) ==> r == Err::<Vec<usize>, SrsError>(
                SrsError::InsufficientDue,
            ),
            count <= eligible_from(self@, Set::empty(), 0) ==> (r matches Ok(v) && v@.len()
                == count && v@.map_values(|u: usize| u as int) == spec_batch(
                self@,
                Set::empty(),
                draws@.map_values(|d: u64| d as int),
            ) && (forall|a: int, b: int| 0 <= a < b < count ==> v@[a] != v@[b]) && (forall|a: int|
                0 <= a < count ==> v@[a] < self@.len() && eligible(self@[v@[a] as int]))),
    {
        let ghost m = self@;
        let ghost draws_int = draws@.map_values(|d: u64| d as int);
        let n = self.cards.len();
        let mut ec: usize = 0;
        let mut i: usize = 0;
        while i < n
            invariant
                n == self.cards@.len(),
                m == self@,
                self.wf(),
                i <= n,
                ec <= i,
                eligible_from(m, Set::empty(), 0) == ec + eligible_from(m, Set::empty(), i as int),
            decreases n - i,
        {
            proof {
                assert(eligible_from(m, Set::empty(), i as int) == (if eligible(m[i as int]) {
                    1int
                } else {
                    0int
                }) + eligible_from(m, Set::empty(), i as int + 1));
            }
            let a = self.cards[i].attempt_count;
            let s = self.cards[i].success_count;
            if a == 0 || s < a {
                assert(eligible(m[i as int]));
                ec += 1;
            } else {
                assert(!eligible(m[i as int]));
            }
            i += 1;
        }
        proof {
            assert(eligible_from(m, Set::empty(), n as int) == 0);
        }
        if count > ec {
            return Err(SrsError::InsufficientDue);
        }
        let mut taken: Vec<bool> = Vec::new();
        let mut t0: usize = 0;
        while t0 < n
            invariant
                taken@.len() == t0,
                t0 <= n,
                forall|q: int| 0 <= q < t0 ==> !taken@[q],
            decreases n - t0,
        {
            taken.push(false);
            t0 += 1;
        }
        proof {
            assert(taken_set(taken@) =~= Set::<int>::empty());
        }
        let mut out: Vec<usize> = Vec::new();
        let mut k: usize = 0;
        proof {
            assert(out@.map_values(|u: usize| u as int) =~= Seq::<int>::empty());
            assert(draws_int.skip(0) =~= draws_int);
            assert(Seq::<int>::empty() + spec_batch(m, taken_set(taken@), draws_int) =~= spec_batch(
                m,
                taken_set(taken@),
                draws_int,
            ));
        }
        while k < count
            invariant
                n == self.cards@.len(),
                m == self@,
                self.wf(),
                draws@.len() == count,
                draws_int == draws@.map_values(|d: u64| d as int),
                k <= count,
                out@.len() == k,
                taken@.len() == n,
                count <= ec,
                eligible_from(m, taken_set(taken@), 0) == ec - k,
                forall|a: int| 0 <= a < k ==> out@[a] < n && taken@[out@[a] as int],
                forall|a: int, b: int| 0 <= a < b < k ==> out@[a] != out@[b],
                forall|a: int| 0 <= a < k ==> eligible(m[out@[a] as int]),
                spec_batch(m, Set::empty(), draws_int) == out@.map_values(|u: usize| u as int)
                    + spec_batch(m, taken_set(taken@), draws_int.skip(k as int)),
            decreases count - k,
        {
            let ghost ch = taken_set(taken@);
            proof {
                lemma_total_pos(m, ch, 0);
            }
            let t = total_weight(&self.cards, &taken);
            assert(t > 0);
            let d = draws[k];
            let r = (d as u128) % t;
            proof {
                assert(r as int == draws_int[k as int] % (t as int));
            }
            let p = pick_index(&self.cards, &taken, r);
            let ghost pre = out@.map_values(|u: usize| u as int);
            out.push(p);
            taken[p] = true;
            proof {
                assert(taken_set(taken@) =~= ch.insert(p as int));
                lemma_eligible_decrement(m, ch, p as int, 0);
                assert(out@.map_values(|u: usize| u as int) =~= pre.push(p as int));
                assert(draws_int.skip(k as int)[0] == draws_int[k as int]);
                assert(draws_int.skip(k as int).skip(1) =~= draws_int.skip(k as int + 1));
                assert(spec_batch(m, ch, draws_int.skip(k as int)) == seq![p as int] + spec_batch(
                    m,
                    ch.insert(p as int),
                    draws_int.skip(k as int + 1),
                ));
                assert(pre + (seq![p as int] + spec_batch(
                    m,
                    ch.insert(p as int),
                    draws_int.skip(k as int + 1),
                )) =~= pre.push(p as int) + spec_batch(
                    m,
                    ch.insert(p as int),
                    draws_int.skip(k as int + 1),
                ));
            }
            k += 1;
        }
        proof {
            assert(draws_int.skip(count as int).len() == 0);
            assert(spec_batch(m, taken_set(taken@), draws_int.skip(count as int)) =~= Seq::<
                int,
            >::empty());
            assert(out@.map_values(|u: usize| u as int) + Seq::<int>::empty() =~= out@.map_values(
                |u: usize| u as int,
            ));
        }
        Ok(out)
    }

    /// A clone of the card at position `i`.
    pub fn card_at(&self, i: usize) -> (c: FreqCard)
        requires
            i < self@.len(),
        ensures
            c@ == self@[i as int],
    {
        self.cards[i].clone()
    }
}

pub proof fn lemma_freq_idx_of_first(s: Seq<FreqCardV>, t: Seq<char>, j: int)
    requires
        0 <= j < s.len(),
        s[j].term == t,
        forall|k: int| 0 <= k < j ==> s[k].term != t,
    ensures
        freq_idx_of(s, t) == j,
    decreases s.len(),
{
    if j > 0 {
        assert(s[0].term != t);
        lemma_freq_idx_of_first(s.skip(1), t, j - 1);
    }
}

} // verus!
