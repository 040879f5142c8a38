use vstd::prelude::*;

verus! {

/// Number of Leitner boxes: box numbers run from 0 to `MAX_BOX - 1`.
pub const MAX_BOX: u64 = 5;

/// Mathematical model of a box-scheduled vocabulary card.
#[verifier::ext_equal]
pub struct CardV {
    pub term: Seq<char>,
    pub translation: Seq<char>,
    pub box_number: int,
    pub next_review: int,
}

/// A vocabulary card scheduled by the Leitner-box strategy: the term is the
/// unique key, `box_number` the current box, and `next_review` the earliest
/// time (seconds) at which the card is due again.
pub struct Card {
    pub term: String,
    pub translation: String,
    pub box_number: u64,
    pub next_review: u64,
}

impl View for Card {
    type V = CardV;

    open spec fn view(&self) -> CardV {
        CardV {
            term: self.term@,
            translation: self.translation@,
            box_number: self.box_number as int,
            next_review: self.next_review as int,
        }
    }
}

impl Clone for Card {
    fn clone(&self) -> (r: Self)
        ensures
            r@ == self@,
    {
        Card {
            term: self.term.clone(),
            translation: self.translation.clone(),
            box_number: self.box_number,
            next_review: self.next_review,
        }
    }
}

/// A card model whose numeric fields fit the machine representation.
pub open spec fn valid_card_v(c: CardV) -> bool {
    &&& 0 <= c.box_number <= u64::MAX
    &&& 0 <= c.next_review <= u64::MAX
}

/// Mathematical model of a frequency-scheduled vocabulary card.
#[verifier::ext_equal]
pub struct FreqCardV {
    pub term: Seq<char>,
    pub translation: Seq<char>,
    pub success_count: int,
    pub attempt_count: int,
}

/// A vocabulary card scheduled by the frequency-weighted strategy: the term is
/// the unique key, and the success/attempt counters record past performance.
pub struct FreqCard {
    pub term: String,
    pub translation: String,
    pub success_count: u64,
    pub attempt_count: u64,
}

impl View for FreqCard {
    type V = FreqCardV;

    open spec fn view(&self) -> FreqCardV {
        FreqCardV {
            term: self.term@,
            translation: self.translation@,
            success_count: self.success_count as int,
            attempt_count: self.attempt_count as int,
        }
    }
}

impl Clone for FreqCard {
    fn clone(&self) -> (r: Self)
        ensures
            r@ == self@,
    {
        FreqCard {
            term: self.term.clone(),
            translation: self.translation.clone(),
            success_count: self.success_count,
            attempt_count: self.attempt_count,
        }
    }
}

/// A frequency card never records more successes than attempts.
pub open spec fn valid_freq_card_v(c: FreqCardV) -> bool {
    &&& 0 <= c.success_count <= c.attempt_count <= u64::MAX
}

/// Whether some card in `s` carries the term `t`.
pub open spec fn has_term(s: Seq<CardV>, t: Seq<char>) -> bool {
    exists|i: int| 0 <= i < s.len() && s[i].term == t
}

/// No two cards in `s` share a term.
pub open spec fn terms_unique(s: Seq<CardV>) -> bool {
    forall|i: int, j: int| 0 <= i < j < s.len() ==> s[i].term != s[j].term
}

} // verus!
