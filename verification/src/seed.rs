use vstd::prelude::*;

use crate::codec::{
    encode_num_into, expect_at, lemma_enc_num_digits, lemma_parse_num_consumes,
    lemma_parse_num_enc, parse_num_at, push_char, spec_enc_num, spec_expect, spec_parse_num,
};
use crate::errors::SrsError;
use crate::frequency::FrequencyScheduler;
use crate::models::{FreqCard, FreqCardV};

verus! {

/// The printed form of a replay seed: the chosen positions as decimal
/// numbers, joined by commas, in batch order.
pub open spec fn spec_seed_tail(s: Seq<int>) -> Seq<char>
    decreases s.len(),
{
    if s.len() == 0 {
        Seq::empty()
    } else {
        seq![','] + spec_enc_num(s[0] as nat) + spec_seed_tail(s.skip(1))
    }
}

pub open spec fn spec_encode_seed(s: Seq<int>) -> Seq<char> {
    if s.len() == 0 {
        Seq::empty()
    } else {
        spec_enc_num(s[0] as nat) + spec_seed_tail(s.skip(1))
    }
}

/// Writes a batch's positions as a seed string, for a later replay of the
/// same batch against an unchanged collection.
pub fn encode_seed(indices: &Vec<u64>) -> (r: String)
    ensures
        r@ == spec_encode_seed(indices@.map_values(|u: u64| u as int)),
{
    let ghost m = indices@.map_values(|u: u64| u as int);
    let mut out = String::new();
    let n = indices.len();
    if n == 0 {
        return out;
    }
    encode_num_into(indices[0], &mut out);
    proof {
        assert(out@ =~= spec_enc_num(m[0] as nat) + spec_seed_tail_upto(m, 1));
    }
    let mut i: usize = 1;
    while i < n
        invariant
            n == indices@.len(),
            m == indices@.map_values(|u: u64| u as int),
            1 <= i <= n,
            out@ == spec_enc_num(m[0] as nat) + spec_seed_tail_upto(m, i as int),
        decreases n - i,
    {
        push_char(&mut out, ',');
        encode_num_into(indices[i], &mut out);
        proof {
            lemma_seed_tail_snoc(m, i as int);
            assert(out@ =~= spec_enc_num(m[0] as nat) + spec_seed_tail_upto(m, i as int + 1));
        }
        i += 1;
    }
    proof {
        lemma_seed_tail_full(m);
    }
    out
}

/// The comma-joined tail over positions 1..upto of `s`.
pub open spec fn spec_seed_tail_upto(s: Seq<int>, upto: int) -> Seq<char>
    decreases upto,
{
    if upto <= 1 {
        Seq::empty()
    } else {
        spec_seed_tail_upto(s, upto - 1) + (seq![','] + spec_enc_num(s[upto - 1] as nat))
    }
}

proof fn lemma_seed_tail_snoc(s: Seq<int>, i: int)
    requires
        1 <= i,
    ensures
        spec_seed_tail_upto(s, i + 1) == spec_seed_tail_upto(s, i) + (seq![','] + spec_enc_num(
            s[i] as nat,
        )),
{
}

proof fn lemma_seed_tail_eq(s: Seq<int>, from: int)
    requires
        1 <= from <= s.len(),
    ensures
        spec_seed_tail_upto(s, s.len() as int) == spec_seed_tail_upto(s, from)
            + spec_seed_tail(s.skip(from)),
    decreases s.len() - from,
{
    if from == s.len() {
        assert(s.skip(from).len() == 0);
        assert(spec_seed_tail_upto(s, from) + Seq::<char>::empty() =~= spec_seed_tail_upto(
            s,
            from,
        ));
    } else {
        lemma_seed_tail_eq(s, from + 1);
        lemma_seed_tail_snoc(s, from);
        assert(s.skip(from)[0] == s[from]);
        assert(s.skip(from).skip(1) =~= s.skip(from + 1));
        assert(spec_seed_tail(s.skip(from)) == seq![','] + spec_enc_num(s[from] as nat)
            + spec_seed_tail(s.skip(from + 1)));
        assert((spec_seed_tail_upto(s, from) + (seq![','] + spec_enc_num(s[from] as nat)))
            + spec_seed_tail(s.skip(from + 1)) =~= spec_seed_tail_upto(s, from) + ((seq![',']
            + spec_enc_num(s[from] as nat)) + spec_seed_tail(s.skip(from + 1))));
    }
}

proof fn lemma_seed_tail_full(s: Seq<int>)
    requires
        s.len() >= 1,
    ensures
        spec_seed_tail_upto(s, s.len() as int) == spec_seed_tail(s.skip(1)),
{
    lemma_seed_tail_eq(s, 1);
    assert(spec_seed_tail_upto(s, 1) =~= Seq::<char>::empty());
    assert(Seq::<char>::empty() + spec_seed_tail(s.skip(1)) =~= spec_seed_tail(s.skip(1)));
}

/// The rest of a parsed seed, after the first number: zero or more
/// comma-then-number groups, ending with the text.  The fuel only bounds the
/// recursion; any fuel at least the text's length reads the same list.
pub open spec fn spec_parse_seed_tail(s: Seq<char>, fuel: nat) -> Option<Seq<int>>
    decreases fuel,
{
    if s.len() == 0 {
        Some(Seq::empty())
    } else if fuel == 0 {
        None
    } else {
        match spec_expect(s, ',') {
            Some(r) => match spec_parse_num(r) {
                Some((v, r2)) => match spec_parse_seed_tail(r2, (fuel - 1) as nat) {
                    Some(vs) => Some(seq![v] + vs),
                    None => None,
                },
                None => None,
            },
            None => None,
        }
    }
}

/// The positions a seed text holds: a comma-joined list of decimal numbers,
/// the whole text and nothing more; the empty text holds the empty list.
pub open spec fn spec_parse_seed(s: Seq<char>) -> Option<Seq<int>> {
    if s.len() == 0 {
        Some(Seq::empty())
    } else {
        match spec_parse_num(s) {
            Some((v, r)) => match spec_parse_seed_tail(r, r.len()) {
                Some(vs) => Some(seq![v] + vs),
                None => None,
            },
            None => None,
        }
    }
}

/// Each tail step eats a comma and at least one digit, so any fuel at least
/// the text's length reads the same.
proof fn lemma_seed_tail_fuel(s: Seq<char>, f1: nat, f2: nat)
    requires
        f1 >= s.len(),
        f2 >= s.len(),
    ensures
        spec_parse_seed_tail(s, f1) == spec_parse_seed_tail(s, f2),
    decreases s.len(),
{
    if s.len() > 0 {
        if let Some(r) = spec_expect(s, ',') {
            if let Some((v, r2)) = spec_parse_num(r) {
                lemma_parse_num_consumes(r);
                lemma_seed_tail_fuel(r2, (f1 - 1) as nat, (f2 - 1) as nat);
            }
        }
    }
}

proof fn lemma_seed_tail_round_trip(ixs: Seq<int>, fuel: nat)
    requires
        fuel >= spec_seed_tail(ixs).len(),
        forall|q: int| 0 <= q < ixs.len() ==> 0 <= #[trigger] ixs[q] <= u64::MAX,
    ensures
        spec_parse_seed_tail(spec_seed_tail(ixs), fuel) == Some(ixs),
    decreases ixs.len(),
{
    if ixs.len() == 0 {
        assert(spec_seed_tail(ixs) =~= Seq::<char>::empty());
        assert(ixs =~= Seq::<int>::empty());
    } else {
        let t = spec_seed_tail(ixs);
        let rest = spec_seed_tail(ixs.skip(1));
        lemma_enc_num_digits(ixs[0] as nat);
        assert(t[0] == ',');
        assert(spec_expect(t, ',') == Some(t.skip(1)));
        assert(t.skip(1) =~= spec_enc_num(ixs[0] as nat) + rest);
        if ixs.skip(1).len() > 0 {
            assert(rest[0] == ',');
        }
        lemma_parse_num_enc(ixs[0] as nat, rest);
        lemma_seed_tail_round_trip(ixs.skip(1), (fuel - 1) as nat);
        assert(seq![ixs[0]] + ixs.skip(1) =~= ixs);
    }
}

/// The seed round trip: a written seed reads back as exactly the positions it
/// was written from.
pub proof fn lemma_seed_round_trip(ixs: Seq<int>)
    requires
        forall|q: int| 0 <= q < ixs.len() ==> 0 <= #[trigger] ixs[q] <= u64::MAX,
    ensures
        spec_parse_seed(spec_encode_seed(ixs)) == Some(ixs),
{
    if ixs.len() == 0 {
        assert(spec_encode_seed(ixs).len() == 0);
        assert(ixs =~= Seq::<int>::empty());
    } else {
        let rest = spec_seed_tail(ixs.skip(1));
        lemma_enc_num_digits(ixs[0] as nat);
        assert(spec_encode_seed(ixs).len() > 0);
        if ixs.skip(1).len() > 0 {
            assert(rest[0] == ',');
        }
        lemma_parse_num_enc(ixs[0] as nat, rest);
        lemma_seed_tail_round_trip(ixs.skip(1), rest.len());
        assert(seq![ixs[0]] + ixs.skip(1) =~= ixs);
    }
}

/// Reads a seed text back into positions, refusing anything that is not
/// exactly a comma-joined list of decimal numbers.
pub fn decode_seed(s: &str) -> (r: Result<Vec<u64>, SrsError>)
    ensures
        spec_parse_seed(s@) matches Some(vs) ==> (r matches Ok(v) && v@.map_values(
            |u: u64| u as int,
        ) == vs),
        spec_parse_seed(s@) is None ==> r == Err::<Vec<u64>, SrsError>(SrsError::ReplayMalformed),
{
    let n = s.unicode_len();
    if n == 0 {
        let out: Vec<u64> = Vec::new();
        proof {
            assert(out@.map_values(|u: u64| u as int) =~= Seq::<int>::empty());
        }
        return Ok(out);
    }
    proof {
        assert(s@.skip(0) =~= s@);
    }
    let (v0, j0) = match parse_num_at(s, 0) {
        None => {
            return Err(SrsError::ReplayMalformed);
        },
        Some(p) => p,
    };
    let mut out: Vec<u64> = Vec::new();
    out.push(v0);
    let mut j = j0;
    proof {
        assert(out@.map_values(|u: u64| u as int) =~= seq![v0 as int]);
        if let Some(vs) = spec_parse_seed(s@) {
            if let Some(vs2) = spec_parse_seed_tail(s@.skip(j as int), s@.skip(j as int).len()) {
                assert(vs =~= seq![v0 as int] + vs2);
            }
        }
    }
    while j < n
        invariant
            n == s@.len(),
            j <= n,
            spec_parse_seed(s@) matches Some(vs) ==> (spec_parse_seed_tail(
                s@.skip(j as int),
                s@.skip(j as int).len(),
            ) matches Some(vs2) && vs == out@.map_values(|u: u64| u as int) + vs2),
            spec_parse_seed(s@) is None ==> spec_parse_seed_tail(
                s@.skip(j as int),
                s@.skip(j as int).len(),
            ) is None,
        decreases n - j,
    {
        let ghost pre = out@.map_values(|u: u64| u as int);
        let ghost rem = s@.skip(j as int);
        let j1 = match expect_at(s, j, ',') {
            None => {
                proof {
                    assert(spec_parse_seed_tail(rem, rem.len()) is None);
                }
                return Err(SrsError::ReplayMalformed);
            },
            Some(x) => x,
        };
        let (v, j2) = match parse_num_at(s, j1) {
            None => {
                proof {
                    assert(spec_parse_seed_tail(rem, rem.len()) is None);
                }
                return Err(SrsError::ReplayMalformed);
            },
            Some(p) => p,
        };
        out.push(v);
        proof {
            assert(spec_expect(rem, ',') == Some(s@.skip(j1 as int)));
            assert(spec_parse_num(s@.skip(j1 as int)) == Some((v as int, s@.skip(j2 as int))));
            lemma_seed_tail_fuel(
                s@.skip(j2 as int),
                (rem.len() - 1) as nat,
                s@.skip(j2 as int).len(),
            );
            assert(out@.map_values(|u: u64| u as int) =~= pre.push(v as int));
            if let Some(vs2) = spec_parse_seed_tail(rem, rem.len()) {
                if let Some(vs3) = spec_parse_seed_tail(
                    s@.skip(j2 as int),
                    s@.skip(j2 as int).len(),
                ) {
                    assert(vs2 == seq![v as int] + vs3);
                    assert(pre + (seq![v as int] + vs3) =~= pre.push(v as int) + vs3);
                }
            }
        }
        j = j2;
    }
    proof {
        assert(s@.skip(j as int).len() == 0);
        assert(spec_parse_seed_tail(s@.skip(j as int), s@.skip(j as int).len()) == Some(
            Seq::<int>::empty(),
        ));
        assert(out@.map_values(|u: u64| u as int) + Seq::<int>::empty() =~= out@.map_values(
            |u: u64| u as int,
        ));
    }
    Ok(out)
}

impl FrequencyScheduler {
    /// Rebuilds a previously selected batch from its recorded positions.  The
    /// seed is only meaningful against the unchanged collection it was drawn
    /// from: any position outside the current collection is refused, and
    /// nothing is changed either way.
    pub fn replay_batch(&self, indices: &Vec<u64>) -> (r: Result<Vec<FreqCard>, SrsError>)
        ensures
            (exists|q: int| 0 <= q < indices@.len() && #[trigger] indices@[q] >= self@.len())
                ==> r == Err::<Vec<FreqCard>, SrsError>(SrsError::ReplayOutOfRange),
            (forall|q: int| 0 <= q < indices@.len() ==> #[trigger] indices@[q] < self@.len())
                ==> (r matches Ok(v) && v@.len() == indices@.len() && (forall|q: int|
                0 <= q < indices@.len() ==> #[trigger] v@[q]@ == self@[indices@[q] as int])),
    {
        let n = self.len();
        let mut out: Vec<FreqCard> = Vec::new();
        let count = indices.len();
        let mut q: usize = 0;
        while q < count
            invariant
                n == self@.len(),
                count == indices@.len(),
                q <= count,
                out@.len() == q,
                forall|w: int| 0 <= w < q ==> #[trigger] indices@[w] < self@.len(),
                forall|w: int| 0 <= w < q ==> #[trigger] out@[w]@ == self@[indices@[w] as int],
            decreases count - q,
        {
            let ix = indices[q];
            if ix >= n as u64 {
                assert(indices@[q as int] >= self@.len());
                return Err(SrsError::ReplayOutOfRange);
            }
            let c = self.card_at(ix as usize);
            out.push(c);
            q += 1;
        }
        Ok(out)
    }
}

} // verus!
