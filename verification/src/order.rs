use vstd::prelude::*;

use vstd::seq_lib::lemma_multiset_commutative;

use crate::models::{Card, CardV};

verus! {

/// Lexicographic order on character sequences, by code point.
pub open spec fn lex_le(a: Seq<char>, b: Seq<char>) -> bool
    decreases a.len(),
{
    if a.len() == 0 {
        true
    } else if b.len() == 0 {
        false
    } else if (a[0] as int) < (b[0] as int) {
        true
    } else if (a[0] as int) > (b[0] as int) {
        false
    } else {
        lex_le(a.skip(1), b.skip(1))
    }
}

/// Any two sequences compare one way or the other.
pub proof fn lemma_lex_total(a: Seq<char>, b: Seq<char>)
    ensures
        lex_le(a, b) || lex_le(b, a),
    decreases a.len(),
{
    if a.len() > 0 && b.len() > 0 && a[0] == b[0] {
        lemma_lex_total(a.skip(1), b.skip(1));
    }
}

pub proof fn lemma_lex_trans(a: Seq<char>, b: Seq<char>, c: Seq<char>)
    requires
        lex_le(a, b),
        lex_le(b, c),
    ensures
        lex_le(a, c),
    decreases a.len(),
{
    if a.len() > 0 {
        assert(b.len() > 0);
        assert(c.len() > 0);
        if a[0] == b[0] && b[0] == c[0] {
            lemma_lex_trans(a.skip(1), b.skip(1), c.skip(1));
        }
    }
}

/// Whether the cards stand in ascending order of term.
pub open spec fn sorted_by_term(s: Seq<CardV>) -> bool {
    forall|i: int, j: int| 0 <= i < j < s.len() ==> lex_le(#[trigger] s[i].term, #[trigger] s[j].term)
}

/// Compares two strings lexicographically by code point.
pub fn str_le(x: &str, y: &str) -> (r: bool)
    ensures
        r == lex_le(x@, y@),
{
    let xl = x.unicode_len();
    let yl = y.unicode_len();
    let mut i: usize = 0;
    proof {
        assert(x@.skip(0) =~= x@);
        assert(y@.skip(0) =~= y@);
    }
    loop
        invariant
            xl == x@.len(),
            yl == y@.len(),
            i <= xl,
            i <= yl,
            lex_le(x@, y@) == lex_le(x@.skip(i as int), y@.skip(i as int)),
        ensures
            lex_le(x@, y@) == lex_le(x@.skip(i as int), y@.skip(i as int)),
            i <= xl && i <= yl,
            i >= xl || i >= yl || x@[i as int] != y@[i as int],
        decreases xl - i,
    {
        if i >= xl || i >= yl {
            break ;
        }
        let cx = x.get_char(i);
        let cy = y.get_char(i);
        if cx == cy {
            proof {
                assert(x@.skip(i as int)[0] == x@[i as int]);
                assert(y@.skip(i as int)[0] == y@[i as int]);
                assert(x@.skip(i as int).skip(1) =~= x@.skip(i as int + 1));
                assert(y@.skip(i as int).skip(1) =~= y@.skip(i as int + 1));
            }
            i += 1;
        } else {
            break ;
        }
    }
    proof {
        if i < xl && i < yl {
            assert(x@.skip(i as int)[0] == x@[i as int]);
            assert(y@.skip(i as int)[0] == y@[i as int]);
        }
    }
    if i >= xl {
        true
    } else if i >= yl {
        false
    } else {
        let cx = x.get_char(i);
        let cy = y.get_char(i);
        (cx as u32) < (cy as u32)
    }
}

/// The cards in ascending order of term; a permutation of the input.
pub fn sort_cards(cards: &Vec<Card>) -> (r: Vec<Card>)
    ensures
        r@.map_values(|c: Card| c@).to_multiset() == cards@.map_values(
            |c: Card| c@,
        ).to_multiset(),
        sorted_by_term(r@.map_values(|c: Card| c@)),
{
    let ghost m = cards@.map_values(|c: Card| c@);
    let mut out: Vec<Card> = Vec::new();
    let n = cards.len();
    let mut i: usize = 0;
    proof {
        assert(out@.map_values(|c: Card| c@) =~= Seq::<CardV>::empty());
        assert(m.take(0) =~= Seq::<CardV>::empty());
        assert(Seq::<CardV>::empty().to_multiset() =~= Seq::<CardV>::empty().to_multiset());
    }
    while i < n
        invariant
            n == cards@.len(),
            m == cards@.map_values(|c: Card| c@),
            i <= n,
            out@.map_values(|c: Card| c@).to_multiset() == m.take(i as int).to_multiset(),
            sorted_by_term(out@.map_values(|c: Card| c@)),
        decreases n - i,
    {
        let ghost ov = out@.map_values(|c: Card| c@);
        let c = cards[i].clone();
        let ghost cv = c@;
        proof {
            assert(cv == m[i as int]);
        }
        let olen = out.len();
        let mut pos: usize = 0;
        while pos < olen
            invariant
                olen == out@.len(),
                ov == out@.map_values(|c2: Card| c2@),
                pos <= olen,
                forall|k: int| 0 <= k < pos ==> lex_le((#[trigger] ov[k]).term, cv.term),
                cv == c@,
            ensures
                pos <= olen,
                forall|k: int| 0 <= k < pos ==> lex_le((#[trigger] ov[k]).term, cv.term),
                pos < olen ==> lex_le(cv.term, ov[pos as int].term),
            decreases olen - pos,
        {
            if !str_le(out[pos].term.as_str(), c.term.as_str()) {
                proof {
                    lemma_lex_total(ov[pos as int].term, cv.term);
                }
                break ;
            }
            assert(lex_le(ov[pos as int].term, cv.term));
            pos += 1;
        }
        let ghost oldcards = out@;
        out.insert(pos, c);
        proof {
            oldcards.insert_ensures(pos as int, c);
            let nv = out@.map_values(|c2: Card| c2@);
            assert forall|k: int| 0 <= k < nv.len() implies #[trigger] nv[k] == ov.insert(
                pos as int,
                cv,
            )[k] by {
                ov.insert_ensures(pos as int, cv);
                if k < pos {
                    assert(out@[k] == oldcards[k]);
                } else if k == pos {
                    assert(out@[k] == c);
                } else {
                    assert(out@[k] == oldcards[k - 1]);
                }
            }
            assert(nv =~= ov.insert(pos as int, cv));
            // The new element count: an insert adds exactly the new card.
            assert(ov.insert(pos as int, cv) =~= ov.take(pos as int).push(cv) + ov.skip(
                pos as int,
            ));
            lemma_multiset_commutative(ov.take(pos as int).push(cv), ov.skip(pos as int));
            ov.take(pos as int).to_multiset_ensures();
            assert(ov =~= ov.take(pos as int) + ov.skip(pos as int));
            lemma_multiset_commutative(ov.take(pos as int), ov.skip(pos as int));
            assert(nv.to_multiset() =~= ov.to_multiset().insert(cv));
            assert(m.take(i as int + 1) =~= m.take(i as int).push(m[i as int]));
            m.take(i as int).to_multiset_ensures();
            assert(m.take(i as int + 1).to_multiset() =~= m.take(i as int).to_multiset().insert(
                m[i as int],
            ));
            // Order: everything left of the insertion point lies at or below
            // the new card, everything right of it at or above.
            ov.insert_ensures(pos as int, cv);
            assert forall|a: int, b: int| 0 <= a < b < nv.len() implies lex_le(
                (#[trigger] nv[a]).term,
                (#[trigger] nv[b]).term,
            ) by {
                if b < pos {
                    assert(nv[a] == ov[a] && nv[b] == ov[b]);
                } else if a < pos && b == pos {
                    assert(nv[a] == ov[a] && nv[b] == cv);
                } else if a < pos {
                    assert(nv[a] == ov[a] && nv[b] == ov[b - 1]);
                    assert(a < b - 1);
                } else if a == pos && b > pos {
                    assert(nv[a] == cv && nv[b] == ov[b - 1]);
                    assert(lex_le(cv.term, ov[pos as int].term));
                    if b - 1 > pos {
                        assert(lex_le(ov[pos as int].term, ov[b - 1].term));
                        lemma_lex_trans(cv.term, ov[pos as int].term, ov[b - 1].term);
                    }
                } else {
                    assert(nv[a] == ov[a - 1] && nv[b] == ov[b - 1]);
                }
            }
        }
        i += 1;
    }
    proof {
        assert(m.take(n as int) =~= m);
    }
    out
}

} // verus!
