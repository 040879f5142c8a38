use vstd::prelude::*;

use crate::models::{Card, CardV, has_term, terms_unique};
use crate::srs::idx_of;
use crate::srs::lemma_idx_of_first;

verus! {

/// The tail of the deduplication walk: cards from position `i` on whose terms
/// have not been seen yet, in order, each term kept once.
pub open spec fn dedup_from(s: Seq<CardV>, i: int, seen: Set<Seq<char>>) -> Seq<CardV>
    decreases s.len() - i,
{
    if i < 0 || i >= s.len() {
        Seq::empty()
    } else if seen.contains(s[i].term) {
        dedup_from(s, i + 1, seen)
    } else {
        seq![s[i]] + dedup_from(s, i + 1, seen.insert(s[i].term))
    }
}

/// The collection with every later duplicate of a term removed: the first card
/// of each term stays, in first-seen order.
pub open spec fn spec_dedup(s: Seq<CardV>) -> Seq<CardV> {
    dedup_from(s, 0, Set::empty())
}

/// The walk never keeps a seen term, and keeps no term twice.
proof fn lemma_dedup_from_unique(s: Seq<CardV>, i: int, seen: Set<Seq<char>>)
    ensures
        terms_unique(dedup_from(s, i, seen)),
        forall|a: int| 0 <= a < dedup_from(s, i, seen).len() ==> !seen.contains(
            #[trigger] dedup_from(s, i, seen)[a].term,
        ),
    decreases s.len() - i,
{
    if 0 <= i < s.len() {
        if seen.contains(s[i].term) {
            lemma_dedup_from_unique(s, i + 1, seen);
        } else {
            lemma_dedup_from_unique(s, i + 1, seen.insert(s[i].term));
            let d = dedup_from(s, i, seen);
            let rest = dedup_from(s, i + 1, seen.insert(s[i].term));
            assert(forall|a: int| 0 <= a < rest.len() ==> d[a + 1] == rest[a]);
            assert(forall|a: int|
                1 <= a < d.len() ==> #[trigger] d[a].term != s[i].term && !seen.contains(
                    d[a].term,
                ));
        }
    }
}

/// Deduplicating a collection whose terms are already unique, none of them
/// seen, changes nothing.
proof fn lemma_dedup_from_of_unique(s: Seq<CardV>, i: int, seen: Set<Seq<char>>)
    requires
        0 <= i <= s.len(),
        forall|a: int, b: int| i <= a < b < s.len() ==> s[a].term != s[b].term,
        forall|a: int| i <= a < s.len() ==> !seen.contains(#[trigger] s[a].term),
    ensures
        dedup_from(s, i, seen) == s.skip(i),
    decreases s.len() - i,
{
    if i < s.len() {
        lemma_dedup_from_of_unique(s, i + 1, seen.insert(s[i].term));
        assert(seq![s[i]] + s.skip(i + 1) =~= s.skip(i));
    } else {
        assert(s.skip(i) =~= Seq::<CardV>::empty());
    }
}

/// Deduplication leaves pairwise distinct terms.
pub proof fn lemma_dedup_unique(s: Seq<CardV>)
    ensures
        terms_unique(spec_dedup(s)),
{
    lemma_dedup_from_unique(s, 0, Set::empty());
}

/// Deduplication is idempotent: a second pass changes nothing.
pub proof fn lemma_dedup_idempotent(s: Seq<CardV>)
    ensures
        spec_dedup(spec_dedup(s)) == spec_dedup(s),
{
    lemma_dedup_from_unique(s, 0, Set::<Seq<char>>::empty());
    let d = spec_dedup(s);
    lemma_dedup_from_of_unique(d, 0, Set::<Seq<char>>::empty());
    assert(d.skip(0) =~= d);
}

/// Every card the walk keeps is the first occurrence of its term in `s`, those
/// occurrences stand at or after `i`, and they come out in ascending order of
/// their position in `s`; `seen` must hold exactly the terms of `s.take(i)`.
proof fn lemma_dedup_from_first_order(s: Seq<CardV>, i: int, seen: Set<Seq<char>>)
    requires
        0 <= i <= s.len(),
        forall|t: Seq<char>| seen.contains(t) <==> has_term(s.take(i), t),
    ensures
        forall|a: int| 0 <= a < dedup_from(s, i, seen).len() ==> i <= idx_of(
            s,
            (#[trigger] dedup_from(s, i, seen)[a]).term,
        ) < s.len() && s[idx_of(s, dedup_from(s, i, seen)[a].term)] == dedup_from(s, i, seen)[a],
        forall|a: int, b: int| 0 <= a < b < dedup_from(s, i, seen).len() ==> idx_of(
            s,
            dedup_from(s, i, seen)[a].term,
        ) < idx_of(s, dedup_from(s, i, seen)[b].term),
    decreases s.len() - i,
{
    if 0 <= i < s.len() {
        if seen.contains(s[i].term) {
            assert forall|t: Seq<char>| seen.contains(t) <==> has_term(s.take(i + 1), t) by {
                assert(forall|k: int| 0 <= k < i + 1 ==> s.take(i + 1)[k] == s[k]);
                assert(forall|k: int| 0 <= k < i ==> s.take(i)[k] == s[k]);
                if has_term(s.take(i + 1), t) && !has_term(s.take(i), t) {
                    let w = choose|w: int| 0 <= w < i + 1 && (#[trigger] s.take(i + 1)[w]).term == t;
                    assert(w == i);
                    assert(t == s[i].term);
                }
                if has_term(s.take(i), t) {
                    let w = choose|w: int| 0 <= w < i && (#[trigger] s.take(i)[w]).term == t;
                    assert(s.take(i + 1)[w].term == t);
                }
            }
            lemma_dedup_from_first_order(s, i + 1, seen);
            let d = dedup_from(s, i, seen);
            let rest = dedup_from(s, i + 1, seen);
            assert(d == rest);
            assert forall|a: int| 0 <= a < d.len() implies i <= idx_of(
                s,
                (#[trigger] d[a]).term,
            ) < s.len() && s[idx_of(s, d[a].term)] == d[a] by {
                assert(d[a] == rest[a]);
            }
            assert forall|a: int, b: int| 0 <= a < b < d.len() implies idx_of(s, d[a].term)
                < idx_of(s, d[b].term) by {
                assert(d[a] == rest[a] && d[b] == rest[b]);
            }
        } else {
            let d = dedup_from(s, i, seen);
            let seen2 = seen.insert(s[i].term);
            let rest = dedup_from(s, i + 1, seen2);
            assert(!has_term(s.take(i), s[i].term));
            assert forall|k: int| 0 <= k < i implies s[k].term != s[i].term by {
                assert(s.take(i)[k] == s[k]);
            }
            lemma_idx_of_first(s, s[i].term, i);
            assert forall|t: Seq<char>| seen2.contains(t) <==> has_term(s.take(i + 1), t) by {
                assert(forall|k: int| 0 <= k < i + 1 ==> s.take(i + 1)[k] == s[k]);
                assert(forall|k: int| 0 <= k < i ==> s.take(i)[k] == s[k]);
                if has_term(s.take(i + 1), t) && !has_term(s.take(i), t) {
                    let w = choose|w: int| 0 <= w < i + 1 && (#[trigger] s.take(i + 1)[w]).term == t;
                    assert(w == i);
                    assert(t == s[i].term);
                }
                if has_term(s.take(i), t) {
                    let w = choose|w: int| 0 <= w < i && (#[trigger] s.take(i)[w]).term == t;
                    assert(s.take(i + 1)[w].term == t);
                }
                if t == s[i].term {
                    assert(s.take(i + 1)[i].term == t);
                }
            }
            lemma_dedup_from_first_order(s, i + 1, seen2);
            assert(d[0] == s[i]);
            assert(forall|a: int| 0 <= a < rest.len() ==> d[a + 1] == rest[a]);
            assert(idx_of(s, d[0].term) == i);
            assert forall|a: int| 0 <= a < d.len() implies i <= idx_of(
                s,
                (#[trigger] d[a]).term,
            ) < s.len() && s[idx_of(s, d[a].term)] == d[a] by {
                if a > 0 {
                    assert(d[a] == rest[a - 1]);
                }
            }
            assert forall|a: int, b: int| 0 <= a < b < d.len() implies idx_of(s, d[a].term)
                < idx_of(s, d[b].term) by {
                assert(d[b] == rest[b - 1]);
                assert(i + 1 <= idx_of(s, rest[b - 1].term));
                if a > 0 {
                    assert(d[a] == rest[a - 1]);
                }
            }
        }
    }
}

/// Each kept card is the first occurrence of its term, and the kept cards come
/// out in the order those first occurrences stand in `s`.
pub proof fn lemma_dedup_first_seen_order(s: Seq<CardV>)
    ensures
        forall|a: int| 0 <= a < spec_dedup(s).len() ==> 0 <= idx_of(
            s,
            (#[trigger] spec_dedup(s)[a]).term,
        ) < s.len() && s[idx_of(s, spec_dedup(s)[a].term)] == spec_dedup(s)[a],
        forall|a: int, b: int| 0 <= a < b < spec_dedup(s).len() ==> idx_of(
            s,
            spec_dedup(s)[a].term,
        ) < idx_of(s, spec_dedup(s)[b].term),
{
    assert(forall|t: Seq<char>| !has_term(s.take(0), t));
    lemma_dedup_from_first_order(s, 0, Set::empty());
}

/// Removes every later card sharing a term with an earlier one, keeping the
/// first of each term in first-seen order.
pub fn deduplicate(cards: &Vec<Card>) -> (r: Vec<Card>)
    ensures
        r@.map_values(|c: Card| c@) == spec_dedup(cards@.map_values(|c: Card| c@)),
        terms_unique(r@.map_values(|c: Card| c@)),
{
    let ghost m = cards@.map_values(|c: Card| c@);
    let mut out: Vec<Card> = Vec::new();
    let ghost mut seen = Set::<Seq<char>>::empty();
    let n = cards.len();
    let mut i: usize = 0;
    proof {
        assert(out@.map_values(|c: Card| c@) =~= Seq::<CardV>::empty());
        assert(Seq::<CardV>::empty() + dedup_from(m, 0, seen) =~= dedup_from(m, 0, seen));
    }
    let mut seen_terms: Vec<String> = Vec::new();
    while i < n
        invariant
            n == cards@.len(),
            m == cards@.map_values(|c: Card| c@),
            i <= n,
            seen_terms@.len() <= i,
            forall|t: Seq<char>| seen.contains(t) <==> (exists|q: int|
                0 <= q < seen_terms@.len() && #[trigger] seen_terms@[q]@ == t),
            spec_dedup(m) == out@.map_values(|c: Card| c@) + dedup_from(m, i as int, seen),
        decreases n - i,
    {
        let ghost pre = out@.map_values(|c: Card| c@);
        let mut dup = false;
        let mut q: usize = 0;
        let sn = seen_terms.len();
        while q < sn
            invariant
                sn == seen_terms@.len(),
                q <= sn,
                i < n,
                n == cards@.len(),
                dup ==> seen.contains(cards@[i as int]@.term),
                forall|t: Seq<char>| seen.contains(t) <==> (exists|w: int|
                    0 <= w < seen_terms@.len() && #[trigger] seen_terms@[w]@ == t),
                !dup ==> forall|w: int| 0 <= w < q ==> seen_terms@[w]@ != cards@[i as int]@.term,
            ensures
                dup <==> seen.contains(cards@[i as int]@.term),
            decreases sn - q,
        {
            if seen_terms[q] == cards[i].term {
                dup = true;
                assert(seen_terms@[q as int]@ == cards@[i as int]@.term);
                break ;
            }
            q += 1;
        }
        proof {
            if !dup {
                assert(!seen.contains(m[i as int].term));
            } else {
                assert(seen.contains(m[i as int].term));
            }
            assert(m[i as int] == cards@[i as int]@);
        }
        if !dup {
            let ghost old_terms = seen_terms@;
            let c = cards[i].clone();
            let t = cards[i].term.clone();
            out.push(c);
            seen_terms.push(t);
            proof {
                assert(out@.map_values(|c: Card| c@) =~= pre.push(m[i as int]));
                assert(pre + (seq![m[i as int]] + dedup_from(
                    m,
                    i as int + 1,
                    seen.insert(m[i as int].term),
                )) =~= pre.push(m[i as int]) + dedup_from(
                    m,
                    i as int + 1,
                    seen.insert(m[i as int].term),
                ));
                assert(seen_terms@.len() == old_terms.len() + 1);
                assert(seen_terms@[old_terms.len() as int]@ == m[i as int].term);
                assert(forall|w: int| 0 <= w < old_terms.len() ==> #[trigger] seen_terms@[w]
                    == old_terms[w]);
                assert forall|t2: Seq<char>|
                    seen.insert(m[i as int].term).contains(t2) <==> (exists|w: int|
                        0 <= w < seen_terms@.len() && #[trigger] seen_terms@[w]@ == t2) by {
                    if seen.insert(m[i as int].term).contains(t2) {
                        if t2 == m[i as int].term {
                            assert(seen_terms@[old_terms.len() as int]@ == t2);
                        } else {
                            assert(seen.contains(t2));
                            let w = choose|w: int|
                                0 <= w < old_terms.len() && #[trigger] old_terms[w]@ == t2;
                            assert(seen_terms@[w]@ == t2);
                        }
                    }
                    if exists|w: int| 0 <= w < seen_terms@.len() && #[trigger] seen_terms@[w]@
                        == t2 {
                        let w = choose|w: int|
                            0 <= w < seen_terms@.len() && #[trigger] seen_terms@[w]@ == t2;
                        if w < old_terms.len() {
                            assert(old_terms[w]@ == t2);
                            assert(seen.contains(t2));
                        } else {
                            assert(t2 == m[i as int].term);
                        }
                    }
                }
            }
            proof {
                seen = seen.insert(m[i as int].term);
            }
        }
        i += 1;
    }
    proof {
        assert(dedup_from(m, n as int, seen) =~= Seq::<CardV>::empty());
        assert(out@.map_values(|c: Card| c@) + Seq::<CardV>::empty() =~= out@.map_values(
            |c: Card| c@,
        ));
        lemma_dedup_unique(m);
    }
    out
}

} // verus!
