use vstd::prelude::*;

use crate::errors::SrsError;
use crate::models::{Card, CardV, FreqCard, FreqCardV, valid_card_v, valid_freq_card_v};

verus! {

// ---------------------------------------------------------------------------
// The persisted text format of a card collection.
//
// A collection is written as a character sequence:
//     "count=" <count> '\n' <card>*
// and each card as four labelled lines:
//     "term=" <len> ':' <term> '\n'
//     "translation=" <len> ':' <translation> '\n'
//     "box=" <box> '\n'
//     "next=" <next> '\n'
// where every number is in decimal and each string is preceded by its length
// in characters, so no escaping is needed whatever the strings hold.  Decoding
// a sequence that `spec_encode` produced yields the collection back exactly;
// that is proved below.
// ---------------------------------------------------------------------------

pub open spec fn is_digit(c: char) -> bool {
    c == '0' || c == '1' || c == '2' || c == '3' || c == '4' || c == '5' || c == '6' || c == '7'
        || c == '8' || c == '9'
}

pub open spec fn digit_val(c: char) -> int {
    if c == '0' {
        0
    } else if c == '1' {
        1
    } else if c == '2' {
        2
    } else if c == '3' {
        3
    } else if c == '4' {
        4
    } else if c == '5' {
        5
    } else if c == '6' {
        6
    } else if c == '7' {
        7
    } else if c == '8' {
        8
    } else if c == '9' {
        9
    } else {
        0
    }
}

pub open spec fn digit_char(d: int) -> char {
    if d == 0 {
        '0'
    } else if d == 1 {
        '1'
    } else if d == 2 {
        '2'
    } else if d == 3 {
        '3'
    } else if d == 4 {
        '4'
    } else if d == 5 {
        '5'
    } else if d == 6 {
        '6'
    } else if d == 7 {
        '7'
    } else if d == 8 {
        '8'
    } else {
        '9'
    }
}

pub open spec fn all_digits(s: Seq<char>) -> bool {
    forall|i: int| 0 <= i < s.len() ==> is_digit(#[trigger] s[i])
}

/// The decimal digits of `n`, most significant first.
pub open spec fn spec_enc_num(n: nat) -> Seq<char>
    decreases n,
{
    if n < 10 {
        seq![digit_char(n as int)]
    } else {
        spec_enc_num(n / 10).push(digit_char((n % 10) as int))
    }
}

/// A length-prefixed string field.
pub open spec fn spec_enc_str(s: Seq<char>) -> Seq<char> {
    spec_enc_num(s.len()) + seq![':'] + s
}

pub open spec fn spec_enc_card(c: CardV) -> Seq<char> {
    "term="@ + spec_enc_str(c.term) + seq!['\n'] + "translation="@ + spec_enc_str(c.translation)
        + seq!['\n'] + "box="@ + spec_enc_num(c.box_number as nat) + seq!['\n'] + "next="@
        + spec_enc_num(c.next_review as nat) + seq!['\n']
}

pub open spec fn spec_enc_list(cs: Seq<CardV>) -> Seq<char>
    decreases cs.len(),
{
    if cs.len() == 0 {
        Seq::empty()
    } else {
        spec_enc_card(cs[0]) + spec_enc_list(cs.skip(1))
    }
}

/// The whole persisted text of a collection.
pub open spec fn spec_encode(cs: Seq<CardV>) -> Seq<char> {
    "count="@ + spec_enc_num(cs.len()) + seq!['\n'] + spec_enc_list(cs)
}

// ---------------------------------------------------------------------------
// The parse model: total functions from a character sequence to the value
// read and the characters left over.
// ---------------------------------------------------------------------------

/// Reads a run of digits, folding them onto `acc`; stops at the first
/// non-digit.
pub open spec fn spec_parse_digits(s: Seq<char>, acc: int) -> (int, Seq<char>)
    decreases s.len(),
{
    if s.len() > 0 && is_digit(s[0]) {
        spec_parse_digits(s.skip(1), acc * 10 + digit_val(s[0]))
    } else {
        (acc, s)
    }
}

/// Reads a decimal number: at least one digit, and a value that fits u64.
pub open spec fn spec_parse_num(s: Seq<char>) -> Option<(int, Seq<char>)> {
    if s.len() > 0 && is_digit(s[0]) {
        let (v, r) = spec_parse_digits(s, 0);
        if v <= u64::MAX {
            Some((v, r))
        } else {
            None
        }
    } else {
        None
    }
}

pub open spec fn spec_expect(s: Seq<char>, c: char) -> Option<Seq<char>> {
    if s.len() > 0 && s[0] == c {
        Some(s.skip(1))
    } else {
        None
    }
}

/// Reads a fixed label off the front of the text.
pub open spec fn spec_expect_seq(s: Seq<char>, p: Seq<char>) -> Option<Seq<char>> {
    if p.len() <= s.len() && s.take(p.len() as int) == p {
        Some(s.skip(p.len() as int))
    } else {
        None
    }
}

pub proof fn lemma_expect_seq_enc(p: Seq<char>, rest: Seq<char>)
    ensures
        spec_expect_seq(p + rest, p) == Some(rest),
{
    assert((p + rest).take(p.len() as int) =~= p);
    assert((p + rest).skip(p.len() as int) =~= rest);
}

/// Reads a length-prefixed string field.
pub open spec fn spec_parse_lenstr(s: Seq<char>) -> Option<(Seq<char>, Seq<char>)> {
    match spec_parse_num(s) {
        Some((n, r)) => match spec_expect(r, ':') {
            Some(r2) => if r2.len() >= n {
                Some((r2.take(n), r2.skip(n)))
            } else {
                None
            },
            None => None,
        },
        None => None,
    }
}

/// Reads one labelled string line: the label, a length-prefixed string, a
/// newline.
pub open spec fn spec_parse_lenstr_line(s: Seq<char>, label: Seq<char>) -> Option<
    (Seq<char>, Seq<char>),
> {
    match spec_expect_seq(s, label) {
        Some(r) => match spec_parse_lenstr(r) {
            Some((v, r2)) => match spec_expect(r2, '\n') {
                Some(r3) => Some((v, r3)),
                None => None,
            },
            None => None,
        },
        None => None,
    }
}

pub open spec fn spec_parse_num_line(s: Seq<char>, label: Seq<char>) -> Option<(int, Seq<char>)> {
    match spec_expect_seq(s, label) {
        Some(r) => match spec_parse_num(r) {
            Some((v, r2)) => match spec_expect(r2, '\n') {
                Some(r3) => Some((v, r3)),
                None => None,
            },
            None => None,
        },
        None => None,
    }
}

pub open spec fn spec_parse_card(s: Seq<char>) -> Option<(CardV, Seq<char>)> {
    match spec_parse_lenstr_line(s, "term="@) {
        Some((term, r1)) => match spec_parse_lenstr_line(r1, "translation="@) {
            Some((tr, r2)) => match spec_parse_num_line(r2, "box="@) {
                Some((b, r3)) => match spec_parse_num_line(r3, "next="@) {
                    Some((nx, r4)) => Some(
                        (CardV { term, translation: tr, box_number: b, next_review: nx }, r4),
                    ),
                    None => None,
                },
                None => None,
            },
            None => None,
        },
        None => None,
    }
}

pub open spec fn spec_parse_cards(s: Seq<char>, n: int) -> Option<(Seq<CardV>, Seq<char>)>
    decreases n,
{
    if n <= 0 {
        Some((Seq::empty(), s))
    } else {
        match spec_parse_card(s) {
            Some((c, r)) => match spec_parse_cards(r, n - 1) {
                Some((cs, r2)) => Some((seq![c] + cs, r2)),
                None => None,
            },
            None => None,
        }
    }
}

/// The collection a persisted text holds, if it parses completely.
pub open spec fn spec_decode(s: Seq<char>) -> Option<Seq<CardV>> {
    match spec_parse_num_line(s, "count="@) {
        Some((n, r)) => match spec_parse_cards(r, n) {
            Some((cs, r2)) => if r2.len() == 0 {
                Some(cs)
            } else {
                None
            },
            None => None,
        },
        None => None,
    }
}

// ---------------------------------------------------------------------------
// The round trip: decoding an encoding yields the collection back.
// ---------------------------------------------------------------------------

pub proof fn lemma_enc_num_digits(n: nat)
    ensures
        spec_enc_num(n).len() >= 1,
        all_digits(spec_enc_num(n)),
    decreases n,
{
    if n >= 10 {
        lemma_enc_num_digits(n / 10);
        assert forall|i: int| 0 <= i < spec_enc_num(n).len() implies is_digit(
            #[trigger] spec_enc_num(n)[i],
        ) by {
            if i < spec_enc_num(n / 10).len() {
                assert(spec_enc_num(n)[i] == spec_enc_num(n / 10)[i]);
            }
        }
    }
}

/// The digit fold of `a`, then the leftover `b`, when `a` is all digits and
/// `b` does not begin with one.
pub proof fn lemma_parse_digits_concat(a: Seq<char>, b: Seq<char>, acc: int)
    requires
        all_digits(a),
        b.len() == 0 || !is_digit(b[0]),
    ensures
        spec_parse_digits(a + b, acc) == (spec_parse_digits(a, acc).0, b),
    decreases a.len(),
{
    if a.len() == 0 {
        assert(a + b =~= b);
    } else {
        assert((a + b)[0] == a[0]);
        assert((a + b).skip(1) =~= a.skip(1) + b);
        assert(all_digits(a.skip(1)));
        lemma_parse_digits_concat(a.skip(1), b, acc * 10 + digit_val(a[0]));
    }
}

pub proof fn lemma_parse_digits_push(s: Seq<char>, c: char, acc: int)
    requires
        all_digits(s),
        is_digit(c),
    ensures
        spec_parse_digits(s.push(c), acc).0 == 10 * spec_parse_digits(s, acc).0 + digit_val(c),
    decreases s.len(),
{
    if s.len() == 0 {
        assert(s.push(c)[0] == c);
        assert(s.push(c).skip(1) =~= Seq::<char>::empty());
        assert(spec_parse_digits(s.push(c), acc) == spec_parse_digits(
            s.push(c).skip(1),
            acc * 10 + digit_val(c),
        ));
        assert(spec_parse_digits(Seq::<char>::empty(), acc * 10 + digit_val(c)).0 == acc * 10
            + digit_val(c));
    } else {
        assert(s.push(c)[0] == s[0]);
        assert(s.push(c).skip(1) =~= s.skip(1).push(c));
        assert(all_digits(s.skip(1)));
        lemma_parse_digits_push(s.skip(1), c, acc * 10 + digit_val(s[0]));
        assert(spec_parse_digits(s.push(c), acc) == spec_parse_digits(
            s.skip(1).push(c),
            acc * 10 + digit_val(s[0]),
        ));
        assert(spec_parse_digits(s, acc) == spec_parse_digits(
            s.skip(1),
            acc * 10 + digit_val(s[0]),
        ));
    }
}

/// Folding the digits of `n` from zero yields `n`.
pub proof fn lemma_enc_num_val(n: nat)
    ensures
        spec_parse_digits(spec_enc_num(n), 0).0 == n,
    decreases n,
{
    if n < 10 {
        assert(spec_enc_num(n) =~= Seq::<char>::empty().push(digit_char(n as int)));
        assert(spec_parse_digits(seq![digit_char(n as int)], 0) == spec_parse_digits(
            seq![digit_char(n as int)].skip(1),
            digit_val(digit_char(n as int)),
        ));
        assert(seq![digit_char(n as int)].skip(1) =~= Seq::<char>::empty());
    } else {
        lemma_enc_num_val(n / 10);
        lemma_enc_num_digits(n / 10);
        lemma_parse_digits_push(spec_enc_num(n / 10), digit_char((n % 10) as int), 0);
    }
}

/// Parsing a number off `enc_num(n) + rest` yields `n` and `rest`, whenever
/// `rest` does not begin with a digit.
pub proof fn lemma_parse_digits_suffix(s: Seq<char>, acc: int)
    ensures
        spec_parse_digits(s, acc).1.len() <= s.len(),
    decreases s.len(),
{
    if s.len() > 0 && is_digit(s[0]) {
        lemma_parse_digits_suffix(s.skip(1), acc * 10 + digit_val(s[0]));
    }
}

/// A parsed number consumes at least its leading digit.
pub proof fn lemma_parse_num_consumes(s: Seq<char>)
    ensures
        spec_parse_num(s) matches Some(p) ==> p.1.len() < s.len(),
{
    if s.len() > 0 && is_digit(s[0]) {
        lemma_parse_digits_suffix(s.skip(1), digit_val(s[0]));
        assert(spec_parse_digits(s, 0) == spec_parse_digits(s.skip(1), digit_val(s[0])));
    }
}

pub proof fn lemma_parse_num_enc(n: nat, rest: Seq<char>)
    requires
        n <= u64::MAX,
        rest.len() == 0 || !is_digit(rest[0]),
    ensures
        spec_parse_num(spec_enc_num(n) + rest) == Some((n as int, rest)),
{
    lemma_enc_num_digits(n);
    lemma_enc_num_val(n);
    lemma_parse_digits_concat(spec_enc_num(n), rest, 0);
    assert((spec_enc_num(n) + rest)[0] == spec_enc_num(n)[0]);
}

/// Parsing a string field off `enc_str(s) + rest` yields `s` and `rest`.
pub proof fn lemma_parse_lenstr_enc(s: Seq<char>, rest: Seq<char>)
    requires
        s.len() <= u64::MAX,
    ensures
        spec_parse_lenstr(spec_enc_str(s) + rest) == Some((s, rest)),
{
    let tail = seq![':'] + s + rest;
    assert(spec_enc_str(s) + rest =~= spec_enc_num(s.len()) + tail);
    assert(!is_digit(tail[0]));
    lemma_parse_num_enc(s.len(), tail);
    assert(spec_expect(tail, ':') == Some(tail.skip(1)));
    assert(tail.skip(1) =~= s + rest);
    assert((s + rest).take(s.len() as int) =~= s);
    assert((s + rest).skip(s.len() as int) =~= rest);
}

/// Parsing a labelled string line off its encoding yields the string and the
/// rest.
pub proof fn lemma_parse_lenstr_line_enc(label: Seq<char>, v: Seq<char>, rest: Seq<char>)
    requires
        v.len() <= u64::MAX,
    ensures
        spec_parse_lenstr_line(label + spec_enc_str(v) + seq!['\n'] + rest, label) == Some(
            (v, rest),
        ),
{
    let r = spec_enc_str(v) + (seq!['\n'] + rest);
    assert(label + spec_enc_str(v) + seq!['\n'] + rest =~= label + r);
    lemma_expect_seq_enc(label, r);
    lemma_parse_lenstr_enc(v, seq!['\n'] + rest);
    assert((seq!['\n'] + rest)[0] == '\n');
    assert((seq!['\n'] + rest).skip(1) =~= rest);
}

/// Parsing a labelled number line off its encoding yields the number and the
/// rest.
pub proof fn lemma_parse_num_line_enc(label: Seq<char>, n: nat, rest: Seq<char>)
    requires
        n <= u64::MAX,
    ensures
        spec_parse_num_line(label + spec_enc_num(n) + seq!['\n'] + rest, label) == Some(
            (n as int, rest),
        ),
{
    let r = spec_enc_num(n) + (seq!['\n'] + rest);
    assert(label + spec_enc_num(n) + seq!['\n'] + rest =~= label + r);
    lemma_expect_seq_enc(label, r);
    assert(!is_digit((seq!['\n'] + rest)[0]));
    lemma_parse_num_enc(n, seq!['\n'] + rest);
    assert((seq!['\n'] + rest)[0] == '\n');
    assert((seq!['\n'] + rest).skip(1) =~= rest);
}

/// Parsing a card off `enc_card(c) + rest` yields `c` and `rest`.
pub proof fn lemma_parse_card_enc(c: CardV, rest: Seq<char>)
    requires
        valid_card_v(c),
        c.term.len() <= u64::MAX,
        c.translation.len() <= u64::MAX,
    ensures
        spec_parse_card(spec_enc_card(c) + rest) == Some((c, rest)),
{
    let r1 = "translation="@ + spec_enc_str(c.translation) + seq!['\n'] + "box="@ + spec_enc_num(
        c.box_number as nat,
    ) + seq!['\n'] + "next="@ + spec_enc_num(c.next_review as nat) + seq!['\n'] + rest;
    assert(spec_enc_card(c) + rest =~= "term="@ + spec_enc_str(c.term) + seq!['\n'] + r1);
    lemma_parse_lenstr_line_enc("term="@, c.term, r1);
    let r2 = "box="@ + spec_enc_num(c.box_number as nat) + seq!['\n'] + "next="@ + spec_enc_num(
        c.next_review as nat,
    ) + seq!['\n'] + rest;
    assert(r1 =~= "translation="@ + spec_enc_str(c.translation) + seq!['\n'] + r2);
    lemma_parse_lenstr_line_enc("translation="@, c.translation, r2);
    let r3 = "next="@ + spec_enc_num(c.next_review as nat) + seq!['\n'] + rest;
    assert(r2 =~= "box="@ + spec_enc_num(c.box_number as nat) + seq!['\n'] + r3);
    lemma_parse_num_line_enc("box="@, c.box_number as nat, r3);
    lemma_parse_num_line_enc("next="@, c.next_review as nat, rest);
    let parsed = CardV {
        term: c.term,
        translation: c.translation,
        box_number: c.box_number as nat as int,
        next_review: c.next_review as nat as int,
    };
    assert(parsed =~= c);
}

/// Parsing `cs.len()` cards off `enc_list(cs) + rest` yields `cs` and `rest`.
pub proof fn lemma_parse_list_enc(cs: Seq<CardV>, rest: Seq<char>)
    requires
        forall|i: int| 0 <= i < cs.len() ==> valid_card_v(#[trigger] cs[i]) && cs[i].term.len()
            <= u64::MAX && cs[i].translation.len() <= u64::MAX,
    ensures
        spec_parse_cards(spec_enc_list(cs) + rest, cs.len() as int) == Some((cs, rest)),
    decreases cs.len(),
{
    if cs.len() == 0 {
        assert(spec_enc_list(cs) + rest =~= rest);
        assert(spec_parse_cards(rest, 0) == Some((Seq::<CardV>::empty(), rest)));
        assert(cs =~= Seq::<CardV>::empty());
    } else {
        assert(spec_enc_list(cs) + rest =~= spec_enc_card(cs[0]) + (spec_enc_list(cs.skip(1))
            + rest));
        lemma_parse_card_enc(cs[0], spec_enc_list(cs.skip(1)) + rest);
        lemma_parse_list_enc(cs.skip(1), rest);
        assert(seq![cs[0]] + cs.skip(1) =~= cs);
    }
}

/// The round trip of the persisted format: decoding what `spec_encode` wrote
/// yields the collection back, whole and unchanged, for a collection of any
/// size.
pub proof fn lemma_encode_then_decode(cs: Seq<CardV>)
    requires
        cs.len() <= u64::MAX,
        forall|i: int| 0 <= i < cs.len() ==> valid_card_v(#[trigger] cs[i]) && cs[i].term.len()
            <= u64::MAX && cs[i].translation.len() <= u64::MAX,
    ensures
        spec_decode(spec_encode(cs)) == Some(cs),
{
    assert(spec_encode(cs) =~= "count="@ + spec_enc_num(cs.len()) + seq!['\n'] + spec_enc_list(
        cs,
    ));
    lemma_parse_num_line_enc("count="@, cs.len(), spec_enc_list(cs));
    assert(spec_enc_list(cs) =~= spec_enc_list(cs) + Seq::<char>::empty());
    lemma_parse_list_enc(cs, Seq::<char>::empty());
}

// ---------------------------------------------------------------------------
// The same format for the frequency-state shape: success and attempt counters
// in place of box number and review time.
// ---------------------------------------------------------------------------

pub open spec fn spec_enc_fcard(c: FreqCardV) -> Seq<char> {
    "term="@ + spec_enc_str(c.term) + seq!['\n'] + "translation="@ + spec_enc_str(c.translation)
        + seq!['\n'] + "success="@ + spec_enc_num(c.success_count as nat) + seq!['\n']
        + "attempt="@ + spec_enc_num(c.attempt_count as nat) + seq!['\n']
}

pub open spec fn spec_enc_flist(cs: Seq<FreqCardV>) -> Seq<char>
    decreases cs.len(),
{
    if cs.len() == 0 {
        Seq::empty()
    } else {
        spec_enc_fcard(cs[0]) + spec_enc_flist(cs.skip(1))
    }
}

pub open spec fn spec_encode_freq(cs: Seq<FreqCardV>) -> Seq<char> {
    "count="@ + spec_enc_num(cs.len()) + seq!['\n'] + spec_enc_flist(cs)
}

pub open spec fn spec_parse_fcard(s: Seq<char>) -> Option<(FreqCardV, Seq<char>)> {
    match spec_parse_lenstr_line(s, "term="@) {
        Some((term, r1)) => match spec_parse_lenstr_line(r1, "translation="@) {
            Some((tr, r2)) => match spec_parse_num_line(r2, "success="@) {
                Some((sc, r3)) => match spec_parse_num_line(r3, "attempt="@) {
                    Some((at, r4)) => Some(
                        (
                            FreqCardV {
                                term,
                                translation: tr,
                                success_count: sc,
                                attempt_count: at,
                            },
                            r4,
                        ),
                    ),
                    None => None,
                },
                None => None,
            },
            None => None,
        },
        None => None,
    }
}

pub open spec fn spec_parse_fcards(s: Seq<char>, n: int) -> Option<(Seq<FreqCardV>, Seq<char>)>
    decreases n,
{
    if n <= 0 {
        Some((Seq::empty(), s))
    } else {
        match spec_parse_fcard(s) {
            Some((c, r)) => match spec_parse_fcards(r, n - 1) {
                Some((cs, r2)) => Some((seq![c] + cs, r2)),
                None => None,
            },
            None => None,
        }
    }
}

pub open spec fn spec_decode_freq(s: Seq<char>) -> Option<Seq<FreqCardV>> {
    match spec_parse_num_line(s, "count="@) {
        Some((n, r)) => match spec_parse_fcards(r, n) {
            Some((cs, r2)) => if r2.len() == 0 {
                Some(cs)
            } else {
                None
            },
            None => None,
        },
        None => None,
    }
}

pub proof fn lemma_parse_fcard_enc(c: FreqCardV, rest: Seq<char>)
    requires
        valid_freq_card_v(c),
        c.term.len() <= u64::MAX,
        c.translation.len() <= u64::MAX,
    ensures
        spec_parse_fcard(spec_enc_fcard(c) + rest) == Some((c, rest)),
{
    let r1 = "translation="@ + spec_enc_str(c.translation) + seq!['\n'] + "success="@
        + spec_enc_num(c.success_count as nat) + seq!['\n'] + "attempt="@ + spec_enc_num(
        c.attempt_count as nat,
    ) + seq!['\n'] + rest;
    assert(spec_enc_fcard(c) + rest =~= "term="@ + spec_enc_str(c.term) + seq!['\n'] + r1);
    lemma_parse_lenstr_line_enc("term="@, c.term, r1);
    let r2 = "success="@ + spec_enc_num(c.success_count as nat) + seq!['\n'] + "attempt="@
        + spec_enc_num(c.attempt_count as nat) + seq!['\n'] + rest;
    assert(r1 =~= "translation="@ + spec_enc_str(c.translation) + seq!['\n'] + r2);
    lemma_parse_lenstr_line_enc("translation="@, c.translation, r2);
    let r3 = "attempt="@ + spec_enc_num(c.attempt_count as nat) + seq!['\n'] + rest;
    assert(r2 =~= "success="@ + spec_enc_num(c.success_count as nat) + seq!['\n'] + r3);
    lemma_parse_num_line_enc("success="@, c.success_count as nat, r3);
    lemma_parse_num_line_enc("attempt="@, c.attempt_count as nat, rest);
    let parsed = FreqCardV {
        term: c.term,
        translation: c.translation,
        success_count: c.success_count as nat as int,
        attempt_count: c.attempt_count as nat as int,
    };
    assert(parsed =~= c);
}

pub proof fn lemma_parse_flist_enc(cs: Seq<FreqCardV>, rest: Seq<char>)
    requires
        forall|i: int| 0 <= i < cs.len() ==> valid_freq_card_v(#[trigger] cs[i])
            && cs[i].term.len() <= u64::MAX && cs[i].translation.len() <= u64::MAX,
    ensures
        spec_parse_fcards(spec_enc_flist(cs) + rest, cs.len() as int) == Some((cs, rest)),
    decreases cs.len(),
{
    if cs.len() == 0 {
        assert(spec_enc_flist(cs) + rest =~= rest);
        assert(spec_parse_fcards(rest, 0) == Some((Seq::<FreqCardV>::empty(), rest)));
        assert(cs =~= Seq::<FreqCardV>::empty());
    } else {
        assert(spec_enc_flist(cs) + rest =~= spec_enc_fcard(cs[0]) + (spec_enc_flist(cs.skip(1))
            + rest));
        lemma_parse_fcard_enc(cs[0], spec_enc_flist(cs.skip(1)) + rest);
        lemma_parse_flist_enc(cs.skip(1), rest);
        assert(seq![cs[0]] + cs.skip(1) =~= cs);
    }
}

/// The round trip of the frequency-state shape: decoding what
/// `spec_encode_freq` wrote yields the collection back, whole and unchanged,
/// for a collection of any size.
pub proof fn lemma_encode_then_decode_freq(cs: Seq<FreqCardV>)
    requires
        cs.len() <= u64::MAX,
        forall|i: int| 0 <= i < cs.len() ==> valid_freq_card_v(#[trigger] cs[i])
            && cs[i].term.len() <= u64::MAX && cs[i].translation.len() <= u64::MAX,
    ensures
        spec_decode_freq(spec_encode_freq(cs)) == Some(cs),
{
    assert(spec_encode_freq(cs) =~= "count="@ + spec_enc_num(cs.len()) + seq!['\n']
        + spec_enc_flist(cs));
    lemma_parse_num_line_enc("count="@, cs.len(), spec_enc_flist(cs));
    assert(spec_enc_flist(cs) =~= spec_enc_flist(cs) + Seq::<char>::empty());
    lemma_parse_flist_enc(cs, Seq::<char>::empty());
}

// ---------------------------------------------------------------------------
// The executable encoder.
// ---------------------------------------------------------------------------

/// Relies on String::push: appends one character.
#[verifier::external_body]
pub(crate) fn push_char(s: &mut String, c: char)
    ensures
        final(s)@ == old(s)@.push(c),
{
    s.push(c);
}

fn digit_char_of(d: u64) -> (c: char)
    requires
        d < 10,
    ensures
        c == digit_char(d as int),
{
    if d == 0 {
        '0'
    } else if d == 1 {
        '1'
    } else if d == 2 {
        '2'
    } else if d == 3 {
        '3'
    } else if d == 4 {
        '4'
    } else if d == 5 {
        '5'
    } else if d == 6 {
        '6'
    } else if d == 7 {
        '7'
    } else if d == 8 {
        '8'
    } else {
        '9'
    }
}

pub(crate) fn encode_num_into(n: u64, out: &mut String)
    ensures
        final(out)@ == old(out)@ + spec_enc_num(n as nat),
    decreases n,
{
    if n >= 10 {
        encode_num_into(n / 10, out);
    }
    let c = digit_char_of(n % 10);
    push_char(out, c);
    proof {
        if n < 10 {
            assert(final(out)@ =~= old(out)@ + spec_enc_num(n as nat));
        } else {
            assert(final(out)@ =~= old(out)@ + spec_enc_num(n as nat));
        }
    }
}

fn encode_str_into(s: &String, out: &mut String)
    ensures
        final(out)@ == old(out)@ + spec_enc_str(s@),
{
    let len = s.as_str().unicode_len();
    encode_num_into(len as u64, out);
    push_char(out, ':');
    out.append(s.as_str());
    proof {
        assert(final(out)@ =~= old(out)@ + spec_enc_str(s@));
    }
}

fn encode_card_into(c: &Card, out: &mut String)
    ensures
        final(out)@ == old(out)@ + spec_enc_card(c@),
{
    out.append("term=");
    encode_str_into(&c.term, out);
    push_char(out, '\n');
    out.append("translation=");
    encode_str_into(&c.translation, out);
    push_char(out, '\n');
    out.append("box=");
    encode_num_into(c.box_number, out);
    push_char(out, '\n');
    out.append("next=");
    encode_num_into(c.next_review, out);
    push_char(out, '\n');
    proof {
        assert(final(out)@ =~= old(out)@ + spec_enc_card(c@));
    }
}

pub proof fn lemma_enc_list_snoc(cs: Seq<CardV>, c: CardV)
    ensures
        spec_enc_list(cs.push(c)) == spec_enc_list(cs) + spec_enc_card(c),
    decreases cs.len(),
{
    if cs.len() == 0 {
        assert(cs.push(c)[0] == c);
        assert(cs.push(c).skip(1) =~= Seq::<CardV>::empty());
        assert(spec_enc_list(cs.push(c)) == spec_enc_card(c) + spec_enc_list(
            Seq::<CardV>::empty(),
        ));
        assert(spec_enc_list(Seq::<CardV>::empty()) =~= Seq::<char>::empty());
        assert(spec_enc_list(cs) =~= Seq::<char>::empty());
        assert(spec_enc_card(c) + Seq::<char>::empty() =~= Seq::<char>::empty() + spec_enc_card(
            c,
        ));
    } else {
        assert(cs.push(c)[0] == cs[0]);
        assert(cs.push(c).skip(1) =~= cs.skip(1).push(c));
        lemma_enc_list_snoc(cs.skip(1), c);
        assert(spec_enc_list(cs.push(c)) == spec_enc_card(cs[0]) + (spec_enc_list(cs.skip(1))
            + spec_enc_card(c)));
        assert(spec_enc_card(cs[0]) + (spec_enc_list(cs.skip(1)) + spec_enc_card(c)) =~= (
        spec_enc_card(cs[0]) + spec_enc_list(cs.skip(1))) + spec_enc_card(c));
    }
}

/// Writes the collection out in the persisted text format.
pub fn encode(cards: &Vec<Card>) -> (r: String)
    ensures
        r@ == spec_encode(cards@.map_values(|c: Card| c@)),
{
    let ghost m = cards@.map_values(|c: Card| c@);
    let mut out = String::new();
    let n = cards.len();
    out.append("count=");
    encode_num_into(n as u64, &mut out);
    push_char(&mut out, '\n');
    proof {
        assert(m.take(0) =~= Seq::<CardV>::empty());
        assert(out@ =~= "count="@ + spec_enc_num(m.len()) + seq!['\n'] + spec_enc_list(m.take(0)));
    }
    let mut i: usize = 0;
    while i < n
        invariant
            n == cards@.len(),
            m == cards@.map_values(|c: Card| c@),
            i <= n,
            out@ == "count="@ + spec_enc_num(m.len()) + seq!['\n'] + spec_enc_list(m.take(i as int)),
        decreases n - i,
    {
        let ghost pre = out@;
        encode_card_into(&cards[i], &mut out);
        proof {
            assert(m.take(i as int + 1) =~= m.take(i as int).push(m[i as int]));
            lemma_enc_list_snoc(m.take(i as int), m[i as int]);
            assert(out@ =~= "count="@ + spec_enc_num(m.len()) + seq!['\n'] + spec_enc_list(
                m.take(i as int + 1),
            ));
        }
        i += 1;
    }
    proof {
        assert(m.take(n as int) =~= m);
    }
    out
}

fn encode_fcard_into(c: &FreqCard, out: &mut String)
    ensures
        final(out)@ == old(out)@ + spec_enc_fcard(c@),
{
    out.append("term=");
    encode_str_into(&c.term, out);
    push_char(out, '\n');
    out.append("translation=");
    encode_str_into(&c.translation, out);
    push_char(out, '\n');
    out.append("success=");
    encode_num_into(c.success_count, out);
    push_char(out, '\n');
    out.append("attempt=");
    encode_num_into(c.attempt_count, out);
    push_char(out, '\n');
    proof {
        assert(final(out)@ =~= old(out)@ + spec_enc_fcard(c@));
    }
}

pub proof fn lemma_enc_flist_snoc(cs: Seq<FreqCardV>, c: FreqCardV)
    ensures
        spec_enc_flist(cs.push(c)) == spec_enc_flist(cs) + spec_enc_fcard(c),
    decreases cs.len(),
{
    if cs.len() == 0 {
        assert(cs.push(c)[0] == c);
        assert(cs.push(c).skip(1) =~= Seq::<FreqCardV>::empty());
        assert(spec_enc_flist(cs.push(c)) == spec_enc_fcard(c) + spec_enc_flist(
            Seq::<FreqCardV>::empty(),
        ));
        assert(spec_enc_flist(Seq::<FreqCardV>::empty()) =~= Seq::<char>::empty());
        assert(spec_enc_flist(cs) =~= Seq::<char>::empty());
        assert(spec_enc_fcard(c) + Seq::<char>::empty() =~= Seq::<char>::empty()
            + spec_enc_fcard(c));
    } else {
        assert(cs.push(c)[0] == cs[0]);
        assert(cs.push(c).skip(1) =~= cs.skip(1).push(c));
        lemma_enc_flist_snoc(cs.skip(1), c);
        assert(spec_enc_flist(cs.push(c)) == spec_enc_fcard(cs[0]) + (spec_enc_flist(cs.skip(1))
            + spec_enc_fcard(c)));
        assert(spec_enc_fcard(cs[0]) + (spec_enc_flist(cs.skip(1)) + spec_enc_fcard(c)) =~= (
        spec_enc_fcard(cs[0]) + spec_enc_flist(cs.skip(1))) + spec_enc_fcard(c));
    }
}

/// Writes a frequency-state collection out in the persisted text format.
pub fn encode_freq(cards: &Vec<FreqCard>) -> (r: String)
    ensures
        r@ == spec_encode_freq(cards@.map_values(|c: FreqCard| c@)),
{
    let ghost m = cards@.map_values(|c: FreqCard| c@);
    let mut out = String::new();
    let n = cards.len();
    out.append("count=");
    encode_num_into(n as u64, &mut out);
    push_char(&mut out, '\n');
    proof {
        assert(m.take(0) =~= Seq::<FreqCardV>::empty());
        assert(out@ =~= "count="@ + spec_enc_num(m.len()) + seq!['\n'] + spec_enc_flist(m.take(0)));
    }
    let mut i: usize = 0;
    while i < n
        invariant
            n == cards@.len(),
            m == cards@.map_values(|c: FreqCard| c@),
            i <= n,
            out@ == "count="@ + spec_enc_num(m.len()) + seq!['\n'] + spec_enc_flist(m.take(i as int)),
        decreases n - i,
    {
        encode_fcard_into(&cards[i], &mut out);
        proof {
            assert(m.take(i as int + 1) =~= m.take(i as int).push(m[i as int]));
            lemma_enc_flist_snoc(m.take(i as int), m[i as int]);
            assert(out@ =~= "count="@ + spec_enc_num(m.len()) + seq!['\n'] + spec_enc_flist(
                m.take(i as int + 1),
            ));
        }
        i += 1;
    }
    proof {
        assert(m.take(n as int) =~= m);
    }
    out
}

// ---------------------------------------------------------------------------
// The executable decoder.
// ---------------------------------------------------------------------------

/// Reads one whole decimal number: the entire string must be digits and the
/// value must fit, else nothing is returned.
pub fn parse_u64(s: &str) -> (r: Option<u64>)
    ensures
        r matches Some(v) ==> spec_parse_num(s@) == Some((v as int, Seq::<char>::empty())),
        r is None ==> !(spec_parse_num(s@) matches Some(p) && p.1.len() == 0),
{
    proof {
        assert(s@.skip(0) =~= s@);
    }
    let n = s.unicode_len();
    match parse_num_at(s, 0) {
        None => None,
        Some((v, j)) => {
            if j == n {
                proof {
                    assert(s@.skip(j as int) =~= Seq::<char>::empty());
                }
                Some(v)
            } else {
                proof {
                    assert(s@.skip(j as int).len() > 0);
                }
                None
            }
        },
    }
}

fn char_digit(c: char) -> (r: Option<u64>)
    ensures
        r is Some <==> is_digit(c),
        r is Some ==> r->0 == digit_val(c) && r->0 < 10,
{
    match c {
        '0' => Some(0),
        '1' => Some(1),
        '2' => Some(2),
        '3' => Some(3),
        '4' => Some(4),
        '5' => Some(5),
        '6' => Some(6),
        '7' => Some(7),
        '8' => Some(8),
        '9' => Some(9),
        _ => None,
    }
}

/// The folded value never falls below the accumulator it started from.
proof fn lemma_parse_digits_lower(s: Seq<char>, acc: int)
    requires
        acc >= 0,
    ensures
        spec_parse_digits(s, acc).0 >= acc,
    decreases s.len(),
{
    if s.len() > 0 && is_digit(s[0]) {
        lemma_parse_digits_lower(s.skip(1), acc * 10 + digit_val(s[0]));
    }
}

pub(crate) fn parse_num_at(s: &str, i: usize) -> (r: Option<(u64, usize)>)
    requires
        i <= s@.len(),
    ensures
        r matches Some(p) ==> i <= p.1 <= s@.len() && spec_parse_num(s@.skip(i as int)) == Some(
            (p.0 as int, s@.skip(p.1 as int)),
        ),
        r is None ==> spec_parse_num(s@.skip(i as int)) is None,
{
    let n = s.unicode_len();
    if i >= n {
        return None;
    }
    let c0 = s.get_char(i);
    proof {
        assert(s@.skip(i as int)[0] == s@[i as int]);
    }
    if char_digit(c0).is_none() {
        return None;
    }
    let mut acc: u64 = 0;
    let mut j = i;
    while j < n
        invariant
            i <= j <= n,
            n == s@.len(),
            spec_parse_digits(s@.skip(i as int), 0) == spec_parse_digits(
                s@.skip(j as int),
                acc as int,
            ),
        ensures
            i <= j <= n,
            n == s@.len(),
            spec_parse_digits(s@.skip(i as int), 0) == spec_parse_digits(
                s@.skip(j as int),
                acc as int,
            ),
            j == n || !is_digit(s@[j as int]),
        decreases n - j,
    {
        let c = s.get_char(j);
        proof {
            assert(s@.skip(j as int)[0] == s@[j as int]);
        }
        match char_digit(c) {
            None => {
                break ;
            },
            Some(d) => {
                proof {
                    assert(s@.skip(j as int).skip(1) =~= s@.skip(j as int + 1));
                }
                let wide: u128 = (acc as u128) * 10 + (d as u128);
                if wide > u64::MAX as u128 {
                    proof {
                        lemma_parse_digits_lower(
                            s@.skip(j as int + 1),
                            acc as int * 10 + digit_val(s@[j as int]),
                        );
                    }
                    return None;
                }
                acc = wide as u64;
                j += 1;
            },
        }
    }
    proof {
        if j < n {
            assert(s@.skip(j as int)[0] == s@[j as int]);
        }
        assert(spec_parse_digits(s@.skip(j as int), acc as int) == (
            acc as int,
            s@.skip(j as int),
        ));
    }
    Some((acc, j))
}

pub(crate) fn expect_at(s: &str, i: usize, c: char) -> (r: Option<usize>)
    requires
        i <= s@.len(),
    ensures
        r matches Some(j) ==> j == i + 1 && j <= s@.len() && spec_expect(s@.skip(i as int), c)
            == Some(s@.skip(j as int)),
        r is None ==> spec_expect(s@.skip(i as int), c) is None,
{
    let n = s.unicode_len();
    if i < n {
        let c0 = s.get_char(i);
        proof {
            assert(s@.skip(i as int)[0] == s@[i as int]);
            assert(s@.skip(i as int).skip(1) =~= s@.skip(i as int + 1));
        }
        if c0 == c {
            return Some(i + 1);
        }
    }
    None
}

/// Matches a fixed label at position `i`.
fn expect_lit_at(s: &str, i: usize, lit: &str) -> (r: Option<usize>)
    requires
        i <= s@.len(),
    ensures
        r matches Some(j) ==> j == i + lit@.len() && j <= s@.len() && spec_expect_seq(
            s@.skip(i as int),
            lit@,
        ) == Some(s@.skip(j as int)),
        r is None ==> spec_expect_seq(s@.skip(i as int), lit@) is None,
{
    let n = s.unicode_len();
    let m = lit.unicode_len();
    if m > n - i {
        proof {
            assert(s@.skip(i as int).len() < lit@.len());
        }
        return None;
    }
    let mut k: usize = 0;
    while k < m
        invariant
            i + m <= n,
            n == s@.len(),
            m == lit@.len(),
            k <= m,
            forall|q: int| 0 <= q < k ==> s@.skip(i as int)[q] == lit@[q],
        ensures
            i + m <= n,
            n == s@.len(),
            m == lit@.len(),
            k <= m,
            forall|q: int| 0 <= q < k ==> s@.skip(i as int)[q] == lit@[q],
            k == m || s@.skip(i as int)[k as int] != lit@[k as int],
        decreases m - k,
    {
        let cs = s.get_char(i + k);
        let cl = lit.get_char(k);
        proof {
            assert(s@.skip(i as int)[k as int] == s@[i as int + k]);
        }
        if cs != cl {
            break ;
        }
        k += 1;
    }
    if k == m {
        proof {
            assert(s@.skip(i as int).take(m as int) =~= lit@);
            assert(s@.skip(i as int).skip(m as int) =~= s@.skip(i as int + m));
        }
        Some(i + m)
    } else {
        proof {
            assert(s@.skip(i as int).take(m as int)[k as int] == s@.skip(i as int)[k as int]);
            assert(s@.skip(i as int).take(m as int) != lit@);
        }
        None
    }
}

fn parse_lenstr_at(s: &str, i: usize) -> (r: Option<(String, usize)>)
    requires
        i <= s@.len(),
    ensures
        r matches Some(p) ==> i <= p.1 <= s@.len() && spec_parse_lenstr(s@.skip(i as int))
            == Some((p.0@, s@.skip(p.1 as int))),
        r is None ==> spec_parse_lenstr(s@.skip(i as int)) is None,
{
    let (v, j1) = match parse_num_at(s, i) {
        None => {
            return None;
        },
        Some(p) => p,
    };
    let j2 = match expect_at(s, j1, ':') {
        None => {
            return None;
        },
        Some(j) => j,
    };
    let n = s.unicode_len();
    let remaining = n - j2;
    if v > remaining as u64 {
        return None;
    }
    let len_us = v as usize;
    let sub = s.substring_char(j2, j2 + len_us);
    let t = sub.to_owned();
    proof {
        assert(s@.skip(j2 as int).take(v as int) =~= s@.subrange(j2 as int, j2 as int + v as int));
        assert(s@.skip(j2 as int).skip(v as int) =~= s@.skip(j2 as int + v as int));
    }
    Some((t, j2 + len_us))
}

fn parse_card_at(s: &str, i: usize) -> (r: Option<(Card, usize)>)
    requires
        i <= s@.len(),
    ensures
        r matches Some(p) ==> i <= p.1 <= s@.len() && spec_parse_card(s@.skip(i as int)) == Some(
            (p.0@, s@.skip(p.1 as int)),
        ),
        r is None ==> spec_parse_card(s@.skip(i as int)) is None,
{
    let t0 = match expect_lit_at(s, i, "term=") {
        None => {
            return None;
        },
        Some(j) => j,
    };
    let (term, t1) = match parse_lenstr_at(s, t0) {
        None => {
            return None;
        },
        Some(p) => p,
    };
    let t2 = match expect_at(s, t1, '\n') {
        None => {
            return None;
        },
        Some(j) => j,
    };
    let u0 = match expect_lit_at(s, t2, "translation=") {
        None => {
            return None;
        },
        Some(j) => j,
    };
    let (tr, u1) = match parse_lenstr_at(s, u0) {
        None => {
            return None;
        },
        Some(p) => p,
    };
    let u2 = match expect_at(s, u1, '\n') {
        None => {
            return None;
        },
        Some(j) => j,
    };
    let b0 = match expect_lit_at(s, u2, "box=") {
        None => {
            return None;
        },
        Some(j) => j,
    };
    let (b, b1) = match parse_num_at(s, b0) {
        None => {
            return None;
        },
        Some(p) => p,
    };
    let b2 = match expect_at(s, b1, '\n') {
        None => {
            return None;
        },
        Some(j) => j,
    };
    let x0 = match expect_lit_at(s, b2, "next=") {
        None => {
            return None;
        },
        Some(j) => j,
    };
    let (nx, x1) = match parse_num_at(s, x0) {
        None => {
            return None;
        },
        Some(p) => p,
    };
    let x2 = match expect_at(s, x1, '\n') {
        None => {
            return None;
        },
        Some(j) => j,
    };
    let card = Card { term, translation: tr, box_number: b, next_review: nx };
    proof {
        assert(spec_parse_card(s@.skip(i as int)) == Some((card@, s@.skip(x2 as int))));
    }
    Some((card, x2))
}

fn parse_fcard_at(s: &str, i: usize) -> (r: Option<(FreqCard, usize)>)
    requires
        i <= s@.len(),
    ensures
        r matches Some(p) ==> i <= p.1 <= s@.len() && spec_parse_fcard(s@.skip(i as int)) == Some(
            (p.0@, s@.skip(p.1 as int)),
        ),
        r is None ==> spec_parse_fcard(s@.skip(i as int)) is None,
{
    let t0 = match expect_lit_at(s, i, "term=") {
        None => {
            return None;
        },
        Some(j) => j,
    };
    let (term, t1) = match parse_lenstr_at(s, t0) {
        None => {
            return None;
        },
        Some(p) => p,
    };
    let t2 = match expect_at(s, t1, '\n') {
        None => {
            return None;
        },
        Some(j) => j,
    };
    let u0 = match expect_lit_at(s, t2, "translation=") {
        None => {
            return None;
        },
        Some(j) => j,
    };
    let (tr, u1) = match parse_lenstr_at(s, u0) {
        None => {
            return None;
        },
        Some(p) => p,
    };
    let u2 = match expect_at(s, u1, '\n') {
        None => {
            return None;
        },
        Some(j) => j,
    };
    let c0 = match expect_lit_at(s, u2, "success=") {
        None => {
            return None;
        },
        Some(j) => j,
    };
    let (sc, c1) = match parse_num_at(s, c0) {
        None => {
            return None;
        },
        Some(p) => p,
    };
    let c2 = match expect_at(s, c1, '\n') {
        None => {
            return None;
        },
        Some(j) => j,
    };
    let a0 = match expect_lit_at(s, c2, "attempt=") {
        None => {
            return None;
        },
        Some(j) => j,
    };
    let (at, a1) = match parse_num_at(s, a0) {
        None => {
            return None;
        },
        Some(p) => p,
    };
    let a2 = match expect_at(s, a1, '\n') {
        None => {
            return None;
        },
        Some(j) => j,
    };
    let card = FreqCard { term, translation: tr, success_count: sc, attempt_count: at };
    proof {
        assert(spec_parse_fcard(s@.skip(i as int)) == Some((card@, s@.skip(a2 as int))));
    }
    Some((card, a2))
}

/// Reads a frequency-state collection back from the persisted text format,
/// reporting a text that is not exactly an encoded collection as corrupt.
pub fn decode_freq(s: &str) -> (r: Result<Vec<FreqCard>, SrsError>)
    ensures
        spec_decode_freq(s@) matches Some(cs) ==> (r matches Ok(v) && v@.map_values(
            |c: FreqCard| c@,
        ) == cs),
        spec_decode_freq(s@) is None ==> r == Err::<Vec<FreqCard>, SrsError>(SrsError::Corrupt),
{
    proof {
        assert(s@.skip(0) =~= s@);
    }
    let h0 = match expect_lit_at(s, 0, "count=") {
        None => {
            return Err(SrsError::Corrupt);
        },
        Some(j) => j,
    };
    let (cnt, p1) = match parse_num_at(s, h0) {
        None => {
            return Err(SrsError::Corrupt);
        },
        Some(p) => p,
    };
    let p0 = match expect_at(s, p1, '\n') {
        None => {
            return Err(SrsError::Corrupt);
        },
        Some(j) => j,
    };
    let mut out: Vec<FreqCard> = Vec::new();
    let mut j = p0;
    let mut k: u64 = 0;
    proof {
        assert(out@.map_values(|c: FreqCard| c@) =~= Seq::<FreqCardV>::empty());
        if let Some(pr) = spec_parse_fcards(s@.skip(p0 as int), cnt as int) {
            assert(pr.0 =~= Seq::<FreqCardV>::empty() + pr.0);
        }
    }
    while k < cnt
        invariant
            k <= cnt,
            j <= s@.len(),
            out@.len() == k,
            spec_parse_num_line(s@, "count="@) == Some((cnt as int, s@.skip(p0 as int))),
            p0 <= s@.len(),
            spec_parse_fcards(s@.skip(p0 as int), cnt as int) matches Some(pr)
                ==> spec_parse_fcards(s@.skip(j as int), cnt as int - k as int) matches Some(pr2)
                && pr.0 == out@.map_values(|c: FreqCard| c@) + pr2.0 && pr.1 == pr2.1,
            spec_parse_fcards(s@.skip(p0 as int), cnt as int) is None ==> spec_parse_fcards(
                s@.skip(j as int),
                cnt as int - k as int,
            ) is None,
        decreases cnt - k,
    {
        let ghost pre = out@.map_values(|c: FreqCard| c@);
        match parse_fcard_at(s, j) {
            None => {
                proof {
                    assert(spec_parse_fcards(s@.skip(j as int), cnt as int - k as int) is None);
                    assert(spec_parse_fcards(s@.skip(p0 as int), cnt as int) is None);
                    assert(spec_decode_freq(s@) is None);
                }
                return Err(SrsError::Corrupt);
            },
            Some((card, j2)) => {
                out.push(card);
                proof {
                    assert(out@.map_values(|c: FreqCard| c@) =~= pre.push(card@));
                    if let Some(pr2) = spec_parse_fcards(
                        s@.skip(j as int),
                        cnt as int - k as int,
                    ) {
                        if let Some(pr3) = spec_parse_fcards(
                            s@.skip(j2 as int),
                            cnt as int - (k + 1) as int,
                        ) {
                            assert(pr2.0 == seq![card@] + pr3.0 && pr2.1 == pr3.1);
                            assert(pre + (seq![card@] + pr3.0) =~= pre.push(card@) + pr3.0);
                        }
                    }
                }
                j = j2;
                k += 1;
            },
        }
    }
    let n = s.unicode_len();
    proof {
        assert(spec_parse_fcards(s@.skip(j as int), 0) == Some(
            (Seq::<FreqCardV>::empty(), s@.skip(j as int)),
        ));
        assert(out@.map_values(|c: FreqCard| c@) + Seq::<FreqCardV>::empty() =~= out@.map_values(
            |c: FreqCard| c@,
        ));
    }
    if j == n {
        proof {
            assert(s@.skip(j as int).len() == 0);
        }
        Ok(out)
    } else {
        proof {
            assert(s@.skip(j as int).len() > 0);
        }
        Err(SrsError::Corrupt)
    }
}

/// Reads a collection back from the persisted text format, reporting a text
/// that is not exactly an encoded collection as corrupt.
pub fn decode(s: &str) -> (r: Result<Vec<Card>, SrsError>)
    ensures
        spec_decode(s@) matches Some(cs) ==> (r matches Ok(v) && v@.map_values(|c: Card| c@)
            == cs),
        spec_decode(s@) is None ==> r == Err::<Vec<Card>, SrsError>(SrsError::Corrupt),
{
    proof {
        assert(s@.skip(0) =~= s@);
    }
    let h0 = match expect_lit_at(s, 0, "count=") {
        None => {
            return Err(SrsError::Corrupt);
        },
        Some(j) => j,
    };
    let (cnt, p1) = match parse_num_at(s, h0) {
        None => {
            return Err(SrsError::Corrupt);
        },
        Some(p) => p,
    };
    let p0 = match expect_at(s, p1, '\n') {
        None => {
            return Err(SrsError::Corrupt);
        },
        Some(j) => j,
    };
    let mut out: Vec<Card> = Vec::new();
    let mut j = p0;
    let mut k: u64 = 0;
    proof {
        assert(out@.map_values(|c: Card| c@) =~= Seq::<CardV>::empty());
        if let Some(pr) = spec_parse_cards(s@.skip(p0 as int), cnt as int) {
            assert(pr.0 =~= Seq::<CardV>::empty() + pr.0);
        }
    }
    while k < cnt
        invariant
            k <= cnt,
            j <= s@.len(),
            out@.len() == k,
            spec_parse_num_line(s@, "count="@) == Some((cnt as int, s@.skip(p0 as int))),
            p0 <= s@.len(),
            spec_parse_cards(s@.skip(p0 as int), cnt as int) matches Some(pr)
                ==> spec_parse_cards(s@.skip(j as int), cnt as int - k as int) matches Some(pr2)
                && pr.0 == out@.map_values(|c: Card| c@) + pr2.0 && pr.1 == pr2.1,
            spec_parse_cards(s@.skip(p0 as int), cnt as int) is None ==> spec_parse_cards(
                s@.skip(j as int),
                cnt as int - k as int,
            ) is None,
        decreases cnt - k,
    {
        let ghost pre = out@.map_values(|c: Card| c@);
        match parse_card_at(s, j) {
            None => {
                proof {
                    assert(spec_parse_cards(s@.skip(j as int), cnt as int - k as int) is None);
                    assert(spec_parse_cards(s@.skip(p0 as int), cnt as int) is None);
                    assert(spec_decode(s@) is None);
                }
                return Err(SrsError::Corrupt);
            },
            Some((card, j2)) => {
                out.push(card);
                proof {
                    assert(out@.map_values(|c: Card| c@) =~= pre.push(card@));
                    if let Some(pr2) = spec_parse_cards(s@.skip(j as int), cnt as int - k as int) {
                        if let Some(pr3) = spec_parse_cards(
                            s@.skip(j2 as int),
                            cnt as int - (k + 1) as int,
                        ) {
                            assert(pr2.0 == seq![card@] + pr3.0 && pr2.1 == pr3.1);
                            assert(pre + (seq![card@] + pr3.0) =~= pre.push(card@) + pr3.0);
                        }
                    }
                }
                j = j2;
                k += 1;
            },
        }
    }
    let n = s.unicode_len();
    proof {
        assert(spec_parse_cards(s@.skip(j as int), 0) == Some(
            (Seq::<CardV>::empty(), s@.skip(j as int)),
        ));
        assert(out@.map_values(|c: Card| c@) + Seq::<CardV>::empty() =~= out@.map_values(
            |c: Card| c@,
        ));
    }
    if j == n {
        proof {
            assert(s@.skip(j as int).len() == 0);
        }
        Ok(out)
    } else {
        proof {
            assert(s@.skip(j as int).len() > 0);
        }
        Err(SrsError::Corrupt)
    }
}

} // verus!
