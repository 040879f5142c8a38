use vocab_srs::codec::{decode, decode_freq, encode, encode_freq, parse_u64};
use vocab_srs::dedup::deduplicate;
use vocab_srs::errors::SrsError;
use vocab_srs::frequency::FrequencyScheduler;
use vocab_srs::models::{Card, FreqCard};
use vocab_srs::seed::{decode_seed, encode_seed};
use vocab_srs::srs::LeitnerSystem;

fn card(term: &str, translation: &str, box_number: u64, next_review: u64) -> Card {
    Card { term: term.to_string(), translation: translation.to_string(), box_number, next_review }
}

fn same_cards(a: &[Card], b: &[Card]) -> bool {
    a.len() == b.len()
        && a.iter().zip(b.iter()).all(|(x, y)| {
            x.term == y.term
                && x.translation == y.translation
                && x.box_number == y.box_number
                && x.next_review == y.next_review
        })
}

#[test]
fn round_trip_empty_collection() {
    let cards: Vec<Card> = Vec::new();
    let text = encode(&cards);
    let back = decode(text.as_str()).expect("an encoding always decodes");
    assert!(back.is_empty());
}

#[test]
fn round_trip_single_card() {
    let cards = vec![card("neko", "chat", 2, 170_000)];
    let text = encode(&cards);
    let back = decode(text.as_str()).expect("an encoding always decodes");
    assert!(same_cards(&cards, &back));
}

#[test]
fn persisted_text_carries_field_names() {
    let text = encode(&vec![card("neko", "chat", 2, 170_000)]);
    assert_eq!(
        text,
        "count=1\nterm=4:neko\ntranslation=4:chat\nbox=2\nnext=170000\n"
    );
}

#[test]
fn round_trip_many_cards_with_hard_strings() {
    let cards = vec![
        card("\u{732b}", "chat", 0, 1_000),
        card("with:colon", "and\nnewline", 4, u64::MAX),
        card("", "empty term stays distinct", 1, 0),
    ];
    let text = encode(&cards);
    let back = decode(text.as_str()).expect("an encoding always decodes");
    assert!(same_cards(&cards, &back));
}

#[test]
fn corrupt_text_is_refused() {
    assert_eq!(decode("").err(), Some(SrsError::Corrupt));
    assert_eq!(decode("garbage").err(), Some(SrsError::Corrupt));
    assert_eq!(decode("1\n4:neko").err(), Some(SrsError::Corrupt));
    // trailing bytes after a full collection are refused too
    let text = format!("{}x", encode(&vec![card("a", "b", 0, 0)]));
    assert_eq!(decode(text.as_str()).err(), Some(SrsError::Corrupt));
}

#[test]
fn loaded_collection_is_validated() {
    let good = vec![card("a", "1", 0, 0), card("b", "2", 4, 9)];
    assert!(LeitnerSystem::from_cards(good).is_ok());
    let dup = vec![card("a", "1", 0, 0), card("a", "2", 0, 0)];
    assert_eq!(LeitnerSystem::from_cards(dup).err(), Some(SrsError::Corrupt));
    let high_box = vec![card("a", "1", 5, 0)];
    assert_eq!(LeitnerSystem::from_cards(high_box).err(), Some(SrsError::Corrupt));
}

#[test]
fn dedup_keeps_first_and_is_idempotent() {
    let cards = vec![
        card("a", "first", 0, 1),
        card("b", "second", 1, 2),
        card("a", "later duplicate", 2, 3),
        card("c", "third", 3, 4),
        card("b", "later duplicate", 4, 5),
    ];
    let once = deduplicate(&cards);
    assert_eq!(once.len(), 3);
    assert_eq!(once[0].term, "a");
    assert_eq!(once[0].translation, "first");
    assert_eq!(once[1].term, "b");
    assert_eq!(once[1].translation, "second");
    assert_eq!(once[2].term, "c");
    let twice = deduplicate(&once);
    assert!(same_cards(&once, &twice));
}

#[test]
fn seed_text_holds_the_positions() {
    assert_eq!(encode_seed(&Vec::new()), "");
    assert_eq!(encode_seed(&vec![7]), "7");
    assert_eq!(encode_seed(&vec![1, 5, 2]), "1,5,2");
    assert_eq!(encode_seed(&vec![10, 0, 304]), "10,0,304");
}

#[test]
fn seed_text_reads_back_and_rejects_malformed() {
    assert_eq!(decode_seed(""), Ok(Vec::new()));
    assert_eq!(decode_seed("7"), Ok(vec![7]));
    assert_eq!(decode_seed("1,5,2"), Ok(vec![1, 5, 2]));
    assert_eq!(decode_seed("10,0,304"), Ok(vec![10, 0, 304]));
    // a written seed always reads back as what it was written from
    for ixs in [vec![], vec![0], vec![3, 1, 4, 1, 5], vec![u64::MAX, 0]] {
        assert_eq!(decode_seed(encode_seed(&ixs).as_str()), Ok(ixs));
    }
    for bad in ["x", "1,", ",1", "1,,2", "1, 2", "1,2x", "-1", "18446744073709551616"] {
        assert_eq!(decode_seed(bad), Err(SrsError::ReplayMalformed));
    }
}

#[test]
fn whole_numbers_parse_back() {
    assert_eq!(parse_u64("0"), Some(0));
    assert_eq!(parse_u64("42"), Some(42));
    assert_eq!(parse_u64("18446744073709551615"), Some(u64::MAX));
    assert_eq!(parse_u64("18446744073709551616"), None);
    assert_eq!(parse_u64(""), None);
    assert_eq!(parse_u64("4x"), None);
    assert_eq!(parse_u64("x4"), None);
}

#[test]
fn store_survives_a_save_and_load() {
    let mut sys = LeitnerSystem::new();
    sys.add_card("neko".to_string(), "chat".to_string(), 1_000).unwrap();
    sys.add_card("inu".to_string(), "chien".to_string(), 1_000).unwrap();
    let term = "neko".to_string();
    sys.review_card(&term, true, 2_000);
    let saved = encode(&sys.cards());
    let loaded = LeitnerSystem::from_cards(decode(saved.as_str()).unwrap()).unwrap();
    assert!(same_cards(&sys.cards(), &loaded.cards()));
}

#[test]
fn frequency_store_survives_a_save_and_load() {
    let empty: Vec<FreqCard> = Vec::new();
    assert!(decode_freq(encode_freq(&empty).as_str()).unwrap().is_empty());

    let mut f = FrequencyScheduler::new();
    f.add_card("neko".to_string(), "chat".to_string()).unwrap();
    f.add_card("inu".to_string(), "chien".to_string()).unwrap();
    let term = "neko".to_string();
    f.update(&term, true);
    f.update(&term, false);
    let saved = encode_freq(&f.cards());
    let loaded = FrequencyScheduler::from_cards(decode_freq(saved.as_str()).unwrap()).unwrap();
    assert_eq!(loaded.len(), 2);
    let c = loaded.card_at(0);
    assert_eq!(c.term, "neko");
    assert_eq!(c.success_count, 1);
    assert_eq!(c.attempt_count, 2);

    assert_eq!(decode_freq("not a collection").err(), Some(SrsError::Corrupt));
    // more successes than attempts cannot come from this library: refused
    let bad = vec![FreqCard {
        term: "a".to_string(),
        translation: "x".to_string(),
        success_count: 3,
        attempt_count: 1,
    }];
    assert_eq!(FrequencyScheduler::from_cards(bad).err(), Some(SrsError::Corrupt));
}

#[test]
fn clock_reads_a_present_day_time() {
    // any run of this code happens well after 2020
    assert!(vocab_srs::clock::current_time() > 1_577_836_800);
}
