use vocab_srs::errors::SrsError;
use vocab_srs::frequency::FrequencyScheduler;
use vocab_srs::scheduler::Scheduler;
use vocab_srs::models::MAX_BOX;
use vocab_srs::quiz::{grade, tier_of, Tier};
use vocab_srs::srs::LeitnerSystem;

const DAY: u64 = 86400;

fn add(sys: &mut LeitnerSystem, term: &str, translation: &str, now: u64) {
    sys.add_card(term.to_string(), translation.to_string(), now)
        .expect("fresh term should be accepted");
}

#[test]
fn incorrect_runs_reset_to_box_zero() {
    let mut sys = LeitnerSystem::new();
    add(&mut sys, "neko", "chat", 1_000);
    let term = "neko".to_string();
    // climb a little first
    sys.review_card(&term, true, 2_000);
    sys.review_card(&term, true, 3_000);
    // three incorrect answers in a row
    sys.review_card(&term, false, 4_000);
    sys.review_card(&term, false, 5_000);
    sys.review_card(&term, false, 6_000);
    let cards = sys.cards();
    assert_eq!(cards.len(), 1);
    assert_eq!(cards[0].box_number, 0);
    assert_eq!(cards[0].next_review, 6_000 + DAY);
}

#[test]
fn correct_promotes_one_box_and_saturates() {
    let mut sys = LeitnerSystem::new();
    add(&mut sys, "inu", "chien", 1_000);
    let term = "inu".to_string();
    sys.review_card(&term, true, 2_000);
    let cards = sys.cards();
    assert_eq!(cards[0].box_number, 1);
    assert_eq!(cards[0].next_review, 2_000 + 2 * DAY);
    sys.review_card(&term, true, 3_000);
    assert_eq!(sys.cards()[0].box_number, 2);
    assert_eq!(sys.cards()[0].next_review, 3_000 + 4 * DAY);
    sys.review_card(&term, true, 4_000);
    assert_eq!(sys.cards()[0].box_number, 3);
    sys.review_card(&term, true, 5_000);
    assert_eq!(sys.cards()[0].box_number, MAX_BOX - 1);
    assert_eq!(sys.cards()[0].next_review, 5_000 + 16 * DAY);
    // at the highest box a correct answer stays put
    sys.review_card(&term, true, 6_000);
    assert_eq!(sys.cards()[0].box_number, MAX_BOX - 1);
    assert_eq!(sys.cards()[0].next_review, 6_000 + 16 * DAY);
}

#[test]
fn unknown_term_changes_nothing() {
    let mut sys = LeitnerSystem::new();
    add(&mut sys, "neko", "chat", 1_000);
    sys.review_card(&"tori".to_string(), true, 2_000);
    let cards = sys.cards();
    assert_eq!(cards[0].box_number, 0);
    assert_eq!(cards[0].next_review, 1_000);
}

#[test]
fn duplicate_term_is_rejected_unchanged() {
    let mut sys = LeitnerSystem::new();
    add(&mut sys, "neko", "chat", 1_000);
    let r = sys.add_card("neko".to_string(), "minou".to_string(), 2_000);
    assert_eq!(r, Err(SrsError::DuplicateTerm));
    let cards = sys.cards();
    assert_eq!(cards.len(), 1);
    assert_eq!(cards[0].translation, "chat");
}

#[test]
fn due_cards_respect_time_and_count() {
    let mut sys = LeitnerSystem::new();
    add(&mut sys, "a", "1", 1_000);
    add(&mut sys, "b", "2", 1_000);
    add(&mut sys, "c", "3", 1_000);
    let term_b = "b".to_string();
    sys.review_card(&term_b, true, 1_000); // b now due far in the future
    let due = sys.get_due_cards(1_000, 10);
    assert_eq!(due.len(), 2);
    assert_eq!(due[0].term, "a");
    assert_eq!(due[1].term, "c");
    let due_one = sys.get_due_cards(1_000, 1);
    assert_eq!(due_one.len(), 1);
    assert_eq!(due_one[0].term, "a");
}

#[test]
fn grading_is_case_insensitive_exact_match() {
    assert!(grade("BONJOUR", "bonjour"));
    assert!(grade("Chat", "chat"));
    assert!(!grade("chat ", "chat"));
    assert!(!grade("chien", "chat"));
}

#[test]
fn tiers_divide_at_eighty_and_fifty_percent() {
    assert_eq!(tier_of(8, 10), Tier::High);
    assert_eq!(tier_of(4, 5), Tier::High);
    assert_eq!(tier_of(7, 10), Tier::Medium);
    assert_eq!(tier_of(1, 2), Tier::Medium);
    assert_eq!(tier_of(4, 10), Tier::Low);
    assert_eq!(tier_of(0, 3), Tier::Low);
    assert_eq!(tier_of(8, 10).label(), "high");
    assert_eq!(tier_of(5, 10).label(), "medium");
    assert_eq!(tier_of(0, 10).label(), "low");
}

#[test]
fn quiz_of_ten_scores_eight_high() {
    let mut sys = LeitnerSystem::new();
    let terms = ["a", "b", "c", "d", "e", "f", "g", "h", "i", "j"];
    for t in terms.iter() {
        add(&mut sys, t, &format!("{}{}", t, t), 1_000);
    }
    let mut session = sys.start_quiz(1_000, 10, true).expect("all ten cards are due");
    let mut batch_terms: Vec<String> = Vec::new();
    let mut asked = 0;
    while !session.is_finished() {
        let term = session.current_term().clone();
        assert!(!batch_terms.contains(&term), "no duplicate within one batch");
        batch_terms.push(term);
        let expected = session.current_translation().clone();
        // answer the first eight correctly (up to case), the last two wrongly
        let answer = if asked < 8 { expected.to_uppercase() } else { "zzz".to_string() };
        let correct = session.submit_answer(&answer, 2_000);
        assert_eq!(correct, asked < 8);
        asked += 1;
    }
    assert_eq!(asked, 10);
    let report = session.report();
    assert_eq!(report.score, 8);
    assert_eq!(report.total, 10);
    assert_eq!(report.tier, Tier::High);
    assert_eq!(report.tier.label(), "high");
    let sys = session.into_system();
    assert_eq!(sys.len(), 10);
}

#[test]
fn nine_items_short_batch_or_exact_error() {
    let mut sys = LeitnerSystem::new();
    for t in ["a", "b", "c", "d", "e", "f", "g", "h", "i"].iter() {
        add(&mut sys, t, "x", 1_000);
    }
    // an exact-size request over nine due cards is refused distinctly
    let err = sys.start_quiz(1_000, 10, true).err().expect("exact batch cannot be filled");
    assert_eq!(err, SrsError::InsufficientDue);
    // without the exactness demand the shorter batch is accepted
    let mut sys = LeitnerSystem::new();
    for t in ["a", "b", "c", "d", "e", "f", "g", "h", "i"].iter() {
        add(&mut sys, t, "x", 1_000);
    }
    let mut session = sys.start_quiz(1_000, 10, false).expect("a short batch is fine");
    let mut n = 0;
    while !session.is_finished() {
        session.submit_answer("x", 2_000);
        n += 1;
    }
    assert_eq!(n, 9);
    assert_eq!(session.report().total, 9);
}

#[test]
fn quiz_with_nothing_due_is_refused() {
    let sys = LeitnerSystem::new();
    assert_eq!(sys.start_quiz(1_000, 5, false).err(), Some(SrsError::NoneDue));
    // a zero-count request asks for nothing: refused the same way
    let mut sys = LeitnerSystem::new();
    add(&mut sys, "a", "x", 1_000);
    assert_eq!(sys.start_quiz(1_000, 0, false).err(), Some(SrsError::NoneDue));
    let mut sys = LeitnerSystem::new();
    add(&mut sys, "a", "x", 1_000);
    let term = "a".to_string();
    sys.review_card(&term, true, 1_000); // pushes the review into the future
    assert_eq!(sys.start_quiz(1_000, 1, false).err(), Some(SrsError::NoneDue));
}

#[test]
fn list_cards_sorts_by_term() {
    let mut sys = LeitnerSystem::new();
    add(&mut sys, "banane", "banana", 1_000);
    add(&mut sys, "abricot", "apricot", 1_000);
    add(&mut sys, "cerise", "cherry", 1_000);
    let listed = sys.list_cards();
    assert_eq!(listed.len(), 3);
    assert_eq!(listed[0].term, "abricot");
    assert_eq!(listed[1].term, "banane");
    assert_eq!(listed[2].term, "cerise");
}

#[test]
fn frequency_selection_never_repeats_and_fails_past_pool() {
    let mut f = FrequencyScheduler::new();
    for t in ["a", "b", "c"].iter() {
        f.add_card(t.to_string(), "x".to_string()).unwrap();
    }
    let draws = vec![7, 13, 2];
    let picks = f.select_indices(3, &draws).expect("three eligible cards");
    assert_eq!(picks.len(), 3);
    assert!(picks[0] != picks[1] && picks[1] != picks[2] && picks[0] != picks[2]);
    assert!(picks.iter().all(|&p| p < 3));
    let draws4 = vec![0, 0, 0, 0];
    assert_eq!(f.select_indices(4, &draws4), Err(SrsError::InsufficientDue));
}

#[test]
fn untried_card_is_always_selectable() {
    let mut f = FrequencyScheduler::new();
    f.add_card("perfect".to_string(), "x".to_string()).unwrap();
    f.add_card("fresh".to_string(), "y".to_string()).unwrap();
    let term = "perfect".to_string();
    f.update(&term, true); // one attempt, one success: no weight left
    for draw in [0u64, 1, 999, 12345, u64::MAX] {
        let picks = f.select_indices(1, &vec![draw]).expect("the fresh card is eligible");
        assert_eq!(picks, vec![1], "the untried card must be picked whatever the draw");
    }
    // asking for both cards cannot work: only one is eligible
    assert_eq!(f.select_indices(2, &vec![0, 0]), Err(SrsError::InsufficientDue));

    // the walk stops at an untried card outright, whatever draw remains
    let mut f2 = FrequencyScheduler::new();
    f2.add_card("p1".to_string(), "x".to_string()).unwrap();
    f2.add_card("fresh".to_string(), "y".to_string()).unwrap();
    f2.add_card("p2".to_string(), "z".to_string()).unwrap();
    for t in ["p1", "p2"] {
        let term = t.to_string();
        f2.update(&term, true);
        f2.update(&term, false); // one success out of two: half weight
    }
    // total weight 500 + 1000 + 500; a remainder of 1999 would reach p2 if
    // the fresh card did not stop the walk
    assert_eq!(f2.select_indices(1, &vec![1999]).unwrap(), vec![1]);
}

#[test]
fn frequency_update_counts_attempts_and_successes() {
    let mut f = FrequencyScheduler::new();
    f.add_card("a".to_string(), "x".to_string()).unwrap();
    let term = "a".to_string();
    f.update(&term, true);
    f.update(&term, false);
    f.update(&term, true);
    let c = f.card_at(0);
    assert_eq!(c.attempt_count, 3);
    assert_eq!(c.success_count, 2);
    assert_eq!(f.add_card("a".to_string(), "y".to_string()), Err(SrsError::DuplicateTerm));
}

#[test]
fn scheduler_dispatches_to_either_strategy() {
    let mut sys = LeitnerSystem::new();
    add(&mut sys, "neko", "chat", 1_000);
    add(&mut sys, "inu", "chien", 1_000);
    let mut boxed = Scheduler::Leitner(sys);
    let term = "neko".to_string();
    boxed.update(&term, false, 2_000);
    let batch = boxed.select(2_000, 5, &vec![0, 0, 0, 0, 0]).unwrap();
    assert_eq!(batch, vec!["inu".to_string()]); // neko was pushed a day out

    let mut f = FrequencyScheduler::new();
    f.add_card("a".to_string(), "1".to_string()).unwrap();
    f.add_card("b".to_string(), "2".to_string()).unwrap();
    let mut weighted = Scheduler::Frequency(f);
    let term_a = "a".to_string();
    weighted.update(&term_a, true, 2_000); // a becomes ineligible
    let batch = weighted.select(2_000, 1, &vec![42]).unwrap();
    assert_eq!(batch, vec!["b".to_string()]);
    assert_eq!(
        weighted.select(2_000, 2, &vec![0, 0]).err(),
        Some(SrsError::InsufficientDue)
    );
}

#[test]
fn replay_reproduces_order_and_checks_bounds() {
    let mut f = FrequencyScheduler::new();
    for (t, tr) in [("a", "1"), ("b", "2"), ("c", "3")].iter() {
        f.add_card(t.to_string(), tr.to_string()).unwrap();
    }
    let batch = f.replay_batch(&vec![2, 0, 1]).expect("indices in range");
    assert_eq!(batch[0].term, "c");
    assert_eq!(batch[1].term, "a");
    assert_eq!(batch[2].term, "b");
    assert_eq!(f.replay_batch(&vec![0, 3]).err(), Some(SrsError::ReplayOutOfRange));
}
