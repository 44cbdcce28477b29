use flashcard_core::model::Flashcard;
use flashcard_core::model::FlashcardAnswer;
use flashcard_core::model::AppError;
use flashcard_core::model::ReviewHistory;
use flashcard_core::outcome::apply_outcome;
use flashcard_core::outcome::apply_outcome_by_id;
use flashcard_core::outcome::review_record;
use flashcard_core::outcome::FAILURE_INTERVAL_SECS;
use flashcard_core::outcome::MIN_INTERVAL_SECS;
use flashcard_core::schedule::due_items;
use flashcard_core::schedule::due_items_by_tag;
use flashcard_core::schedule::next_due_item;
use flashcard_core::schedule::next_due_item_by_tag;

fn card(id: i64, last_reviewed: i64, review_after_secs: i64, tags: &[&str]) -> Flashcard {
    Flashcard {
        id,
        question: format!("question{}", id),
        answer: format!("answer{}", id),
        examples: None,
        source: None,
        img: None,
        question_img: None,
        tags: tags.iter().map(|t| t.to_string()).collect(),
        last_reviewed,
        review_after_secs,
    }
}

const T0: i64 = 1_700_000_000;

#[test]
fn due_predicate_includes_exactly_the_due_items() {
    let items = vec![
        card(1, T0, 0, &[]),          // due exactly at T0
        card(2, T0, 3600, &[]),       // due at T0 + 1h
        card(3, T0 - 7200, 3600, &[]), // fell due an hour ago
        card(4, T0 + 10, 0, &[]),     // not due: reviewed in the future
    ];
    let due = due_items(&items, T0);
    let ids: Vec<i64> = due.iter().map(|c| c.id).collect();
    assert!(ids.contains(&1));
    assert!(!ids.contains(&2));
    assert!(ids.contains(&3));
    assert!(!ids.contains(&4));
    assert_eq!(due.len(), 2);
}

#[test]
fn longest_overdue_comes_first() {
    // A fell due two days ago, B one hour ago.
    let a = card(1, T0 - 3 * 86400, 86400, &[]);
    let b = card(2, T0 - 2 * 3600, 3600, &[]);
    let items = vec![b.clone(), a.clone()];
    let due = due_items(&items, T0);
    assert_eq!(due.len(), 2);
    assert_eq!(due[0].id, 1);
    assert_eq!(due[1].id, 2);
}

#[test]
fn equal_due_times_break_ties_by_id() {
    let items = vec![
        card(9, T0 - 100, 50, &[]),
        card(3, T0 - 150, 100, &[]),
        card(7, T0 - 200, 150, &[]),
    ];
    // all three fell due at T0 - 50
    let due = due_items(&items, T0);
    let ids: Vec<i64> = due.iter().map(|c| c.id).collect();
    assert_eq!(ids, vec![3, 7, 9]);
}

#[test]
fn doubling_starts_at_the_minimum_interval() {
    let c0 = card(1, T0, 0, &[]);
    let c1 = apply_outcome(c0, FlashcardAnswer::Remember, T0);
    assert_eq!(c1.review_after_secs, MIN_INTERVAL_SECS);
    assert_eq!(c1.review_after_secs, 86400);
    assert_eq!(c1.last_reviewed, T0);
    let c2 = apply_outcome(c1, FlashcardAnswer::Remember, T0 + 86400);
    assert_eq!(c2.review_after_secs, 2 * MIN_INTERVAL_SECS);
    let c3 = apply_outcome(c2, FlashcardAnswer::Remember, T0 + 3 * 86400);
    assert_eq!(c3.review_after_secs, 4 * MIN_INTERVAL_SECS);
}

#[test]
fn forgetting_resets_to_the_fixed_backoff() {
    for interval in [0, 1, 3600, 86400, 86400 * 64] {
        let c = card(1, T0, interval, &[]);
        let after = apply_outcome(c, FlashcardAnswer::Not, T0);
        assert_eq!(after.review_after_secs, FAILURE_INTERVAL_SECS);
        assert_eq!(after.review_after_secs, 3600);
        assert_eq!(after.last_reviewed, T0);
    }
}

#[test]
fn outcome_keeps_the_content() {
    let mut c = card(5, T0, 100, &["spanish", "verbs"]);
    c.examples = Some("example".to_string());
    c.source = Some("a book".to_string());
    let after = apply_outcome(c.clone(), FlashcardAnswer::Remember, T0 + 1);
    assert_eq!(after.id, 5);
    assert_eq!(after.question, c.question);
    assert_eq!(after.answer, c.answer);
    assert_eq!(after.examples, c.examples);
    assert_eq!(after.source, c.source);
    assert_eq!(after.tags, c.tags);
}

#[test]
fn tag_filter_returns_only_tagged_items_in_order() {
    let items = vec![
        card(1, T0 - 86400, 0, &["spanish"]),
        card(2, T0 - 7200, 0, &["maths"]),
        card(3, T0 - 3600, 0, &["spanish", "verbs"]),
        card(4, T0 + 3600, 0, &["spanish"]), // not due
    ];
    let due = due_items_by_tag(&items, "spanish", T0);
    let ids: Vec<i64> = due.iter().map(|c| c.id).collect();
    assert_eq!(ids, vec![1, 3]);
    let next = next_due_item_by_tag(&items, "spanish", T0).unwrap();
    assert_eq!(next.id, 1);
    assert!(due_items_by_tag(&items, "japanese", T0).is_empty());
    assert!(next_due_item_by_tag(&items, "japanese", T0).is_none());
}

#[test]
fn double_submission_is_not_idempotent() {
    let c0 = card(1, T0, 86400, &[]);
    let once = apply_outcome(c0.clone(), FlashcardAnswer::Remember, T0);
    let twice = apply_outcome(once.clone(), FlashcardAnswer::Remember, T0);
    assert_ne!(once.review_after_secs, twice.review_after_secs);
    assert_eq!(once.review_after_secs, 172800);
    assert_eq!(twice.review_after_secs, 345600);
}

#[test]
fn end_to_end_review_scenario() {
    // Created at T0, immediately due.
    let item = card(1, T0, 0, &[]);
    let items = vec![item];
    assert_eq!(next_due_item(&items, T0).unwrap().id, 1);

    // Remembered at T0: one-day interval, reviewed now.
    let item = apply_outcome(items.into_iter().next().unwrap(), FlashcardAnswer::Remember, T0);
    assert_eq!(item.review_after_secs, 86400);
    assert_eq!(item.last_reviewed, T0);

    // Twelve hours on: not due.
    let items = vec![item];
    assert!(next_due_item(&items, T0 + 12 * 3600).is_none());
    assert!(due_items(&items, T0 + 12 * 3600).is_empty());

    // Twenty-five hours on: due.
    assert_eq!(next_due_item(&items, T0 + 25 * 3600).unwrap().id, 1);

    // Forgotten at T0 + 25h: one-hour back-off, due again an hour later.
    let t1 = T0 + 25 * 3600;
    let item = apply_outcome(items.into_iter().next().unwrap(), FlashcardAnswer::Not, t1);
    assert_eq!(item.review_after_secs, 3600);
    assert_eq!(item.last_reviewed, t1);
    let items = vec![item];
    assert!(next_due_item(&items, t1 + 1800).is_none());
    assert_eq!(next_due_item(&items, t1 + 3600).unwrap().id, 1);
}

#[test]
fn outcome_by_id_updates_the_matching_card_only() {
    let mut items = vec![
        card(1, T0, 100, &[]),
        card(2, T0, 200, &[]),
        card(3, T0, 300, &[]),
    ];
    let r = apply_outcome_by_id(&mut items, 2, FlashcardAnswer::Not, T0 + 50);
    assert!(r.is_ok());
    assert_eq!(items[0].review_after_secs, 100);
    assert_eq!(items[1].review_after_secs, 3600);
    assert_eq!(items[1].last_reviewed, T0 + 50);
    assert_eq!(items[2].review_after_secs, 300);
}

#[test]
fn outcome_for_an_unknown_id_is_not_found() {
    let mut items = vec![card(1, T0, 100, &[])];
    let r = apply_outcome_by_id(&mut items, 99, FlashcardAnswer::Remember, T0);
    assert_eq!(r, Err(AppError::NotFound));
    assert_eq!(items[0].review_after_secs, 100);
    assert_eq!(items[0].last_reviewed, T0);
}

#[test]
fn empty_input_is_valid_and_yields_nothing() {
    let items: Vec<Flashcard> = Vec::new();
    assert!(due_items(&items, T0).is_empty());
    assert!(next_due_item(&items, T0).is_none());
    assert!(due_items_by_tag(&items, "spanish", T0).is_empty());
}

#[test]
fn duplicate_cards_are_all_returned() {
    let c = card(1, T0 - 100, 0, &[]);
    let items = vec![c.clone(), c.clone()];
    assert_eq!(due_items(&items, T0).len(), 2);
}

#[test]
fn new_cards_carry_the_default_state() {
    let c = Flashcard::new("q".to_string(), "a".to_string(), T0);
    assert_eq!(c.id, 0);
    assert_eq!(c.question, "q");
    assert_eq!(c.answer, "a");
    assert_eq!(c.last_reviewed, T0);
    assert_eq!(c.review_after_secs, 43200);
    assert!(c.tags.is_empty());
}

#[test]
fn test_ok_appends_to_review_history() {
    let now = chrono::Utc::now().timestamp();
    let mut card = Flashcard::new("question1".to_string(), "answer1".to_string(), now);
    card.id = 1;
    let mut items = vec![card];
    let mut review_history: Vec<ReviewHistory> = Vec::new();

    // a remembered review both reschedules the card and records the event
    apply_outcome_by_id(&mut items, 1, FlashcardAnswer::Remember, now).unwrap();
    review_history.push(review_record(1, FlashcardAnswer::Remember, now));

    assert_eq!(review_history.len(), 1);
    assert_eq!(review_history[0].flashcard_id, 1);
    assert_eq!(
        chrono::DateTime::from_timestamp(review_history[0].review_date, 0)
            .unwrap()
            .format("%Y-%m-%d")
            .to_string(),
        chrono::Utc::now().format("%Y-%m-%d").to_string()
    );
    assert_eq!(review_history[0].remembered, true);
}

#[test]
fn forgetting_records_an_unremembered_event() {
    let r = review_record(7, FlashcardAnswer::Not, 12345);
    assert_eq!(r.flashcard_id, 7);
    assert_eq!(r.review_date, 12345);
    assert_eq!(r.remembered, false);
}

#[test]
fn invariant_check_rejects_malformed_cards() {
    let good = card(1, T0, 0, &[]);
    assert!(good.check_invariant(T0).is_ok());
    let negative = card(2, T0, -5, &[]);
    assert_eq!(negative.check_invariant(T0), Err(AppError::InvariantViolation));
    let future = card(3, T0 + 10, 0, &[]);
    assert_eq!(future.check_invariant(T0), Err(AppError::InvariantViolation));
}
