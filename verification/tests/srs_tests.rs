use zwcd::deck::{get_all_due_words, get_due_words_count, record_word_review, start_study_session};
use zwcd::models::{DeckWithWords, DeckWord, Word};
use zwcd::srs::{
    current_time, is_valid_performance, EaseFactor, SrsEngine, SrsError, SrsReview, Timestamp,
};

const DAY: i64 = 86_400;

fn at(secs: i64) -> Timestamp {
    Timestamp { secs, nanos: 0 }
}

fn deck_word(id: i32, deck_id: i32) -> DeckWord {
    DeckWord {
        id,
        simplified: format!("词{}", id),
        traditional: None,
        pinyin: "ci2".to_string(),
        definition: "word".to_string(),
        deck_id,
    }
}

fn word(id: i32) -> Word {
    Word {
        id,
        simplified: format!("词{}", id),
        traditional: Some(format!("詞{}", id)),
        pinyin: "ci2".to_string(),
        definition: "word".to_string(),
    }
}

fn state(ease: u32, interval: i32, reviewed: i64) -> SrsReview {
    SrsReview {
        review_id: Some(9),
        word_id: 3,
        deck_id: 2,
        user_id: 1,
        review_date: at(reviewed),
        next_review_date: at(reviewed + DAY * interval as i64),
        ease_factor: EaseFactor { hundredths: ease },
        interval,
        performance: 4,
    }
}

#[test]
fn invalid_performance_is_refused_and_changes_nothing() {
    let mut engine = SrsEngine::new();
    assert_eq!(engine.record_review_at(1, 2, 3, 0, at(1000)), Err(SrsError::InvalidPerformance));
    assert_eq!(engine.record_review_at(1, 2, 3, 6, at(1000)), Err(SrsError::InvalidPerformance));
    assert_eq!(engine.record_review_at(1, 2, 3, -1, at(1000)), Err(SrsError::InvalidPerformance));
    assert_eq!(engine.len(), 0);
    let first = engine.record_review_at(1, 2, 3, 4, at(1000)).unwrap();
    assert_eq!(engine.record_review_at(1, 2, 3, 0, at(2000)), Err(SrsError::InvalidPerformance));
    assert_eq!(engine.record_review_at(1, 2, 3, 6, at(2000)), Err(SrsError::InvalidPerformance));
    assert_eq!(engine.len(), 1);
    assert_eq!(engine.get_last_review(1, 2, 3), Some(first));
    assert_eq!(engine.record_review(1, 2, 3, 6), Err(SrsError::InvalidPerformance));
    assert_eq!(engine.get_last_review(1, 2, 3), Some(first));
}

#[test]
fn ratings_run_from_one_to_five() {
    for p in 1..=5 {
        assert!(is_valid_performance(p));
    }
    for p in [0, 6, -1, i32::MAX, i32::MIN] {
        assert!(!is_valid_performance(p));
    }
}

#[test]
fn first_review_with_five_is_due_in_seven_days() {
    let mut engine = SrsEngine::new();
    let now = Timestamp { secs: 1_700_000_000, nanos: 123 };
    let s = engine.record_review_at(1, 2, 3, 5, now).unwrap();
    assert_eq!(s.ease_factor, EaseFactor { hundredths: 250 });
    assert_eq!(s.interval, 7);
    assert_eq!(s.review_date, now);
    assert_eq!(s.next_review_date, Timestamp { secs: 1_700_000_000 + 7 * DAY, nanos: 123 });
    assert_eq!(s.performance, 5);
    assert_eq!((s.user_id, s.deck_id, s.word_id), (1, 2, 3));
    assert_eq!(s.review_id, None);
    assert_eq!(engine.get_last_review(1, 2, 3), Some(s));
}

#[test]
fn first_review_intervals_follow_the_rating() {
    for (performance, days) in [(1, 1), (2, 1), (3, 3), (4, 5), (5, 7)] {
        let mut engine = SrsEngine::new();
        let s = engine.record_review_at(1, 2, 3, performance, at(0)).unwrap();
        assert_eq!(s.interval, days);
        assert_eq!(s.ease_factor.hundredths, 250);
        assert_eq!(s.next_review_date, at(days as i64 * DAY));
        assert_eq!(
            SrsEngine::initial_srs_parameters(performance),
            Ok((days, EaseFactor { hundredths: 250 }))
        );
    }
    assert_eq!(SrsEngine::initial_srs_parameters(0), Err(SrsError::InvalidPerformance));
    assert_eq!(SrsEngine::initial_srs_parameters(6), Err(SrsError::InvalidPerformance));
}

#[test]
fn a_one_resets_the_interval() {
    let mut engine = SrsEngine::new();
    engine.upsert_review_state(state(250, 7, 0));
    let s = engine.record_review_at(1, 2, 3, 1, at(7 * DAY)).unwrap();
    assert_eq!(s.interval, 1);
    // The ease factor moves by 0.1 - 4 * 0.08 for every rating, a one as well.
    assert_eq!(s.ease_factor.hundredths, 228);
    assert_eq!(s.next_review_date, at(8 * DAY));
    assert_eq!(s.review_id, Some(9));
    assert_eq!(engine.len(), 1);
}

#[test]
fn ease_moves_with_the_rating() {
    for (performance, ease) in [(1, 228), (2, 236), (3, 244), (4, 252), (5, 260)] {
        let r = SrsEngine::calculate_srs_parameters(performance, 10, EaseFactor { hundredths: 250 });
        assert_eq!(r.unwrap().1.hundredths, ease);
    }
    // Never below 1.3.
    for (performance, ease) in [(1, 130), (2, 130), (3, 130), (4, 132), (5, 140)] {
        let r = SrsEngine::calculate_srs_parameters(performance, 10, EaseFactor { hundredths: 130 });
        assert_eq!(r.unwrap().1.hundredths, ease);
    }
    let r = SrsEngine::calculate_srs_parameters(1, 10, EaseFactor { hundredths: 150 });
    assert_eq!(r.unwrap().1.hundredths, 130);
    let top = SrsEngine::calculate_srs_parameters(5, 1, EaseFactor { hundredths: u32::MAX });
    assert_eq!(top.unwrap().1.hundredths, u32::MAX);
}

#[test]
fn intervals_grow_with_the_new_ease() {
    let ease = EaseFactor { hundredths: 250 };
    // round(7 * 2.6) = round(18.2)
    assert_eq!(SrsEngine::calculate_srs_parameters(5, 7, ease).unwrap().0, 18);
    // round(7 * 2.52) = round(17.64)
    assert_eq!(SrsEngine::calculate_srs_parameters(4, 7, ease).unwrap().0, 18);
    // round(7 * 2.44) = round(17.08)
    assert_eq!(SrsEngine::calculate_srs_parameters(3, 7, ease).unwrap().0, 17);
    // round(1 * 1.3) = 1
    assert_eq!(
        SrsEngine::calculate_srs_parameters(3, 1, EaseFactor { hundredths: 130 }).unwrap().0,
        1
    );
    // round(5 * 2.5) = round(12.5), halves upwards
    assert_eq!(
        SrsEngine::calculate_srs_parameters(5, 5, EaseFactor { hundredths: 240 }).unwrap().0,
        13
    );
    // The counter is full.
    assert_eq!(SrsEngine::calculate_srs_parameters(5, i32::MAX, ease).unwrap().0, i32::MAX);
}

#[test]
fn a_two_cuts_the_interval_by_a_fifth() {
    let ease = EaseFactor { hundredths: 250 };
    assert_eq!(SrsEngine::calculate_srs_parameters(2, 10, ease).unwrap().0, 8);
    // round(5.6)
    assert_eq!(SrsEngine::calculate_srs_parameters(2, 7, ease).unwrap().0, 6);
    // round(0.8)
    assert_eq!(SrsEngine::calculate_srs_parameters(2, 1, ease).unwrap().0, 1);
    // round(2.4)
    assert_eq!(SrsEngine::calculate_srs_parameters(2, 3, ease).unwrap().0, 2);
    assert_eq!(SrsEngine::calculate_srs_parameters(1, 300, ease).unwrap().0, 1);
    assert_eq!(
        SrsEngine::calculate_srs_parameters(0, 300, ease),
        Err(SrsError::InvalidPerformance)
    );
    assert_eq!(
        SrsEngine::calculate_srs_parameters(6, 300, ease),
        Err(SrsError::InvalidPerformance)
    );
}

#[test]
fn a_further_review_replaces_the_state() {
    let mut engine = SrsEngine::new();
    let first = engine.record_review_at(1, 2, 3, 5, at(0)).unwrap();
    let other = engine.record_review_at(1, 2, 4, 3, at(0)).unwrap();
    let second = engine.record_review_at(1, 2, 3, 5, at(7 * DAY)).unwrap();
    assert_eq!(first.interval, 7);
    assert_eq!(second.ease_factor.hundredths, 260);
    assert_eq!(second.interval, 18);
    assert_eq!(second.review_date, at(7 * DAY));
    assert_eq!(second.next_review_date, at(25 * DAY));
    assert_eq!(engine.len(), 2);
    assert_eq!(engine.get_last_review(1, 2, 3), Some(second));
    assert_eq!(engine.get_last_review(1, 2, 4), Some(other));
    assert_eq!(engine.get_last_review(2, 2, 3), None);
    assert_eq!(engine.get_last_review(1, 3, 3), None);
}

#[test]
fn states_are_checked_for_consistency() {
    assert!(state(250, 7, 0).is_valid());
    assert!(!state(129, 7, 0).is_valid());
    assert!(!state(250, 0, 0).is_valid());
    let mut late = state(250, 7, 0);
    late.next_review_date = at(8 * DAY);
    assert!(!late.is_valid());
    let mut rated = state(250, 7, 0);
    rated.performance = 6;
    assert!(!rated.is_valid());
    assert!(!state(250, 7, i64::MAX - DAY).is_valid());
}

#[test]
fn due_items_are_those_whose_date_has_come() {
    let mut engine = SrsEngine::new();
    let now = 1_700_000_000;
    engine.record_review_at(1, 2, 3, 5, at(now - 1)).unwrap();
    let old = engine.record_review_at(1, 2, 4, 5, at(now - 7 * DAY)).unwrap();
    let older = engine.record_review_at(1, 5, 6, 1, at(now - 2 * DAY)).unwrap();
    engine.record_review_at(7, 2, 4, 1, at(now - 2 * DAY)).unwrap();
    // Reviewed one second ago with an interval of seven days: not due.
    assert_eq!(engine.get_due_words_at(1, None, at(now)), vec![old, older]);
    assert_eq!(engine.get_due_words_at(1, Some(2), at(now)), vec![old]);
    assert_eq!(engine.get_due_words_at(1, Some(5), at(now)), vec![older]);
    assert_eq!(engine.get_due_words_at(1, Some(9), at(now)), vec![]);
    assert_eq!(engine.get_due_words_at(1, None, at(now - 1)), vec![older]);
    assert_eq!(engine.get_due_words_at(3, None, at(now)), vec![]);
    assert_eq!(get_due_words_count(&engine, 1, at(now)), 2);
    assert_eq!(get_due_words_count(&engine, 7, at(now)), 1);
}

#[test]
fn due_dates_compare_to_the_nanosecond() {
    let mut engine = SrsEngine::new();
    let s = engine.record_review_at(1, 2, 3, 1, Timestamp { secs: 0, nanos: 500 }).unwrap();
    assert!(engine.get_due_words_at(1, None, Timestamp { secs: DAY, nanos: 499 }).is_empty());
    assert_eq!(engine.get_due_words_at(1, None, Timestamp { secs: DAY, nanos: 500 }), vec![s]);
    assert!(s.is_due(&Timestamp { secs: DAY + 1, nanos: 0 }));
    assert!(!s.is_due(&Timestamp { secs: DAY - 1, nanos: 999 }));
}

#[test]
fn the_clock_gives_a_time_for_reviews() {
    let now = current_time();
    assert!(now.is_reviewable());
    assert!(now.secs > 1_600_000_000);
    let mut engine = SrsEngine::new();
    let s = engine.record_review(1, 2, 3, 5).unwrap();
    assert!(s.is_valid());
    assert!(now.is_le(&s.review_date));
    assert_eq!(s.next_review_date.secs, s.review_date.secs + 7 * DAY);
    assert!(engine.get_due_words(1, None).is_empty());
    let again = engine.record_review(1, 2, 4, 1).unwrap();
    assert_eq!(again.interval, 1);
    assert!(engine.get_due_words(1, Some(2)).is_empty());
}

#[test]
fn times_add_whole_days() {
    let t = Timestamp { secs: 10, nanos: 7 };
    assert_eq!(t.add_days(0), t);
    assert_eq!(t.add_days(3), Timestamp { secs: 10 + 3 * DAY, nanos: 7 });
    let last = Timestamp { secs: 9_223_186_494_267_675_007, nanos: 0 };
    assert!(last.is_reviewable());
    assert_eq!(last.add_days(i32::MAX).secs, i64::MAX);
    assert!(!Timestamp { secs: 9_223_186_494_267_675_008, nanos: 0 }.is_reviewable());
    assert!(t.is_lt(&Timestamp { secs: 10, nanos: 8 }));
    assert!(!t.is_lt(&t));
    assert!(t.is_le(&t));
}

#[test]
fn new_words_come_before_scheduled_ones() {
    let mut engine = SrsEngine::new();
    let now = 1_700_000_000;
    // Word 10 was reviewed and is not yet due; word 11 is new.
    engine.record_review_at(1, 2, 10, 5, at(now - 1)).unwrap();
    let deck = DeckWithWords {
        id: 2,
        name: "deck".to_string(),
        words: vec![deck_word(10, 2), deck_word(11, 2)],
    };
    let session = start_study_session(&engine, 1, deck);
    assert_eq!(session.len(), 2);
    assert_eq!(session[0].word.id, 11);
    assert!(session[0].is_new);
    assert_eq!(session[0].last_performance, None);
    assert_eq!(session[0].next_review, None);
    assert_eq!(session[1].word.id, 10);
    assert!(!session[1].is_new);
    assert_eq!(session[1].last_performance, Some(5));
    assert_eq!(session[1].next_review, Some(at(now - 1 + 7 * DAY)));
}

#[test]
fn scheduled_words_come_earliest_first() {
    let mut engine = SrsEngine::new();
    engine.record_review_at(1, 2, 10, 5, at(100)).unwrap();
    engine.record_review_at(1, 2, 11, 1, at(100)).unwrap();
    engine.record_review_at(1, 2, 12, 3, at(100)).unwrap();
    engine.record_review_at(1, 2, 14, 3, at(100)).unwrap();
    // Another user's and another deck's reviews do not count.
    engine.record_review_at(2, 2, 13, 1, at(100)).unwrap();
    engine.record_review_at(1, 3, 15, 1, at(100)).unwrap();
    let deck = DeckWithWords {
        id: 2,
        name: "deck".to_string(),
        words: vec![
            deck_word(10, 2),
            deck_word(13, 2),
            deck_word(12, 2),
            deck_word(11, 2),
            deck_word(15, 2),
            deck_word(14, 2),
        ],
    };
    let session = start_study_session(&engine, 1, deck);
    let ids: Vec<i32> = session.iter().map(|w| w.word.id).collect();
    assert_eq!(ids, vec![13, 15, 11, 12, 14, 10]);
    let empty = start_study_session(&engine, 1, DeckWithWords {
        id: 2,
        name: "none".to_string(),
        words: vec![],
    });
    assert!(empty.is_empty());
}

#[test]
fn a_review_needs_a_word_of_the_deck() {
    let mut engine = SrsEngine::new();
    let deck = DeckWithWords {
        id: 2,
        name: "deck".to_string(),
        words: vec![deck_word(10, 2), deck_word(11, 2)],
    };
    assert_eq!(
        record_word_review(&mut engine, &deck, 1, 12, 3, at(0)),
        Err(SrsError::NotFound)
    );
    // The rating is looked at first.
    assert_eq!(
        record_word_review(&mut engine, &deck, 1, 12, 0, at(0)),
        Err(SrsError::InvalidPerformance)
    );
    assert_eq!(
        record_word_review(&mut engine, &deck, 1, 10, 6, at(0)),
        Err(SrsError::InvalidPerformance)
    );
    assert_eq!(engine.len(), 0);
    let s = record_word_review(&mut engine, &deck, 1, 10, 3, at(0)).unwrap();
    assert_eq!(s.interval, 3);
    assert_eq!((s.user_id, s.deck_id, s.word_id), (1, 2, 10));
    assert_eq!(engine.get_last_review(1, 2, 10), Some(s));
}

#[test]
fn due_words_carry_their_review() {
    let mut engine = SrsEngine::new();
    let now = 1_700_000_000;
    engine.record_review_at(1, 2, 10, 5, at(now - 1)).unwrap();
    let due = engine.record_review_at(1, 2, 11, 2, at(now - 3 * DAY)).unwrap();
    engine.record_review_at(1, 4, 99, 1, at(now - 3 * DAY)).unwrap();
    let words = vec![word(10), word(11), word(12)];
    let found = get_all_due_words(&engine, 1, &words, at(now));
    assert_eq!(found.len(), 1);
    assert_eq!(found[0].word.id, 11);
    assert_eq!(found[0].word.deck_id, 2);
    assert_eq!(found[0].word.simplified, "词11");
    assert_eq!(found[0].word.traditional, Some("詞11".to_string()));
    assert!(!found[0].is_new);
    assert_eq!(found[0].last_performance, Some(2));
    assert_eq!(found[0].next_review, Some(due.next_review_date));
    assert!(get_all_due_words(&engine, 2, &words, at(now)).is_empty());
}
