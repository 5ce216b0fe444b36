use ruvola::card::{VocaCardDataset, Vocab, VocabMetadata, VocabWord};
use ruvola::config::{
    DeckConfig, DeckInverval, FilterMode, MemorizationConfig, ValidationConfig,
};
use ruvola::session::{VocaSession, VocabTask};
use ruvola::timestamp::Timestamp;

fn timestamp(text: &str) -> Timestamp {
    Timestamp {
        secs: chrono::NaiveDateTime::parse_from_str(text, "%Y-%m-%d %H:%M:%S")
            .unwrap()
            .and_utc()
            .timestamp(),
    }
}

fn seen(a: &str, b: &str, deck: u8, due: &str, deck_reverse: u8, due_reverse: &str) -> Vocab {
    Vocab {
        word_a: VocabWord::from_str(a),
        word_b: VocabWord::from_str(b),
        metadata: Some(VocabMetadata {
            deck,
            due_date: timestamp(due),
            deck_reverse,
            due_date_reverse: timestamp(due_reverse),
        }),
    }
}

fn new_card(a: &str, b: &str) -> Vocab {
    Vocab { word_a: VocabWord::from_str(a), word_b: VocabWord::from_str(b), metadata: None }
}

fn dataset(cards: Vec<Vocab>) -> VocaCardDataset {
    VocaCardDataset {
        cards,
        file_path: "test.txt".to_string(),
        lang_a: "English".to_string(),
        lang_b: "Spanish".to_string(),
    }
}

fn no_memorization() -> MemorizationConfig {
    MemorizationConfig { do_memorization_round: false, memorization_reversed: false }
}

fn ladder(days: &[u64]) -> DeckConfig {
    DeckConfig {
        deck_intervals: days.iter().map(|d| DeckInverval(d * 86400)).collect(),
        change_deck_in_ignore_date: false,
    }
}

#[test]
fn test_sorting() {
    let card1 = seen("hello", "hola", 1, "2023-10-01 12:00:00", 2, "2024-10-01 13:00:00");
    let card2 = seen("world", "mundo", 2, "2023-09-01 12:00:00", 1, "2024-09-01 13:00:00");
    let card3 = seen("test", "prueba", 1, "2023-08-01 12:00:00", 2, "2024-08-01 13:00:00");
    let session = VocaSession::new(
        vec![dataset(vec![card1, card2, card3])],
        FilterMode::All,
        true,
        None,
        &MemorizationConfig::default(),
    );
    assert_eq!(session.queue().len(), 6);
    assert_eq!(session.queue()[0].card, 2); // "test"
    assert_eq!(session.queue()[1].card, 1); // "world"
    assert_eq!(session.queue()[2].card, 0); // "hello"
}

#[test]
fn vocab_validation() {
    let task = VocabTask {
        query: "hello",
        answer: "hola",
        answer_variants: &vec!["hola".to_string(), "saludo".to_string()],
        show_answer: false,
    };
    let val_config = ValidationConfig { error_tolerance: 1, tolerance_min_length: 3 };
    assert!(task.is_correct("hola", &val_config));
    assert!(task.is_correct("hola!", &val_config));
    assert!(task.is_correct("saludo", &val_config));
    assert!(!task.is_correct("hello", &val_config));
}

#[test]
fn short_variants_need_exact_answers() {
    let variants = vec!["si".to_string()];
    let task = VocabTask { query: "yes", answer: "si", answer_variants: &variants, show_answer: false };
    let val_config = ValidationConfig { error_tolerance: 1, tolerance_min_length: 3 };
    assert!(task.is_correct("si", &val_config));
    assert!(!task.is_correct("sí", &val_config));
    assert!(!task.is_correct("s", &val_config));
}

#[test]
fn new_card_sorts_before_seen_cards() {
    let cards = vec![
        seen("a", "b", 0, "2023-08-01 12:00:00", 0, "2023-08-01 12:00:00"),
        new_card("c", "d"),
        seen("e", "f", 0, "2023-07-01 12:00:00", 0, "2023-07-01 12:00:00"),
    ];
    let session = VocaSession::new_at(
        vec![dataset(cards)],
        FilterMode::All,
        true,
        None,
        &no_memorization(),
        timestamp("2024-01-01 00:00:00"),
    );
    let order: Vec<usize> = session.queue().iter().map(|i| i.card).collect();
    assert_eq!(order, vec![1, 2, 0, 1, 2, 0]);
    assert!(session.queue().iter().take(3).all(|i| !i.reverse));
}

#[test]
fn unsorted_queue_keeps_file_order_and_puts_exposures_first() {
    let first = dataset(vec![new_card("a", "b"), seen("c", "d", 1, "2023-01-01 00:00:00", 1, "2030-01-01 00:00:00")]);
    let second = dataset(vec![new_card("e", "f")]);
    let session = VocaSession::new_at(
        vec![first, second],
        FilterMode::Normal,
        false,
        None,
        &MemorizationConfig { do_memorization_round: true, memorization_reversed: true },
        timestamp("2024-01-01 00:00:00"),
    );
    let items: Vec<(usize, usize, bool, bool)> = session
        .queue()
        .iter()
        .map(|i| (i.dataset, i.card, i.reverse, i.memorization_card))
        .collect();
    assert_eq!(
        items,
        vec![
            (0, 0, true, true),
            (1, 0, true, true),
            (0, 0, false, false),
            (0, 1, false, false),
            (1, 0, false, false),
            (0, 0, true, false),
            (1, 0, true, false),
        ]
    );
    assert_eq!(session.total_tasks(), 7);
    assert_eq!(session.current_progress(), 0);
}

#[test]
fn current_task_twice_is_the_same() {
    let session = VocaSession::new_at(
        vec![dataset(vec![new_card("hello, hi", "hola")])],
        FilterMode::All,
        false,
        None,
        &no_memorization(),
        timestamp("2024-01-01 00:00:00"),
    );
    let a = session.current_task().unwrap();
    let b = session.current_task().unwrap();
    assert_eq!((a.query, a.answer, a.answer_variants, a.show_answer), (b.query, b.answer, b.answer_variants, b.show_answer));
    assert_eq!(a.query, "hello, hi");
    assert_eq!(a.answer, "hola");
    assert_eq!(session.current_target_lang(), Some("Spanish"));
}

#[test]
fn wrong_answer_requeues_and_right_answer_retires() {
    let now = timestamp("2024-01-01 00:00:00");
    let mut session = VocaSession::new_at(
        vec![dataset(vec![new_card("a", "b"), new_card("c", "d")])],
        FilterMode::All,
        false,
        None,
        &no_memorization(),
        now,
    );
    let config = ladder(&[0, 1, 7]);
    assert_eq!(session.queue().len(), 4);
    session.next_card_at(false, &config, now);
    assert_eq!(session.queue().len(), 4);
    assert_eq!(session.current_progress(), 0);
    assert_eq!(session.queue()[3].card, 0);
    assert!(session.has_changes());
    session.next_card_at(true, &config, now);
    assert_eq!(session.queue().len(), 3);
    assert_eq!(session.current_progress(), 1);
    let card = &session.datasets()[0].cards[1];
    assert_eq!(card.metadata.unwrap().deck, 1);
    assert_eq!(card.metadata.unwrap().due_date, now.plus_seconds(86400));
    assert_eq!(card.metadata.unwrap().deck_reverse, 0);
}

#[test]
fn deck_stays_within_ladder() {
    let now = timestamp("2024-01-01 00:00:00");
    let top = seen("a", "b", 2, "2023-01-01 00:00:00", 0, "2023-01-01 00:00:00");
    let mut session = VocaSession::new_at(vec![dataset(vec![top])], FilterMode::All, false, None, &no_memorization(), now);
    let config = ladder(&[0, 1, 7]);
    session.next_card_at(true, &config, now);
    let m = session.datasets()[0].cards[0].metadata.unwrap();
    assert_eq!(m.deck, 2);
    assert_eq!(m.due_date, now.plus_seconds(7 * 86400));
    session.next_card_at(false, &config, now);
    let m = session.datasets()[0].cards[0].metadata.unwrap();
    assert_eq!(m.deck_reverse, 0);
    assert_eq!(m.due_date_reverse, now);
}

#[test]
fn exposure_leaves_queue_by_answer_or_skip() {
    let now = timestamp("2024-01-01 00:00:00");
    let mut session = VocaSession::new_at(
        vec![dataset(vec![new_card("a", "b"), new_card("c", "d")])],
        FilterMode::Unseen,
        false,
        None,
        &MemorizationConfig::default(),
        now,
    );
    assert_eq!(session.queue().len(), 6);
    assert!(session.current_task().unwrap().show_answer);
    session.next_card_at(false, &ladder(&[0, 1]), now);
    assert_eq!(session.queue().len(), 5);
    assert_eq!(session.datasets()[0].cards[0].metadata, Some(VocabMetadata::default()));
    session.skip_card();
    assert_eq!(session.queue().len(), 4);
    assert_eq!(session.datasets()[0].cards[1].metadata, Some(VocabMetadata::default()));
    assert_eq!(session.current_progress(), 2);
}

#[test]
fn skipping_graded_item_rotates_without_change() {
    let now = timestamp("2024-01-01 00:00:00");
    let mut session = VocaSession::new_at(
        vec![dataset(vec![new_card("a", "b"), new_card("c", "d")])],
        FilterMode::All,
        false,
        None,
        &no_memorization(),
        now,
    );
    session.skip_card();
    assert_eq!(session.queue().len(), 4);
    assert_eq!(session.queue()[0].card, 1);
    assert_eq!(session.queue()[3].card, 0);
    assert!(!session.has_changes());
    assert!(session.datasets()[0].cards[0].metadata.is_none());
}

#[test]
fn limit_counts_distinct_cards() {
    let cards = vec![new_card("a", "b"), new_card("c", "d"), new_card("e", "f")];
    let session = VocaSession::new_at(
        vec![dataset(cards)],
        FilterMode::All,
        false,
        Some(2),
        &MemorizationConfig::default(),
        timestamp("2024-01-01 00:00:00"),
    );
    let mut distinct: Vec<usize> = session.queue().iter().map(|i| i.card).collect();
    distinct.sort();
    distinct.dedup();
    assert_eq!(distinct, vec![0, 1]);
    assert_eq!(session.queue().len(), 6);
}

#[test]
fn filter_modes_pick_seen_or_unseen() {
    let now = timestamp("2024-01-01 00:00:00");
    let cards = || {
        vec![
            new_card("a", "b"),
            seen("c", "d", 1, "2023-01-01 00:00:00", 1, "2025-01-01 00:00:00"),
            seen("e", "f", 1, "2025-01-01 00:00:00", 1, "2025-01-01 00:00:00"),
        ]
    };
    let seen_session = VocaSession::new_at(vec![dataset(cards())], FilterMode::Seen, false, None, &MemorizationConfig::default(), now);
    let items: Vec<(usize, bool)> = seen_session.queue().iter().map(|i| (i.card, i.reverse)).collect();
    assert_eq!(items, vec![(1, false)]);
    let unseen_session = VocaSession::new_at(vec![dataset(cards())], FilterMode::Unseen, false, None, &MemorizationConfig::default(), now);
    assert!(unseen_session.queue().iter().all(|i| i.card == 0));
    assert_eq!(unseen_session.queue().len(), 3);
    let normal = VocaSession::new_at(vec![dataset(cards())], FilterMode::Normal, false, None, &no_memorization(), now);
    let items: Vec<(usize, bool)> = normal.queue().iter().map(|i| (i.card, i.reverse)).collect();
    assert_eq!(items, vec![(0, false), (1, false), (0, true)]);
}

#[test]
fn saved_lines_reflect_answers() {
    let now = timestamp("2024-01-01 00:00:00");
    let mut session = VocaSession::new_at(
        vec![dataset(vec![new_card("a", "b")])],
        FilterMode::All,
        false,
        None,
        &no_memorization(),
        now,
    );
    session.next_card_at(true, &ladder(&[0, 1]), now);
    let lines = session.datasets()[0].to_lines();
    assert_eq!(
        lines,
        vec![
            "English\tSpanish".to_string(),
            "a\tb\t1\t2024-01-02 00:00:00\t0\t-262143-01-01 00:00:00".to_string()
        ]
    );
}
