use ruvola::card::{VocaCardDataset, VocaLineError, VocaParseError, Vocab, VocabMetadata, VocabWord};
use ruvola::timestamp::{Timestamp, TS_MIN};

fn timestamp(text: &str) -> Timestamp {
    Timestamp {
        secs: chrono::NaiveDateTime::parse_from_str(text, "%Y-%m-%d %H:%M:%S")
            .unwrap()
            .and_utc()
            .timestamp(),
    }
}

fn lines(text: &[&str]) -> Vec<String> {
    text.iter().map(|l| l.to_string()).collect()
}

#[test]
fn parse_card() {
    let line = "hello\tworld\t1\t2023-10-01 12:00:00\t2\t2024-10-01 13:00:00";
    let card = Vocab::from_line(line).unwrap();
    assert_eq!(card.word_a.base, "hello");
    assert_eq!(card.word_b.base, "world");
    assert_eq!(card.metadata.as_ref().unwrap().deck, 1);
    assert_eq!(card.metadata.as_ref().unwrap().due_date, timestamp("2023-10-01 12:00:00"));
    assert_eq!(card.metadata.as_ref().unwrap().deck_reverse, 2);
    assert_eq!(
        card.metadata.as_ref().unwrap().due_date_reverse,
        timestamp("2024-10-01 13:00:00")
    );
}

#[test]
fn parse_card_with_variants() {
    let line = "hello,hi\tworld,earth\t1\t2023-10-01 12:00:00\t2\t2024-10-01 13:00:00";
    let card = Vocab::from_line(line).unwrap();
    assert_eq!(card.word_a.base, "hello,hi");
    assert_eq!(card.word_b.base, "world,earth");
    assert_eq!(card.word_a.variants, vec!["hello,hi", "hello", "hi"]);
    assert_eq!(card.word_b.variants, vec!["world,earth", "world", "earth"]);

    let line =
        "hello (greeting)\tworld (planet)\t1\t2023-10-01 12:00:00\t2\t2024-10-01 13:00:00";
    let card = Vocab::from_line(line).unwrap();
    assert_eq!(card.word_a.base, "hello (greeting)");
    assert_eq!(card.word_b.base, "world (planet)");
    assert_eq!(card.word_a.variants, vec!["hello (greeting)", "hello"]);
    assert_eq!(card.word_b.variants, vec!["world (planet)", "world"]);
}

#[test]
fn word_variants_trim_commas_and_brackets() {
    let word = VocabWord::from_str("la casa (house) , el hogar");
    assert_eq!(
        word.variants,
        vec![
            "la casa (house) , el hogar",
            "la casa (house)",
            "el hogar",
            "la casa  , el hogar",
            "la casa"
        ]
    );
}

#[test]
fn word_without_comma_or_bracket_has_one_variant() {
    let word = VocabWord::from_str("  plain ");
    assert_eq!(word.base, "  plain ");
    assert_eq!(word.variants, vec!["  plain "]);
}

#[test]
fn bracket_spans_first_open_to_last_close() {
    let word = VocabWord::from_str("a (b) c (d) e");
    assert_eq!(word.variants, vec!["a (b) c (d) e", "a  e"]);
    let word = VocabWord::from_str("x) (y");
    assert_eq!(word.variants, vec!["x) (y"]);
}

#[test]
fn new_card_has_no_metadata() {
    let card = Vocab::from_line("perro\tdog").unwrap();
    assert!(card.metadata.is_none());
    assert_eq!(card.get_deck(false), None);
}

#[test]
fn line_errors_name_their_reason() {
    assert_eq!(Vocab::from_line("alone").unwrap_err(), VocaLineError::MissingWordB);
    assert_eq!(Vocab::from_line("a\tb\tx").unwrap_err(), VocaLineError::InvalidDeck);
    assert_eq!(Vocab::from_line("a\tb\t256").unwrap_err(), VocaLineError::InvalidDeck);
    assert_eq!(Vocab::from_line("a\tb\t1").unwrap_err(), VocaLineError::MissingDueDate);
    assert_eq!(
        Vocab::from_line("a\tb\t1\t2023-13-01 00:00:00").unwrap_err(),
        VocaLineError::InvalidDueDate
    );
    assert_eq!(
        Vocab::from_line("a\tb\t1\t2023-10-01 00:00:00").unwrap_err(),
        VocaLineError::MissingDeck
    );
    assert_eq!(
        Vocab::from_line("a\tb\t1\t2023-10-01 00:00:00\t-1").unwrap_err(),
        VocaLineError::InvalidDeck
    );
    assert_eq!(
        Vocab::from_line("a\tb\t1\t2023-10-01 00:00:00\t2").unwrap_err(),
        VocaLineError::MissingDueDate
    );
    assert_eq!(
        Vocab::from_line("a\tb\t+1\t2023-10-01 00:00:00\t2\tnope").unwrap_err(),
        VocaLineError::InvalidDueDate
    );
    assert_eq!(VocaLineError::MissingDeck.message(), "Missing deck");
}

#[test]
fn deck_accepts_plus_sign_and_leading_zeros() {
    let card = Vocab::from_line("a\tb\t+07\t2023-10-01 00:00:00\t255\t2023-10-01 00:00:00").unwrap();
    assert_eq!(card.metadata.unwrap().deck, 7);
    assert_eq!(card.metadata.unwrap().deck_reverse, 255);
}

#[test]
fn card_line_written_back() {
    let line = "hola\thello\t3\t2023-10-01 12:00:00\t0\t2024-01-02 03:04:05";
    assert_eq!(Vocab::from_line(line).unwrap().to_line(), line);
    assert_eq!(Vocab::from_line("hola\thello").unwrap().to_line(), "hola\thello");
}

#[test]
fn dataset_round_trip_keeps_lines() {
    let text = lines(&[
        "Spanish\tEnglish",
        "hola\thello\t1\t2023-10-01 12:00:00\t2\t2024-10-01 13:00:00",
        "perro\tdog",
        "gato (animal)\tcat\t0\t2020-02-29 23:59:59\t9\t1999-12-31 00:00:00",
    ]);
    let dataset = VocaCardDataset::from_lines("words.tsv", &text).unwrap();
    assert_eq!(dataset.lang_a, "Spanish");
    assert_eq!(dataset.lang_b, "English");
    assert_eq!(dataset.cards.len(), 3);
    assert_eq!(dataset.to_lines(), text);
}

#[test]
fn dataset_skips_blank_lines_and_counts_lines_from_one() {
    let text = lines(&["", "es\ten", "uno\tone", "   ", "dos\ttwo\tx"]);
    match VocaCardDataset::from_lines("f.tsv", &text) {
        Err(VocaParseError::InvalidFormat { filename, line, reason }) => {
            assert_eq!(filename, "f.tsv");
            assert_eq!(line, 5);
            assert_eq!(reason, "Invalid deck");
        }
        other => panic!("unexpected {:?}", other),
    }
    let text = lines(&["", "es\ten", "uno\tone", "   ", "dos\ttwo"]);
    let dataset = VocaCardDataset::from_lines("f.tsv", &text).unwrap();
    assert_eq!(dataset.cards.len(), 2);
    assert_eq!(dataset.lang_a, "es");
}

#[test]
fn dataset_errors() {
    match VocaCardDataset::from_lines("empty.tsv", &lines(&[])) {
        Err(e @ VocaParseError::EmptyFile { .. }) => {
            assert_eq!(e.message(), "Empty file: empty.tsv");
        }
        other => panic!("unexpected {:?}", other),
    }
    match VocaCardDataset::from_lines("h.tsv", &lines(&["onlyone", "a\tb"])) {
        Err(e @ VocaParseError::InvalidFormat { .. }) => {
            assert_eq!(
                e.message(),
                "Invalid format in file 'h.tsv', line 1: Expected second column"
            );
        }
        other => panic!("unexpected {:?}", other),
    }
    let io: VocaParseError = std::io::Error::new(std::io::ErrorKind::Other, "boom").into();
    assert_eq!(io.message(), "IO error: boom");
}

#[test]
fn default_metadata_is_deck_zero_and_earliest() {
    let m = VocabMetadata::default();
    assert_eq!(m.deck, 0);
    assert_eq!(m.deck_reverse, 0);
    assert_eq!(m.due_date, Timestamp { secs: TS_MIN });
    assert_eq!(m.due_date_reverse, Timestamp { secs: TS_MIN });
    let written = m.due_date.format();
    assert_eq!(Timestamp::parse(&written), Some(m.due_date));
}

#[test]
fn timestamp_text_round_trip() {
    let t = Timestamp::parse("2023-08-01 12:00:00").unwrap();
    assert_eq!(t.secs, 1690891200);
    assert_eq!(t.format(), "2023-08-01 12:00:00");
    assert_eq!(Timestamp::parse("2023-08-01"), None);
    assert_eq!(t.plus_seconds(86400).format(), "2023-08-02 12:00:00");
}

#[test]
fn dataset_round_trip_drops_only_blank_lines() {
    let text = lines(&[
        "",
        "es\ten",
        "uno\tone\t1\t2023-10-01 12:00:00\t2\t2024-10-01 13:00:00",
        "  ",
        "dos\ttwo",
        "",
    ]);
    let dataset = VocaCardDataset::from_lines("f.tsv", &text).unwrap();
    assert_eq!(
        dataset.to_lines(),
        lines(&[
            "es\ten",
            "uno\tone\t1\t2023-10-01 12:00:00\t2\t2024-10-01 13:00:00",
            "dos\ttwo",
        ])
    );
}
