use ruvola::config::{
    parse_complex_duration, DeckConfig, DeckIntervalSer, DeckInverval, FilterMode,
    FilterModeError, IntervalParseError, KeybindsConfig, MemorizationConfig, ValidationConfig,
};
use chrono::Duration;

fn secs(d: Duration) -> u64 {
    d.num_seconds() as u64
}

#[test]
fn parse_complex_duration_test() {
    let duration = parse_complex_duration("10d21h3m4s").unwrap();
    assert_eq!(
        duration,
        secs(Duration::days(10) + Duration::hours(21) + Duration::minutes(3) + Duration::seconds(4))
    );
    let duration = parse_complex_duration("1d").unwrap();
    assert_eq!(duration, secs(Duration::days(1)));
    let duration = parse_complex_duration("2h").unwrap();
    assert_eq!(duration, secs(Duration::hours(2)));
    let duration = parse_complex_duration("3m").unwrap();
    assert_eq!(duration, secs(Duration::minutes(3)));
    let duration = parse_complex_duration("4s").unwrap();
    assert_eq!(duration, secs(Duration::seconds(4)));
    let duration = parse_complex_duration("").unwrap();
    assert_eq!(duration, secs(Duration::zero()));

    let invalid = parse_complex_duration("1dhm4s");
    assert!(invalid.is_err());
    let invalid = parse_complex_duration("1d2h3m4");
    assert!(invalid.is_err());
    let invalid = parse_complex_duration("1d2h3m4x");
    assert!(invalid.is_err());
}

#[test]
fn interval_errors_by_kind() {
    assert_eq!(parse_complex_duration("d"), Err(IntervalParseError::ExpectedDigit));
    assert_eq!(parse_complex_duration("5"), Err(IntervalParseError::InvalidFormat));
    assert_eq!(parse_complex_duration("5w"), Err(IntervalParseError::InvalidUnit));
    assert_eq!(parse_complex_duration("4294967296s"), Err(IntervalParseError::InvalidNumber));
    assert_eq!(parse_complex_duration("4294967295s"), Ok(4294967295));
    assert_eq!(parse_complex_duration("2d2d"), Ok(4 * 86400));
    assert_eq!(IntervalParseError::InvalidUnit.message(), "Invalid unit");
}

#[test]
fn configured_intervals() {
    assert_eq!(DeckInverval::try_from(DeckIntervalSer::Days(3)), Ok(DeckInverval(3 * 86400)));
    assert_eq!(
        DeckInverval::try_from(DeckIntervalSer::Complex("1h30m".to_string())),
        Ok(DeckInverval(5400))
    );
    assert_eq!(
        DeckInverval::try_from(DeckIntervalSer::Complex("1x".to_string())),
        Err(IntervalParseError::InvalidUnit)
    );
}

#[test]
fn default_policies() {
    let m = MemorizationConfig::default();
    assert!(m.do_memorization_round);
    assert!(!m.memorization_reversed);
    let v = ValidationConfig::default();
    assert_eq!(v.error_tolerance, 2);
    assert_eq!(v.tolerance_min_length, 5);
    let k = KeybindsConfig::default();
    assert_eq!(k.skip, 's');
    assert_eq!(k.force_quit, 'Q');
    let d = DeckConfig::default();
    let days: Vec<u64> = d.deck_intervals.iter().map(|i| i.0 / 86400).collect();
    assert_eq!(days, vec![0, 1, 7, 14, 30, 60, 90, 180, 365]);
    assert!(!d.change_deck_in_ignore_date);
}

#[test]
fn filter_flags_exclude_each_other() {
    assert_eq!(FilterMode::try_from_flags(false, false, false), Ok(FilterMode::Normal));
    assert_eq!(FilterMode::try_from_flags(true, false, false), Ok(FilterMode::Seen));
    assert_eq!(FilterMode::try_from_flags(false, true, false), Ok(FilterMode::Unseen));
    assert_eq!(FilterMode::try_from_flags(false, false, true), Ok(FilterMode::All));
    assert_eq!(
        FilterMode::try_from_flags(true, false, true),
        Err(FilterModeError::ConflictingFlags)
    );
}
