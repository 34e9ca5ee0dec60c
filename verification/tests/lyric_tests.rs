use lyric_viewer::lyric_parser::{load, millis_to_timestr, timestr_to_millis, Lyric, Lyrics};
use lyric_viewer::text::{parse_millis, parse_u64};

fn track(entries: &[(u64, &str)]) -> Lyrics {
    let data: Vec<Lyric> = entries
        .iter()
        .map(|(ms, text)| Lyric { min_millis: *ms, lyric: text.to_string() })
        .collect();
    Lyrics::load_from_data(data)
}

#[test]
fn timestr_renders_padded_units() {
    assert_eq!(millis_to_timestr(0), "00:00:00.000");
    assert_eq!(millis_to_timestr(5000), "00:00:05.000");
    assert_eq!(millis_to_timestr(63250), "00:01:03.250");
    assert_eq!(millis_to_timestr(3_600_000), "01:00:00.000");
    assert_eq!(millis_to_timestr(2 * 3_600_000 + 34 * 60_000 + 56_789), "02:34:56.789");
}

#[test]
fn timestr_parses_units_least_significant_first() {
    assert_eq!(timestr_to_millis("00:00:05.000"), Some(5000));
    assert_eq!(timestr_to_millis("01:03.250"), Some(63250));
    assert_eq!(timestr_to_millis("5"), Some(5000));
    assert_eq!(timestr_to_millis("2:34:56.789"), Some(2 * 3_600_000 + 34 * 60_000 + 56_789));
    assert_eq!(timestr_to_millis(""), None);
    assert_eq!(timestr_to_millis("a:b"), None);
    assert_eq!(timestr_to_millis("1:"), None);
}

#[test]
fn timestr_round_trips_through_text() {
    for ms in [0u64, 1, 999, 1000, 59_999, 60_000, 3_599_999, 3_600_000, 86_399_999] {
        assert_eq!(timestr_to_millis(&millis_to_timestr(ms)), Some(ms), "for {} ms", ms);
    }
}

#[test]
fn timestr_round_trips_past_two_hour_digits() {
    // one hundred hours take three digits, and the largest value holds too
    assert_eq!(millis_to_timestr(360_000_000), "100:00:00.000");
    for ms in [360_000_000u64, u64::MAX] {
        assert_eq!(timestr_to_millis(&millis_to_timestr(ms)), Some(ms), "for {} ms", ms);
    }
}

#[test]
fn decimal_seconds_parse_to_millis() {
    assert_eq!(parse_millis("12"), Some(12_000));
    assert_eq!(parse_millis("12.345"), Some(12_345));
    assert_eq!(parse_millis("12.3456"), Some(12_345), "digits past the third are dropped");
    assert_eq!(parse_millis(".5"), Some(500));
    assert_eq!(parse_millis("7."), Some(7_000));
    assert_eq!(parse_millis("."), None);
    assert_eq!(parse_millis(""), None);
    assert_eq!(parse_millis("1.2.3"), None);
    assert_eq!(parse_millis("-1"), None);
}

#[test]
fn u64_parses_digits_only() {
    assert_eq!(parse_u64("0"), Some(0));
    assert_eq!(parse_u64("18446744073709551615"), Some(u64::MAX));
    assert_eq!(parse_u64("18446744073709551616"), None, "one past the largest value");
    assert_eq!(parse_u64(""), None);
    assert_eq!(parse_u64("12a"), None);
}

#[test]
fn load_keeps_file_order_and_skips_malformed_lines() {
    let content = "\
[00:00:01.000]first
no brackets here
[00:00:02.000]second
[bad timestamp]third
[00:00:03.000]
[00:00:04.000]fourth
"
    .to_string();
    let mut lyrics = load(content, false);
    let texts: Vec<(u64, String)> = std::iter::from_fn(|| lyrics.next())
        .map(|l| (l.min_millis, l.lyric))
        .collect();
    assert_eq!(
        texts,
        vec![
            (1000, "first".to_string()),
            (2000, "second".to_string()),
            (4000, "fourth".to_string()),
        ]
    );
}

#[test]
fn load_keeps_blank_lines_when_asked() {
    let content = "[00:00:01.000]a\n[00:00:02.000]\n".to_string();
    let mut lyrics = load(content, true);
    assert_eq!(lyrics.next().map(|l| l.lyric), Some("a".to_string()));
    assert_eq!(lyrics.next().map(|l| l.lyric), Some("".to_string()));
    assert!(lyrics.next().is_none());
}

#[test]
fn load_strips_carriage_returns() {
    let content = "[00:00:01.000]windows line\r\n".to_string();
    let mut lyrics = load(content, false);
    assert_eq!(lyrics.next().map(|l| l.lyric), Some("windows line".to_string()));
}

#[test]
fn get_lyric_for_time_returns_greatest_due_entry() {
    let mut lyrics = track(&[(1000, "one"), (2000, "two"), (3000, "three")]);
    let hit = lyrics.get_lyric_for_time(2500).expect("an entry is due at 2.5s");
    assert_eq!(hit.min_millis, 2000);
    assert_eq!(hit.lyric, "two");
}

#[test]
fn get_lyric_for_time_before_first_entry_is_none() {
    let mut lyrics = track(&[(1000, "one"), (2000, "two")]);
    assert!(lyrics.get_lyric_for_time(999).is_none());
    // nothing was consumed: the first entry is still ahead
    assert_eq!(lyrics.next().map(|l| l.lyric), Some("one".to_string()));
}

#[test]
fn get_lyric_for_time_reaches_last_entry() {
    let mut lyrics = track(&[(1000, "one"), (2000, "two")]);
    let hit = lyrics.get_lyric_for_time(u64::MAX).expect("the last entry is due");
    assert_eq!(hit.min_millis, 2000);
    assert!(lyrics.next().is_none());
}

#[test]
fn get_lyric_for_time_at_exact_timestamp_matches() {
    let mut lyrics = track(&[(1000, "one"), (2000, "two")]);
    let hit = lyrics.get_lyric_for_time(1000).expect("the first entry is due at its instant");
    assert_eq!(hit.min_millis, 1000);
}

#[test]
fn repeated_texts_carry_occurrence_counters() {
    let mut lyrics = track(&[(0, "la"), (1000, "la"), (2000, "la"), (3000, "fin")]);
    let texts: Vec<String> = std::iter::from_fn(|| lyrics.next()).map(|l| l.lyric).collect();
    assert_eq!(texts, vec!["la", "la (2)", "la (3)", "fin"]);
}

#[test]
fn write_renders_remaining_entries() {
    let lyrics = track(&[(1000, "one"), (63250, "two")]);
    assert_eq!(lyrics.write(), "[00:00:01.000]one\n[00:01:03.250]two\n");
}

#[test]
fn write_then_load_round_trips() {
    let entries = [(0u64, "alpha"), (5_000, "beta"), (5_000, "beta"), (59_999, "gamma, (x)]")];
    let lyrics = track(&entries);
    let rendered = lyrics.write();
    let reloaded = load(rendered.clone(), false);
    // reloading preserves every (timestamp, text) pair: rendering the
    // reloaded track gives the identical text back
    assert_eq!(reloaded.write(), rendered);
}

#[test]
fn reloaded_track_replays_the_original_entries() {
    let original = track(&[(0, "alpha"), (5_000, "beta")]);
    let mut reloaded = load(original.write(), false);
    assert_eq!(reloaded.next().map(|l| (l.min_millis, l.lyric)), Some((0, "alpha".to_string())));
    assert_eq!(
        reloaded.next().map(|l| (l.min_millis, l.lyric)),
        Some((5_000, "beta".to_string()))
    );
    assert!(reloaded.next().is_none());
}
