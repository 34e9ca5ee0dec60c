use lyric_viewer::api::{CurrentSong, State, Status};
use lyric_viewer::lyric_parser::{Lyric, Lyrics};
use lyric_viewer::stream::{lyric_filename, Event, EventReaction, Stream, Wait};

fn track(entries: &[(u64, &str)]) -> Lyrics {
    let data: Vec<Lyric> = entries
        .iter()
        .map(|(ms, text)| Lyric { min_millis: *ms, lyric: text.to_string() })
        .collect();
    Lyrics::load_from_data(data)
}

fn playing(at_ms: u64, artist: &str, title: &str) -> Event {
    Event {
        status: Status { state: State::PLAY, elapsed_ms: at_ms },
        song: CurrentSong { artist: artist.to_string(), title: title.to_string() },
    }
}

fn paused(artist: &str, title: &str) -> Event {
    Event {
        status: Status { state: State::PAUSE, elapsed_ms: 0 },
        song: CurrentSong { artist: artist.to_string(), title: title.to_string() },
    }
}

#[test]
fn playing_event_asks_for_the_song_track() {
    let mut engine = Stream::new();
    match engine.on_event(playing(0, "Them", "That Song")) {
        EventReaction::Load { artist, title } => {
            assert_eq!(artist, "Them");
            assert_eq!(title, "That Song");
        },
        other => panic!("expected a load request, got {:?}", other),
    }
}

#[test]
fn paused_and_stopped_events_emit_their_labels() {
    let mut engine = Stream::new();
    match engine.on_event(paused("Them", "That Song")) {
        EventReaction::ShowState { label } => assert_eq!(label, "Paused"),
        other => panic!("expected a state label, got {:?}", other),
    }
    let stopped = Event {
        status: Status { state: State::STOP, elapsed_ms: 0 },
        song: CurrentSong { artist: "Them".to_string(), title: "That Song".to_string() },
    };
    match engine.on_event(stopped) {
        EventReaction::ShowState { label } => assert_eq!(label, "Stopped"),
        other => panic!("expected a state label, got {:?}", other),
    }
}

#[test]
fn a_missing_track_is_not_fatal() {
    let mut engine = Stream::new();
    engine.on_event(playing(0, "Them", "That Song"));
    let step = engine.on_track(None);
    assert!(step.print.is_none());
    assert_eq!(step.wait, Wait::Forever);
}

#[test]
fn streaming_prints_the_due_lyric_then_schedules_the_next() {
    // track [(0.0,"a"), (5.0,"b"), (5.0,"b")], streaming from elapsed=0:
    // "a" prints immediately, after ~5s "b", then "b (2)"
    let mut engine = Stream::new();
    engine.on_event(playing(0, "Them", "That Song"));
    let start = engine.on_track(Some(track(&[(0, "a"), (5_000, "b"), (5_000, "b")])));
    assert_eq!(start.print.as_deref(), Some("a"));
    assert_eq!(start.wait, Wait::For(5_000));

    let second = engine.on_timeout();
    assert_eq!(second.print.as_deref(), Some("b"));
    assert_eq!(second.wait, Wait::For(0));

    let third = engine.on_timeout();
    assert_eq!(third.print.as_deref(), Some("b (2)"));
    assert_eq!(third.wait, Wait::Forever, "the track is exhausted");
}

#[test]
fn an_event_always_beats_the_pending_schedule() {
    // Playing@t0, Playing@t1 (t1 > t0, nothing due between), then Paused,
    // all before any scheduled print fires: nothing of the interrupted
    // schedules is printed, and the paused label comes at once.
    let song = &[(10_000u64, "late lyric")];
    let mut engine = Stream::new();

    let mut printed: Vec<String> = Vec::new();

    engine.on_event(playing(0, "Them", "A"));
    let step = engine.on_track(Some(track(song)));
    printed.extend(step.print.clone());
    assert_eq!(step.wait, Wait::For(10_000));

    // the second event arrives before the 10s timeout: no print in between
    engine.on_event(playing(1_000, "Them", "A"));
    let step = engine.on_track(Some(track(song)));
    printed.extend(step.print.clone());
    assert_eq!(step.wait, Wait::For(9_000));

    // pause arrives before that timeout too
    match engine.on_event(paused("Them", "A")) {
        EventReaction::ShowState { label } => printed.push(label),
        other => panic!("expected a state label, got {:?}", other),
    }
    assert_eq!(printed, vec!["Paused".to_string()], "no lyric was printed along the way");
}

#[test]
fn starting_mid_song_prints_the_active_lyric_at_once() {
    let mut engine = Stream::new();
    engine.on_event(playing(7_000, "Them", "That Song"));
    let step = engine.on_track(Some(track(&[(0, "a"), (5_000, "b"), (20_000, "c")])));
    assert_eq!(step.print.as_deref(), Some("b"), "the lyric active at 7s");
    assert_eq!(step.wait, Wait::For(13_000), "until \"c\" at 20s");
}

#[test]
fn a_track_exhausted_at_the_start_finishes_quietly() {
    let mut engine = Stream::new();
    engine.on_event(playing(60_000, "Them", "That Song"));
    let step = engine.on_track(Some(track(&[(1_000, "only")])));
    assert_eq!(step.print.as_deref(), Some("only"), "the last lyric is still the active one");
    assert_eq!(step.wait, Wait::Forever);
}

#[test]
fn lyric_filenames_follow_the_artist_title_convention() {
    assert_eq!(
        lyric_filename("/data/lyrics", "Them", "That Song"),
        "/data/lyrics/Them - That Song.lrc"
    );
}
