use lyric_viewer::api::{State, Status};
use lyric_viewer::client::MPDClient;
use lyric_viewer::error::{Error, IntoRes};
use lyric_viewer::transport::MemTransport;

fn script(lines: &[&str]) -> MemTransport {
    MemTransport::new(lines.iter().map(|l| l.to_string()).collect())
}

fn connected(lines: &[&str]) -> MPDClient<MemTransport> {
    let mut all = vec!["OK MPD 0.23.5"];
    all.extend_from_slice(lines);
    let mut client = MPDClient::new(script(&all));
    client.connect().expect("greeting accepted");
    client
}

#[test]
fn connect_accepts_an_ok_greeting() {
    let mut client = MPDClient::new(script(&["OK MPD 0.23.5"]));
    assert!(client.connect().is_ok());
}

#[test]
fn connect_rejects_a_bad_greeting_before_sending_anything() {
    let mut client = MPDClient::new(script(&["BANNER something else"]));
    match client.connect() {
        Err(Error::Connection(line)) => assert_eq!(line, "BANNER something else"),
        other => panic!("expected a connection error, got {:?}", other),
    }
    // no command went out before the greeting was checked
    let transport = client.into_transport();
    assert!(transport.sent_lines().is_empty());
}

#[test]
fn connect_fails_on_a_closed_channel() {
    let mut client = MPDClient::new(script(&[]));
    assert!(matches!(client.connect(), Err(Error::Connection(_))));
}

#[test]
fn read_until_ok_collects_data_lines() {
    let mut client = connected(&["volume: 100", "repeat: 0", "OK"]);
    client.run_command("status").unwrap();
    let lines = client.read_until_ok().unwrap();
    assert_eq!(lines, vec!["volume: 100".to_string(), "repeat: 0".to_string()]);
}

#[test]
fn read_until_ok_reports_ack_with_its_diagnostic() {
    let mut client = connected(&["ACK [2@0] {seekcur} Bad song index", "OK"]);
    client.run_command("seekcur 1.000").unwrap();
    match client.read_until_ok() {
        Err(Error::ACK(msg)) => assert_eq!(msg, " [2@0] {seekcur} Bad song index"),
        other => panic!("expected an ACK error, got {:?}", other),
    }
}

#[test]
fn get_command_splits_keys_and_values() {
    let mut client = connected(&["state: play", "elapsed: 12.345", "OK"]);
    let kvs = client.get_command("status").unwrap();
    assert_eq!(
        kvs,
        vec![
            ("state".to_string(), "play".to_string()),
            ("elapsed".to_string(), "12.345".to_string()),
        ]
    );
}

#[test]
fn get_command_flags_lines_without_the_delimiter() {
    let mut client = connected(&["no delimiter here", "OK"]);
    assert!(matches!(client.get_command("status"), Err(Error::InvalidData(_))));
}

#[test]
fn status_reads_state_and_elapsed() {
    let mut client = connected(&["state: play", "elapsed: 63.250", "OK"]);
    let status = client.status().unwrap();
    assert_eq!(status, Status { state: State::PLAY, elapsed_ms: 63_250 });
}

#[test]
fn status_accepts_the_legacy_time_field() {
    let mut client = connected(&["state: pause", "time: 5", "OK"]);
    let status = client.status().unwrap();
    assert_eq!(status, Status { state: State::PAUSE, elapsed_ms: 5_000 });
}

#[test]
fn status_is_idempotent_without_daemon_side_changes() {
    let response = ["state: play", "elapsed: 42.000", "OK", "state: play", "elapsed: 42.000",
        "OK"];
    let mut client = connected(&response);
    let first = client.status().unwrap();
    let second = client.status().unwrap();
    assert_eq!(first, second);
}

#[test]
fn status_without_state_is_invalid_data() {
    let mut client = connected(&["elapsed: 1.000", "OK"]);
    match client.status() {
        Err(Error::InvalidData(msg)) => assert_eq!(msg, "missing state"),
        other => panic!("expected invalid data, got {:?}", other),
    }
}

#[test]
fn status_with_unknown_state_is_invalid_data() {
    let mut client = connected(&["state: warble", "elapsed: 1.000", "OK"]);
    match client.status() {
        Err(Error::InvalidData(msg)) => assert_eq!(msg, "state is invalid"),
        other => panic!("expected invalid data, got {:?}", other),
    }
}

#[test]
fn status_without_any_position_field_is_invalid_data() {
    let mut client = connected(&["state: stop", "OK"]);
    match client.status() {
        Err(Error::InvalidData(msg)) => assert_eq!(msg, "missing time"),
        other => panic!("expected invalid data, got {:?}", other),
    }
}

#[test]
fn status_with_unreadable_elapsed_is_invalid_data() {
    let mut client = connected(&["state: play", "elapsed: soon", "OK"]);
    match client.status() {
        Err(Error::InvalidData(msg)) => assert_eq!(msg, "elapsed is not a number"),
        other => panic!("expected invalid data, got {:?}", other),
    }
}

#[test]
fn current_song_requires_artist_and_title() {
    let mut client = connected(&["Artist: Them", "Title: That Song", "OK"]);
    let song = client.current_song().unwrap();
    assert_eq!(song.artist, "Them");
    assert_eq!(song.title, "That Song");

    let mut missing = connected(&["Title: Only", "OK"]);
    match missing.current_song() {
        Err(Error::InvalidData(msg)) => assert_eq!(msg, "missing artist"),
        other => panic!("expected invalid data, got {:?}", other),
    }

    let mut missing_title = connected(&["Artist: Only", "OK"]);
    match missing_title.current_song() {
        Err(Error::InvalidData(msg)) => assert_eq!(msg, "missing title"),
        other => panic!("expected invalid data, got {:?}", other),
    }
}

#[test]
fn seek_cur_formats_three_decimal_places() {
    let mut client = connected(&["OK"]);
    client.seek_cur(63_250).unwrap();
    let transport = client.into_transport();
    assert_eq!(transport.sent_lines().last().unwrap(), "seekcur 63.250");
}

#[test]
fn seek_cur_pads_small_fractions() {
    let mut client = connected(&["OK"]);
    client.seek_cur(7_005).unwrap();
    let transport = client.into_transport();
    assert_eq!(transport.sent_lines().last().unwrap(), "seekcur 7.005");
}

#[test]
fn seek_ack_is_a_protocol_error_and_a_fresh_session_recovers() {
    // the daemon answers the seek with a malformed ACK diagnostic
    let mut client = connected(&["ACK"]);
    match client.seek_cur(1_000) {
        Err(Error::ACK(msg)) => assert_eq!(msg, ""),
        other => panic!("expected an ACK error, got {:?}", other),
    }
    // a fresh session still works
    let mut fresh = connected(&["OK"]);
    assert!(fresh.ping().is_ok());
}

#[test]
fn ping_drains_its_response() {
    let mut client = connected(&["OK", "state: stop", "time: 0", "OK"]);
    client.ping().unwrap();
    let status = client.status().unwrap();
    assert_eq!(status.state, State::STOP);
}

#[test]
fn a_transport_diagnostic_becomes_a_connection_error() {
    let failed: Result<u64, String> = Err("socket gone".to_string());
    match failed.into_res() {
        Err(Error::Connection(msg)) => assert_eq!(msg, "socket gone"),
        other => panic!("expected a connection error, got {:?}", other),
    }
    let fine: Result<u64, String> = Ok(7);
    assert_eq!(fine.into_res().unwrap(), 7);
}

#[test]
fn idle_player_blocks_until_the_terminator() {
    let mut client = connected(&["changed: player", "OK"]);
    assert!(client.idle_player().is_ok());
    let transport = client.into_transport();
    assert_eq!(transport.sent_lines().last().unwrap(), "idle player");
}
