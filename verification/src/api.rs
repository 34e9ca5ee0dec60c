//! Typed commands over a client session: `status`, `currentsong`,
//! `seekcur`, `ping`.
//!
//! Each command issues its raw line, reads the key/value response, and
//! extracts the required fields. A required field that is absent or
//! malformed is invalid data — the caller skips that snapshot — never a
//! crash.

use vstd::prelude::*;

use crate::client::{is_ack, is_terminator, kvs_view, spec_parse_kvs, stop_idx, MPDClient};
use crate::error::Error;
use crate::text::{
    fmt_u64, fmt_u64_pad, is_digit, lemma_digits_exclude, lemma_fmt_nat, lemma_zero_pad,
    parse_millis, spec_fmt_nat, spec_parse_millis, str_eq, zero_pad,
};
use crate::transport::Transport;

verus! {

/// Playback state as the daemon reports it. `PAUSE` and `STOP` both halt
/// lyric advancement but are shown differently.
#[derive(Debug, PartialEq, Eq, Structural, Clone, Copy)]
pub enum State {
    PLAY,
    STOP,
    PAUSE,
}

impl State {
    /// The protocol's name for the state.
    pub fn as_str(self) -> (r: &'static str)
        ensures
            self is PLAY ==> r@ == "play"@,
            self is PAUSE ==> r@ == "pause"@,
            self is STOP ==> r@ == "stop"@,
    {
        match self {
            State::PLAY => "play",
            State::PAUSE => "pause",
            State::STOP => "stop",
        }
    }
}

/// One playback snapshot: the state and the position in the current song.
/// Produced fresh on every poll, never partially updated.
#[derive(Debug, PartialEq, Eq, Structural, Clone, Copy)]
pub struct Status {
    pub state: State,
    /// Position in the current song, in whole milliseconds.
    pub elapsed_ms: u64,
}

/// The song now playing. Both fields are required: a response without
/// either is invalid data, not a missing-song condition.
#[derive(Debug, Clone)]
pub struct CurrentSong {
    pub artist: String,
    pub title: String,
}

/// The value of the first pair carrying `key`.
pub open spec fn lookup(kvs: Seq<(Seq<char>, Seq<char>)>, key: Seq<char>) -> Option<Seq<char>>
    decreases kvs.len(),
{
    if kvs.len() == 0 {
        None
    } else if kvs[0].0 == key {
        Some(kvs[0].1)
    } else {
        lookup(kvs.drop_first(), key)
    }
}

/// The state named by a `state` field value, by exact match.
pub open spec fn spec_state_of(v: Seq<char>) -> Option<State> {
    if v == "play"@ {
        Some(State::PLAY)
    } else if v == "pause"@ {
        Some(State::PAUSE)
    } else if v == "stop"@ {
        Some(State::STOP)
    } else {
        None
    }
}

/// What `status` makes of a parsed response: the snapshot, or the
/// diagnostic for the first missing or malformed field. The position is
/// taken from `elapsed`, or failing that from the legacy `time` field.
pub open spec fn spec_status_of(kvs: Seq<(Seq<char>, Seq<char>)>) -> Result<Status, Seq<char>> {
    match lookup(kvs, "state"@) {
        None => Err("missing state"@),
        Some(sv) => match spec_state_of(sv) {
            None => Err("state is invalid"@),
            Some(st) => match (match lookup(kvs, "elapsed"@) {
                Some(e) => Some(e),
                None => lookup(kvs, "time"@),
            }) {
                None => Err("missing time"@),
                Some(ev) => match spec_parse_millis(ev) {
                    None => Err("elapsed is not a number"@),
                    Some(ms) => Ok(Status { state: st, elapsed_ms: ms }),
                },
            },
        },
    }
}

/// What `currentsong` makes of a parsed response: the artist and title,
/// or the diagnostic for the first missing field.
pub open spec fn spec_song_of(kvs: Seq<(Seq<char>, Seq<char>)>) -> Result<
    (Seq<char>, Seq<char>),
    Seq<char>,
> {
    match lookup(kvs, "Artist"@) {
        None => Err("missing artist"@),
        Some(a) => match lookup(kvs, "Title"@) {
            None => Err("missing title"@),
            Some(t) => Ok((a, t)),
        },
    }
}

/// The `Status` a `status` exchange yields from given incoming lines,
/// when the response is well formed; the lines determine it completely.
pub open spec fn spec_status_exchange(inc: Seq<Seq<char>>) -> Option<Status> {
    let k: int = stop_idx(inc);
    if 0 <= k < inc.len() && is_terminator(inc[k]) {
        match spec_parse_kvs(inc.take(k)) {
            Some(kvs) => match spec_status_of(kvs) {
                Ok(st) => Some(st),
                Err(_) => None,
            },
            None => None,
        }
    } else {
        None
    }
}

/// Issuing `status` twice with no daemon-side change in between — so both
/// exchanges read the same response lines — yields equal snapshots.
pub proof fn lemma_status_idempotent(inc: Seq<Seq<char>>, s1: Status, s2: Status)
    requires
        spec_status_exchange(inc) == Some(s1),
        spec_status_exchange(inc) == Some(s2),
    ensures
        s1 == s2,
{
}

/// Finds the value of the first pair carrying `key`.
fn lookup_first(kvs: &Vec<(String, String)>, key: &str) -> (r: Option<String>)
    ensures
        match r {
            Some(v) => lookup(kvs_view(kvs@), key@) == Some(v@),
            None => lookup(kvs_view(kvs@), key@) is None,
        },
{
    let ghost views = kvs_view(kvs@);
    let mut i: usize = 0;
    proof {
        assert(views.skip(0) =~= views);
    }
    while i < kvs.len()
        invariant
            i <= kvs@.len(),
            views == kvs_view(kvs@),
            views.len() == kvs@.len(),
            lookup(views, key@) == lookup(views.skip(i as int), key@),
        decreases kvs@.len() - i,
    {
        proof {
            assert(views.skip(i as int)[0] == views[i as int]);
            assert(views[i as int] == (kvs@[i as int].0@, kvs@[i as int].1@));
            assert(views.skip(i as int).drop_first() =~= views.skip(i as int + 1));
        }
        if str_eq(kvs[i].0.as_str(), key) {
            return Some(kvs[i].1.clone());
        }
        i = i + 1;
    }
    proof {
        assert(views.skip(kvs@.len() as int) =~= Seq::<(Seq<char>, Seq<char>)>::empty());
    }
    None
}

impl<T: Transport> MPDClient<T> {
    /// Fetches a fresh playback snapshot.
    pub fn status(&mut self) -> (r: Result<Status, Error>)
        ensures
            match r {
                Ok(st) => {
                    let k: int = stop_idx(old(self).incoming());
                    &&& final(self).outgoing() == old(self).outgoing().push("status"@)
                    &&& k < old(self).incoming().len()
                    &&& is_terminator(old(self).incoming()[k])
                    &&& spec_parse_kvs(old(self).incoming().take(k)) is Some
                    &&& spec_status_of(spec_parse_kvs(old(self).incoming().take(k))->Some_0)
                        == Ok::<Status, Seq<char>>(st)
                    &&& spec_status_exchange(old(self).incoming()) == Some(st)
                    &&& final(self).incoming() == old(self).incoming().skip(k + 1)
                },
                Err(e) => match e {
                    Error::ACK(msg) => {
                        let k: int = stop_idx(old(self).incoming());
                        &&& final(self).outgoing() == old(self).outgoing().push("status"@)
                        &&& k < old(self).incoming().len()
                        &&& is_ack(old(self).incoming()[k])
                        &&& msg@ == old(self).incoming()[k].skip(3)
                        &&& final(self).incoming() == old(self).incoming().skip(k + 1)
                    },
                    Error::Connection(_) => true,
                    Error::InvalidData(m) => {
                        let k: int = stop_idx(old(self).incoming());
                        let parsed = spec_parse_kvs(old(self).incoming().take(k));
                        &&& final(self).outgoing() == old(self).outgoing().push("status"@)
                        &&& k < old(self).incoming().len()
                        &&& is_terminator(old(self).incoming()[k])
                        &&& final(self).incoming() == old(self).incoming().skip(k + 1)
                        &&& match parsed {
                            None => m@ == "response line is not in key: value form"@,
                            Some(kvs) => spec_status_of(kvs) == Err::<Status, Seq<char>>(m@),
                        }
                    },
                },
            },
    {
        proof {
            reveal_strlit("status");
            assert(forall|j: int| 0 <= j < "status"@.len() ==> "status"@[j] != '\n');
        }
        let kvs = match self.get_command("status") {
            Ok(kvs) => kvs,
            Err(e) => {
                return Err(e);
            },
        };
        let state_v = match lookup_first(&kvs, "state") {
            Some(v) => v,
            None => {
                return Err(Error::InvalidData("missing state"));
            },
        };
        let state = if str_eq(state_v.as_str(), "play") {
            State::PLAY
        } else if str_eq(state_v.as_str(), "pause") {
            State::PAUSE
        } else if str_eq(state_v.as_str(), "stop") {
            State::STOP
        } else {
            return Err(Error::InvalidData("state is invalid"));
        };
        let elapsed_v = match lookup_first(&kvs, "elapsed") {
            Some(v) => v,
            None => match lookup_first(&kvs, "time") {
                Some(v) => v,
                None => {
                    return Err(Error::InvalidData("missing time"));
                },
            },
        };
        let ms = match parse_millis(elapsed_v.as_str()) {
            Some(v) => v,
            None => {
                return Err(Error::InvalidData("elapsed is not a number"));
            },
        };
        proof {
            crate::client::lemma_stop_idx(old(self).incoming());
        }
        Ok(Status { state, elapsed_ms: ms })
    }

    /// Fetches the song now playing.
    pub fn current_song(&mut self) -> (r: Result<CurrentSong, Error>)
        ensures
            match r {
                Ok(song) => {
                    let k: int = stop_idx(old(self).incoming());
                    &&& final(self).outgoing() == old(self).outgoing().push("currentsong"@)
                    &&& k < old(self).incoming().len()
                    &&& is_terminator(old(self).incoming()[k])
                    &&& spec_parse_kvs(old(self).incoming().take(k)) is Some
                    &&& spec_song_of(spec_parse_kvs(old(self).incoming().take(k))->Some_0)
                        == Ok::<(Seq<char>, Seq<char>), Seq<char>>((song.artist@, song.title@))
                    &&& final(self).incoming() == old(self).incoming().skip(k + 1)
                },
                Err(e) => match e {
                    Error::ACK(msg) => {
                        let k: int = stop_idx(old(self).incoming());
                        &&& final(self).outgoing() == old(self).outgoing().push("currentsong"@)
                        &&& k < old(self).incoming().len()
                        &&& is_ack(old(self).incoming()[k])
                        &&& msg@ == old(self).incoming()[k].skip(3)
                        &&& final(self).incoming() == old(self).incoming().skip(k + 1)
                    },
                    Error::Connection(_) => true,
                    Error::InvalidData(m) => {
                        let k: int = stop_idx(old(self).incoming());
                        let parsed = spec_parse_kvs(old(self).incoming().take(k));
                        &&& final(self).outgoing() == old(self).outgoing().push("currentsong"@)
                        &&& k < old(self).incoming().len()
                        &&& is_terminator(old(self).incoming()[k])
                        &&& final(self).incoming() == old(self).incoming().skip(k + 1)
                        &&& match parsed {
                            None => m@ == "response line is not in key: value form"@,
                            Some(kvs) => spec_song_of(kvs) == Err::<(Seq<char>, Seq<char>), Seq<char>>(
                                m@,
                            ),
                        }
                    },
                },
            },
    {
        proof {
            reveal_strlit("currentsong");
            assert(forall|j: int| 0 <= j < "currentsong"@.len() ==> "currentsong"@[j] != '\n');
        }
        let kvs = match self.get_command("currentsong") {
            Ok(kvs) => kvs,
            Err(e) => {
                return Err(e);
            },
        };
        let artist = match lookup_first(&kvs, "Artist") {
            Some(v) => v,
            None => {
                return Err(Error::InvalidData("missing artist"));
            },
        };
        let title = match lookup_first(&kvs, "Title") {
            Some(v) => v,
            None => {
                return Err(Error::InvalidData("missing title"));
            },
        };
        Ok(CurrentSong { artist, title })
    }

    /// Checks the session is alive.
    pub fn ping(&mut self) -> (r: Result<(), Error>)
        ensures
            match r {
                Ok(()) => {
                    let k: int = stop_idx(old(self).incoming());
                    &&& final(self).outgoing() == old(self).outgoing().push("ping"@)
                    &&& k < old(self).incoming().len()
                    &&& is_terminator(old(self).incoming()[k])
                    &&& final(self).incoming() == old(self).incoming().skip(k + 1)
                },
                Err(e) => match e {
                    Error::ACK(msg) => {
                        let k: int = stop_idx(old(self).incoming());
                        &&& final(self).outgoing() == old(self).outgoing().push("ping"@)
                        &&& k < old(self).incoming().len()
                        &&& is_ack(old(self).incoming()[k])
                        &&& msg@ == old(self).incoming()[k].skip(3)
                        &&& final(self).incoming() == old(self).incoming().skip(k + 1)
                    },
                    Error::Connection(_) => true,
                    Error::InvalidData(_) => false,
                },
            },
    {
        proof {
            reveal_strlit("ping");
            assert(forall|j: int| 0 <= j < "ping"@.len() ==> "ping"@[j] != '\n');
        }
        match self.run_command("ping") {
            Ok(()) => {},
            Err(e) => {
                return Err(e);
            },
        }
        self.flush()
    }
}

/// The exact `seekcur` command line for a position: whole seconds, a dot,
/// and exactly three fractional digits.
pub open spec fn spec_seek_command(ms: u64) -> Seq<char> {
    "seekcur "@ + spec_fmt_nat((ms / 1000) as nat) + seq!['.'] + zero_pad(
        spec_fmt_nat((ms % 1000) as nat),
        3,
    )
}

impl<T: Transport> MPDClient<T> {
    /// Seeks within the current song to the given position.
    pub fn seek_cur(&mut self, to_ms: u64) -> (r: Result<(), Error>)
        ensures
            match r {
                Ok(()) => {
                    let k: int = stop_idx(old(self).incoming());
                    &&& final(self).outgoing() == old(self).outgoing().push(spec_seek_command(
                        to_ms,
                    ))
                    &&& k < old(self).incoming().len()
                    &&& is_terminator(old(self).incoming()[k])
                    &&& final(self).incoming() == old(self).incoming().skip(k + 1)
                },
                Err(e) => match e {
                    Error::ACK(msg) => {
                        let k: int = stop_idx(old(self).incoming());
                        &&& final(self).outgoing() == old(self).outgoing().push(spec_seek_command(
                            to_ms,
                        ))
                        &&& k < old(self).incoming().len()
                        &&& is_ack(old(self).incoming()[k])
                        &&& msg@ == old(self).incoming()[k].skip(3)
                        &&& final(self).incoming() == old(self).incoming().skip(k + 1)
                    },
                    Error::Connection(_) => true,
                    Error::InvalidData(_) => false,
                },
            },
    {
        let mut cmd = String::from_str("seekcur ");
        cmd.append(fmt_u64(to_ms / 1000).as_str());
        crate::text::push_char(&mut cmd, '.');
        cmd.append(fmt_u64_pad(to_ms % 1000, 3).as_str());
        proof {
            assert(cmd@ =~= spec_seek_command(to_ms));
            reveal_strlit("seekcur ");
            lemma_fmt_nat((to_ms / 1000) as nat);
            lemma_fmt_nat((to_ms % 1000) as nat);
            lemma_zero_pad(spec_fmt_nat((to_ms % 1000) as nat), 3);
            let whole = spec_fmt_nat((to_ms / 1000) as nat);
            let frac = zero_pad(spec_fmt_nat((to_ms % 1000) as nat), 3);
            lemma_digits_exclude(whole);
            lemma_digits_exclude(frac);
            let pre: int = "seekcur "@.len() as int;
            assert forall|j: int| 0 <= j < cmd@.len() implies (#[trigger] cmd@[j]) != '\n' by {
                if j < pre {
                    assert(cmd@[j] == "seekcur "@[j]);
                } else if j < pre + whole.len() {
                    assert(cmd@[j] == whole[j - pre]);
                    assert(is_digit(whole[j - pre]));
                } else if j == pre + whole.len() {
                    assert(cmd@[j] == '.');
                } else {
                    assert(cmd@[j] == frac[j - pre - whole.len() - 1]);
                    assert(is_digit(frac[j - pre - whole.len() - 1]));
                }
            }
        }
        match self.run_command(cmd.as_str()) {
            Ok(()) => {},
            Err(e) => {
                return Err(e);
            },
        }
        self.flush()
    }
}

} // verus!
