//! The real-time lyric streaming state machine.
//!
//! The engine reconciles two things: a background stream of playback
//! events, and a foreground timer walking through the current song's
//! lyric track. All timing and I/O stay with the runner; the engine is
//! the pure decision core. The runner's loop is:
//!
//! - feed every fresh [`Event`] to [`Stream::on_event`]; when it asks for
//!   a track, load the file it names and hand the result to
//!   [`Stream::on_track`];
//! - then wait on the event queue as the returned [`Wait`] says: forever,
//!   or at most the given delay;
//! - a timeout means the scheduled lyric is due: call
//!   [`Stream::on_timeout`], print, and wait again;
//! - an event always wins over the pending schedule: hand it to
//!   [`Stream::on_event`], which abandons the schedule — nothing of it is
//!   printed — and starts over from the event;
//! - when the event source is gone for good, stop: nothing can be learnt
//!   about playback any more.

use vstd::prelude::*;

use crate::api::{CurrentSong, State, Status};
use crate::lyric_parser::{
    decorate, due_boundary, lemma_due_boundary_char, rep_chain, rep_step, Lyric, Lyrics,
};
use crate::text::push_char;

verus! {

/// One playback change, as the background notifier observed it: an atomic
/// snapshot of the status and the song it belongs to.
#[derive(Debug)]
pub struct Event {
    pub status: Status,
    pub song: CurrentSong,
}

/// Where the engine stands between calls.
#[derive(Debug, PartialEq, Eq, Structural, Clone, Copy)]
pub enum Phase {
    /// No song in progress; wait for the next event.
    Idle,
    /// A playing event arrived; the runner is loading its lyric track.
    AwaitingTrack,
    /// A lyric is scheduled; wait for its delay, or for an event.
    Waiting,
    /// The track is exhausted for this song; wait for the next event.
    Finished,
}

/// How the runner should wait for the next event.
#[derive(Debug, PartialEq, Eq, Structural, Clone, Copy)]
pub enum Wait {
    /// Block on the event queue with no timeout.
    Forever,
    /// Block on the event queue for at most this many milliseconds.
    For(u64),
}

/// The engine's reaction to an event. Neither form prints a lyric: an
/// event abandons any pending schedule unprinted.
#[derive(Debug)]
pub enum EventReaction {
    /// Playback runs: load the lyric track for this song and report back
    /// through [`Stream::on_track`].
    Load { artist: String, title: String },
    /// Playback halted: show this state label on the primary output.
    ShowState { label: String },
}

/// A print order (if any) and how to wait next.
#[derive(Debug)]
pub struct StepOutput {
    /// Text to print on the primary output, now.
    pub print: Option<String>,
    /// How to wait for the next event.
    pub wait: Wait,
}

/// The streaming engine.
pub struct Stream {
    phase: Phase,
    track: Option<Lyrics>,
    pending: Option<Lyric>,
    elapsed_ms: u64,
    delay_ms: u64,
}

impl Stream {
    /// Where the engine stands.
    pub closed spec fn phase(&self) -> Phase {
        self.phase
    }

    /// The current track, while one is loaded.
    pub closed spec fn track(&self) -> Option<Lyrics> {
        self.track
    }

    /// The lyric scheduled to print next, while `Waiting`.
    pub closed spec fn pending(&self) -> Option<Lyric> {
        self.pending
    }

    /// The playback position the schedule is based on, in milliseconds.
    pub closed spec fn elapsed(&self) -> u64 {
        self.elapsed_ms
    }

    /// The delay until the pending lyric is due, in milliseconds.
    pub closed spec fn delay(&self) -> u64 {
        self.delay_ms
    }

    /// Internal consistency: while `Waiting` there is a track and a
    /// pending lyric, and the delay runs out exactly at the pending
    /// lyric's timestamp (or immediately, for an overdue one).
    pub open spec fn wf(&self) -> bool {
        self.phase() is Waiting ==> {
            &&& self.track() matches Some(tr) && tr.wf()
            &&& self.pending() is Some
            &&& (self.delay() == 0 || self.elapsed() + self.delay() == self.pending()->0.min_millis)
        }
    }

    /// Whether a lyric is scheduled, so that a queue timeout is
    /// meaningful. Runners gate [`Self::on_timeout`] on this.
    pub fn is_waiting(&self) -> (r: bool)
        ensures
            r == (self.phase() is Waiting),
    {
        match self.phase {
            Phase::Waiting => true,
            _ => false,
        }
    }

    /// A fresh engine: idle until the first event.
    pub fn new() -> (r: Stream)
        ensures
            r.wf(),
            r.phase() is Idle,
    {
        Stream { phase: Phase::Idle, track: None, pending: None, elapsed_ms: 0, delay_ms: 0 }
    }

    /// Takes one playback event, abandoning whatever was scheduled: no
    /// lyric is printed for an interrupted schedule (no reaction carries
    /// one). Playing asks for the song's track; paused and stopped show
    /// their label and leave the engine idle.
    pub fn on_event(&mut self, evt: Event) -> (r: EventReaction)
        requires
            old(self).wf(),
        ensures
            final(self).wf(),
            match evt.status.state {
                State::PLAY => {
                    &&& final(self).phase() is AwaitingTrack
                    &&& final(self).elapsed() == evt.status.elapsed_ms
                    &&& r matches EventReaction::Load { artist, title } && artist@
                        == evt.song.artist@ && title@ == evt.song.title@
                },
                State::PAUSE => final(self).phase() is Idle && (r matches
                EventReaction::ShowState { label } && label@ == "Paused"@),
                State::STOP => final(self).phase() is Idle && (r matches
                EventReaction::ShowState { label } && label@ == "Stopped"@),
            },
    {
        self.track = None;
        self.pending = None;
        self.delay_ms = 0;
        match evt.status.state {
            State::PLAY => {
                self.phase = Phase::AwaitingTrack;
                self.elapsed_ms = evt.status.elapsed_ms;
                EventReaction::Load { artist: evt.song.artist, title: evt.song.title }
            },
            State::PAUSE => {
                self.phase = Phase::Idle;
                EventReaction::ShowState { label: String::from_str("Paused") }
            },
            State::STOP => {
                self.phase = Phase::Idle;
                EventReaction::ShowState { label: String::from_str("Stopped") }
            },
        }
    }

    /// Takes the loaded track for the song last reported playing. A
    /// missing track is no failure: the song simply streams without
    /// lyrics. Otherwise the lyric active at the playback position (the
    /// last one already due) is printed at once, and the engine waits for
    /// the first lyric still ahead — or is finished if none remains.
    pub fn on_track(&mut self, track: Option<Lyrics>) -> (r: StepOutput)
        requires
            old(self).wf(),
            old(self).phase() is AwaitingTrack,
            track matches Some(t) ==> t.wf(),
        ensures
            final(self).wf(),
            match track {
                None => {
                    &&& final(self).phase() is Idle
                    &&& r.print is None
                    &&& r.wait is Forever
                },
                Some(t) => {
                    let e0 = old(self).elapsed();
                    let c1: int = due_boundary(t.entries(), t.cursor(), e0);
                    &&& (c1 == t.cursor() ==> r.print is None)
                    &&& (c1 > t.cursor() ==> (r.print matches Some(p) && p@ == decorate(
                        t.entries()[c1 - 1].1,
                        rep_chain(
                            t.prev_text(),
                            t.repeat(),
                            t.entries().subrange(t.cursor(), c1),
                        ).1,
                    )))
                    &&& if c1 == t.entries().len() {
                        &&& final(self).phase() is Finished
                        &&& r.wait is Forever
                    } else {
                        &&& final(self).phase() is Waiting
                        &&& final(self).elapsed() == e0
                        &&& final(self).pending() matches Some(p2) && p2.min_millis
                            == t.entries()[c1].0 && p2.lyric@ == decorate(
                            t.entries()[c1].1,
                            rep_chain(
                                t.prev_text(),
                                t.repeat(),
                                t.entries().subrange(t.cursor(), c1 + 1),
                            ).1,
                        )
                        &&& final(self).delay() == (if t.entries()[c1].0 >= e0 {
                            t.entries()[c1].0 - e0
                        } else {
                            0
                        })
                        &&& r.wait == Wait::For(final(self).delay())
                        &&& final(self).track() matches Some(tr2) && tr2.entries() == t.entries()
                            && tr2.cursor() == c1 + 1
                    }
                },
            },
    {
        let mut t = match track {
            Some(t) => t,
            None => {
                self.phase = Phase::Idle;
                return StepOutput { print: None, wait: Wait::Forever };
            },
        };
        let ghost c0 = t.cursor();
        let ghost entries = t.entries();
        let ghost prev0 = t.prev_text();
        let ghost rep0 = t.repeat();
        proof {
            t.lemma_cursor_in_range();
        }
        let previous = t.get_lyric_for_time(self.elapsed_ms);
        proof {
            lemma_due_boundary_char(entries, c0, t.cursor(), self.elapsed_ms);
        }
        let print = match previous {
            Some(p) => Some(p.lyric),
            None => None,
        };
        let ghost c1 = t.cursor();
        match t.next() {
            None => {
                self.phase = Phase::Finished;
                self.track = None;
                self.pending = None;
                StepOutput { print, wait: Wait::Forever }
            },
            Some(l) => {
                let delay = if l.min_millis >= self.elapsed_ms {
                    l.min_millis - self.elapsed_ms
                } else {
                    0
                };
                proof {
                    assert(entries.subrange(c0, c1 + 1) =~= entries.subrange(c0, c1).push(
                        entries[c1],
                    ));
                    crate::lyric_parser::lemma_rep_chain_push(
                        prev0,
                        rep0,
                        entries.subrange(c0, c1),
                        entries[c1],
                    );
                }
                self.delay_ms = delay;
                self.pending = Some(l);
                self.track = Some(t);
                self.phase = Phase::Waiting;
                StepOutput { print, wait: Wait::For(delay) }
            },
        }
    }

    /// Fires when the waiting delay has elapsed with no event: prints the
    /// pending lyric, advances the playback estimate to its timestamp,
    /// and schedules the next lyric — or is finished, discarding the
    /// track, when none remains.
    pub fn on_timeout(&mut self) -> (r: StepOutput)
        requires
            old(self).wf(),
            old(self).phase() is Waiting,
        ensures
            final(self).wf(),
            r.print matches Some(p) && p@ == old(self).pending()->0.lyric@,
            ({
                let tr = old(self).track()->0;
                let e2: int = old(self).elapsed() + old(self).delay();
                if tr.cursor() == tr.entries().len() {
                    &&& final(self).phase() is Finished
                    &&& final(self).track() is None
                    &&& r.wait is Forever
                } else {
                    &&& final(self).phase() is Waiting
                    &&& final(self).elapsed() == e2
                    &&& final(self).pending() matches Some(p2) && p2.min_millis
                        == tr.entries()[tr.cursor()].0 && p2.lyric@ == decorate(
                        tr.entries()[tr.cursor()].1,
                        rep_step(tr.prev_text(), tr.repeat(), tr.entries()[tr.cursor()].1),
                    )
                    &&& final(self).delay() == (if tr.entries()[tr.cursor()].0 >= e2 {
                        tr.entries()[tr.cursor()].0 - e2
                    } else {
                        0
                    })
                    &&& r.wait == Wait::For(final(self).delay())
                    &&& final(self).track() matches Some(tr2) && tr2.entries() == tr.entries()
                        && tr2.cursor() == tr.cursor() + 1
                }
            }),
    {
        let due = match self.pending.take() {
            Some(p) => p,
            None => {
                proof {
                    assert(false);
                }
                Lyric { min_millis: 0, lyric: String::new() }
            },
        };
        let mut tr = match self.track.take() {
            Some(t) => t,
            None => {
                proof {
                    assert(false);
                }
                return StepOutput { print: None, wait: Wait::Forever };
            },
        };
        self.elapsed_ms = self.elapsed_ms + self.delay_ms;
        let out = match tr.next() {
            None => {
                self.phase = Phase::Finished;
                self.delay_ms = 0;
                StepOutput { print: Some(due.lyric), wait: Wait::Forever }
            },
            Some(l) => {
                let delay = if l.min_millis >= self.elapsed_ms {
                    l.min_millis - self.elapsed_ms
                } else {
                    0
                };
                self.delay_ms = delay;
                self.pending = Some(l);
                self.track = Some(tr);
                self.phase = Phase::Waiting;
                StepOutput { print: Some(due.lyric), wait: Wait::For(delay) }
            },
        };
        out
    }
}

/// The lyric file for a song: `{artist} - {title}.lrc` in the configured
/// directory.
pub fn lyric_filename(dir: &str, artist: &str, title: &str) -> (r: String)
    ensures
        r@ == dir@ + seq!['/'] + artist@ + seq![' ', '-', ' '] + title@ + seq![
            '.',
            'l',
            'r',
            'c',
        ],
{
    let mut s = String::from_str(dir);
    push_char(&mut s, '/');
    s.append(artist);
    push_char(&mut s, ' ');
    push_char(&mut s, '-');
    push_char(&mut s, ' ');
    s.append(title);
    push_char(&mut s, '.');
    push_char(&mut s, 'l');
    push_char(&mut s, 'r');
    push_char(&mut s, 'c');
    proof {
        assert(s@ =~= dir@ + seq!['/'] + artist@ + seq![' ', '-', ' '] + title@ + seq![
            '.',
            'l',
            'r',
            'c',
        ]);
    }
    s
}

} // verus!
