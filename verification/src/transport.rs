//! The duplex line channel a client session runs over.
//!
//! The protocol is line-oriented, so the channel is modelled as two
//! sequences of lines: what the peer will deliver next (`incoming`) and
//! what has been sent so far (`outgoing`). The verified client layers are
//! generic over this trait; a network-backed implementation lives outside
//! the verified world, while [`MemTransport`] realises the model exactly
//! in memory and is itself verified — it is what the tests run on.

use vstd::prelude::*;

use crate::error::Error;
use crate::text::{lemma_strs_view_push, strs_view};

verus! {

/// A duplex, line-oriented channel.
///
/// One call, one line: `write_line` sends a single line (terminator and
/// flushing are the implementation's business), `read_line` receives the
/// next line without its terminator. Implementations report failure as
/// [`Error::Connection`]; a failed read must not invent sent lines.
pub trait Transport: Sized {
    /// The lines the peer will deliver next, in order. The default model
    /// is the empty one; an implementation living outside the verified
    /// world may keep it, since nothing is proved about such an
    /// implementation anyway.
    open spec fn incoming(&self) -> Seq<Seq<char>> {
        Seq::empty()
    }

    /// The lines sent so far, oldest first.
    open spec fn outgoing(&self) -> Seq<Seq<char>> {
        Seq::empty()
    }

    /// Sends one line and flushes it. The line must be free of `'\n'`,
    /// which the channel itself uses as the terminator.
    fn write_line(&mut self, line: &str) -> (r: Result<(), Error>)
        requires
            forall|j: int| 0 <= j < line@.len() ==> line@[j] != '\n',
        ensures
            match r {
                Ok(()) => final(self).outgoing() == old(self).outgoing().push(line@)
                    && final(self).incoming() == old(self).incoming(),
                Err(e) => e is Connection,
            },
    ;

    /// Receives the next line, without its terminator.
    fn read_line(&mut self) -> (r: Result<String, Error>)
        ensures
            match r {
                Ok(l) => old(self).incoming().len() > 0 && l@ == old(self).incoming()[0]
                    && final(self).incoming() == old(self).incoming().drop_first()
                    && final(self).outgoing() == old(self).outgoing(),
                Err(e) => e is Connection && final(self).outgoing() == old(self).outgoing(),
            },
    ;
}

/// An in-memory transport: a scripted sequence of lines to deliver, and a
/// log of every line sent. Reading past the script fails the way a closed
/// connection would.
pub struct MemTransport {
    script: Vec<String>,
    cursor: usize,
    sent: Vec<String>,
}

impl MemTransport {
    /// A transport that will deliver `script`, line by line.
    pub fn new(script: Vec<String>) -> (r: MemTransport)
        ensures
            r.incoming() == strs_view(script@),
            r.outgoing() == Seq::<Seq<char>>::empty(),
    {
        let t = MemTransport { script, cursor: 0, sent: Vec::new() };
        proof {
            assert(strs_view(t.script@).skip(0) =~= strs_view(t.script@));
            assert(strs_view(t.sent@) =~= Seq::<Seq<char>>::empty());
        }
        t
    }

    /// The lines sent so far.
    pub fn sent_lines(&self) -> (r: &Vec<String>)
        ensures
            strs_view(r@) == self.outgoing(),
    {
        &self.sent
    }
}

impl Transport for MemTransport {
    closed spec fn incoming(&self) -> Seq<Seq<char>> {
        if self.cursor <= self.script@.len() {
            strs_view(self.script@).skip(self.cursor as int)
        } else {
            Seq::empty()
        }
    }

    closed spec fn outgoing(&self) -> Seq<Seq<char>> {
        strs_view(self.sent@)
    }

    /// Always succeeds: the log has no failure mode.
    fn write_line(&mut self, line: &str) -> (r: Result<(), Error>)
        ensures
            r is Ok,
    {
        let ghost sent_before = self.sent@;
        self.sent.push(String::from_str(line));
        proof {
            lemma_strs_view_push(sent_before, self.sent@.last());
        }
        Ok(())
    }

    /// Succeeds exactly while scripted lines remain, and fails without
    /// changing anything once the script is exhausted.
    fn read_line(&mut self) -> (r: Result<String, Error>)
        ensures
            r is Ok <==> old(self).incoming().len() > 0,
            r is Err ==> *final(self) == *old(self),
    {
        if self.cursor < self.script.len() {
            let l = self.script[self.cursor].clone();
            self.cursor = self.cursor + 1;
            proof {
                let views = strs_view(self.script@);
                assert(views.skip(self.cursor - 1)[0] == views[self.cursor - 1]);
                assert(views.skip(self.cursor - 1).drop_first() =~= views.skip(
                    self.cursor as int,
                ));
            }
            Ok(l)
        } else {
            Err(Error::Connection(String::from_str("session closed")))
        }
    }
}

} // verus!
