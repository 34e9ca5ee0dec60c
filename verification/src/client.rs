//! The line-based request/response protocol client.
//!
//! A session exchanges text lines with the daemon: a command is one line;
//! a response is any number of data lines closed by a line that is exactly
//! `OK`, or cut short by a line beginning `ACK` that carries a diagnostic.
//! On connect the daemon speaks first, with a greeting line that must
//! begin with `OK`.

use vstd::prelude::*;

use crate::error::Error;
use crate::text::{has_prefix, str_eq, str_has_prefix, strs_view};
use crate::transport::Transport;

verus! {

/// A line that ends a response normally.
pub open spec fn is_terminator(l: Seq<char>) -> bool {
    l == "OK"@
}

/// A line that reports command failure; the diagnostic follows the marker.
pub open spec fn is_ack(l: Seq<char>) -> bool {
    has_prefix(l, "ACK"@)
}

/// A line that ends a response, either way.
pub open spec fn stops(l: Seq<char>) -> bool {
    is_terminator(l) || is_ack(l)
}

/// Index of the first response-ending line; the length when there is none.
pub open spec fn stop_idx(lines: Seq<Seq<char>>) -> int
    decreases lines.len(),
{
    if lines.len() == 0 {
        0
    } else if stops(lines[0]) {
        0
    } else {
        1 + stop_idx(lines.drop_first())
    }
}

/// `stop_idx` is in range, lands on a stopping line when one exists, and
/// nothing before it stops the response.
pub proof fn lemma_stop_idx(lines: Seq<Seq<char>>)
    ensures
        0 <= stop_idx(lines) <= lines.len(),
        stop_idx(lines) < lines.len() ==> stops(lines[stop_idx(lines)]),
        forall|j: int| 0 <= j < stop_idx(lines) ==> !stops(lines[j]),
    decreases lines.len(),
{
    if lines.len() == 0 {
    } else if stops(lines[0]) {
    } else {
        lemma_stop_idx(lines.drop_first());
        let fi: int = stop_idx(lines.drop_first());
        assert(forall|j: int| 1 <= j < 1 + fi ==> lines[j] == lines.drop_first()[j - 1]);
    }
}

/// True when the two-character `": "` delimiter stands at `i` in `l`.
pub open spec fn is_delim_at(l: Seq<char>, i: int) -> bool {
    0 <= i && i + 2 <= l.len() && l[i] == ':' && l[i + 1] == ' '
}

/// Index of the first `": "` delimiter; the length when there is none.
pub open spec fn delim_idx(l: Seq<char>) -> int
    decreases l.len(),
{
    if l.len() == 0 {
        0
    } else if is_delim_at(l, 0) {
        0
    } else {
        1 + delim_idx(l.drop_first())
    }
}

/// `delim_idx` is in range, lands on a delimiter when one exists, and no
/// delimiter stands before it.
pub proof fn lemma_delim_idx(l: Seq<char>)
    ensures
        0 <= delim_idx(l) <= l.len(),
        delim_idx(l) < l.len() ==> is_delim_at(l, delim_idx(l)),
        forall|j: int| 0 <= j < delim_idx(l) ==> !is_delim_at(l, j),
    decreases l.len(),
{
    if l.len() == 0 {
    } else if is_delim_at(l, 0) {
    } else {
        lemma_delim_idx(l.drop_first());
        let fi: int = delim_idx(l.drop_first());
        assert(forall|j: int| 0 <= j < l.drop_first().len() ==> l.drop_first()[j] == l[j + 1]);
        assert forall|j: int| 0 <= j < 1 + fi implies !is_delim_at(l, j) by {
            if j > 0 {
                assert(!is_delim_at(l.drop_first(), j - 1));
            }
        }
        if fi < l.drop_first().len() {
            assert(is_delim_at(l.drop_first(), fi));
            assert(is_delim_at(l, fi + 1));
        }
    }
}

/// The key and value of a `key: value` response line, split at the first
/// `": "`; nothing when the line holds no delimiter.
pub open spec fn spec_kv_of(l: Seq<char>) -> Option<(Seq<char>, Seq<char>)> {
    let d: int = delim_idx(l);
    if d == l.len() {
        None
    } else {
        Some((l.take(d), l.skip(d + 2)))
    }
}

/// The key/value pairs of a whole response, in response order; nothing
/// when any line lacks the delimiter.
pub open spec fn spec_parse_kvs(lines: Seq<Seq<char>>) -> Option<Seq<(Seq<char>, Seq<char>)>>
    decreases lines.len(),
{
    if lines.len() == 0 {
        Some(Seq::empty())
    } else {
        match spec_kv_of(lines[0]) {
            None => None,
            Some(kv) => match spec_parse_kvs(lines.drop_first()) {
                None => None,
                Some(rest) => Some(seq![kv] + rest),
            },
        }
    }
}

/// The views of a sequence of string pairs.
pub open spec fn kvs_view(v: Seq<(String, String)>) -> Seq<(Seq<char>, Seq<char>)> {
    v.map_values(|p: (String, String)| (p.0@, p.1@))
}

/// Splits one `key: value` line at its first `": "`.
fn split_kv(line: &str) -> (r: Option<(String, String)>)
    ensures
        match r {
            Some(kv) => spec_kv_of(line@) == Some((kv.0@, kv.1@)),
            None => spec_kv_of(line@) is None,
        },
{
    proof {
        lemma_delim_idx(line@);
    }
    let len = line.unicode_len();
    let mut i: usize = 0;
    while i < len && i + 1 < len
        invariant
            len == line@.len(),
            i <= len,
            forall|j: int| 0 <= j < i ==> !is_delim_at(line@, j),
            0 <= delim_idx(line@) <= line@.len(),
            delim_idx(line@) < line@.len() ==> is_delim_at(line@, delim_idx(line@)),
            forall|j: int| 0 <= j < delim_idx(line@) ==> !is_delim_at(line@, j),
        decreases len - i,
    {
        if line.get_char(i) == ':' && line.get_char(i + 1) == ' ' {
            proof {
                assert(is_delim_at(line@, i as int));
                assert(delim_idx(line@) == i);
            }
            let key = line.substring_char(0, i);
            let val = line.substring_char(i + 2, len);
            proof {
                assert(key@ =~= line@.take(i as int));
                assert(val@ =~= line@.skip(i as int + 2));
            }
            return Some((String::from_str(key), String::from_str(val)));
        }
        i = i + 1;
    }
    proof {
        assert forall|j: int| 0 <= j < line@.len() implies !is_delim_at(line@, j) by {
            if j + 2 <= line@.len() {
                assert(j < i);
            }
        }
        assert(delim_idx(line@) == line@.len());
    }
    None
}

/// One client session over a transport.
///
/// Requests and responses are strictly sequential: each command is written
/// and flushed whole, and its response is drained to its terminator (or
/// error) before the next command. Two sessions over two transports may
/// run concurrently; one session must not be shared.
pub struct MPDClient<T: Transport> {
    transport: T,
}

impl<T: Transport> MPDClient<T> {
    /// The lines the daemon will deliver to this session next.
    pub closed spec fn incoming(&self) -> Seq<Seq<char>> {
        self.transport.incoming()
    }

    /// The lines this session has sent, oldest first.
    pub closed spec fn outgoing(&self) -> Seq<Seq<char>> {
        self.transport.outgoing()
    }

    /// Wraps a transport as a client session. No greeting is read yet:
    /// see [`Self::connect`].
    pub fn new(transport: T) -> (r: Self)
        ensures
            r.incoming() == transport.incoming(),
            r.outgoing() == transport.outgoing(),
    {
        MPDClient { transport }
    }

    /// Gives the transport back, ending the session.
    pub fn into_transport(self) -> (r: T)
        ensures
            r.incoming() == self.incoming(),
            r.outgoing() == self.outgoing(),
    {
        self.transport
    }

    /// Reads the one-line session greeting, which must begin with `OK`.
    /// Anything else is a connection failure carrying the raw line, and
    /// nothing is ever sent before the greeting is accepted.
    pub fn connect(&mut self) -> (r: Result<(), Error>)
        ensures
            final(self).outgoing() == old(self).outgoing(),
            match r {
                Ok(()) => {
                    &&& old(self).incoming().len() > 0
                    &&& has_prefix(old(self).incoming()[0], "OK"@)
                    &&& final(self).incoming() == old(self).incoming().drop_first()
                },
                Err(e) => e is Connection,
            },
            old(self).incoming().len() > 0 && !has_prefix(old(self).incoming()[0], "OK"@)
                ==> r is Err,
    {
        match self.transport.read_line() {
            Ok(greeting) => {
                if str_has_prefix(greeting.as_str(), "OK") {
                    Ok(())
                } else {
                    Err(Error::Connection(greeting))
                }
            },
            Err(e) => Err(e),
        }
    }

    /// Sends one command line.
    pub fn run_command(&mut self, command: &str) -> (r: Result<(), Error>)
        requires
            forall|j: int| 0 <= j < command@.len() ==> command@[j] != '\n',
        ensures
            match r {
                Ok(()) => final(self).outgoing() == old(self).outgoing().push(command@)
                    && final(self).incoming() == old(self).incoming(),
                Err(e) => e is Connection,
            },
    {
        self.transport.write_line(command)
    }

    /// Reads lines up to and including the response terminator, returning
    /// the data lines. A line beginning `ACK` fails the command with the
    /// diagnostic that follows the marker; a transport failure is a
    /// connection error. Nothing is ever sent.
    pub fn read_until_ok(&mut self) -> (r: Result<Vec<String>, Error>)
        ensures
            final(self).outgoing() == old(self).outgoing(),
            match r {
                Ok(lines) => {
                    let k: int = stop_idx(old(self).incoming());
                    &&& k < old(self).incoming().len()
                    &&& is_terminator(old(self).incoming()[k])
                    &&& strs_view(lines@) == old(self).incoming().take(k)
                    &&& final(self).incoming() == old(self).incoming().skip(k + 1)
                },
                Err(e) => match e {
                    Error::ACK(msg) => {
                        let k: int = stop_idx(old(self).incoming());
                        &&& k < old(self).incoming().len()
                        &&& is_ack(old(self).incoming()[k])
                        &&& msg@ == old(self).incoming()[k].skip(3)
                        &&& final(self).incoming() == old(self).incoming().skip(k + 1)
                    },
                    Error::Connection(_) => true,
                    Error::InvalidData(_) => false,
                },
            },
    {
        let ghost inc0 = self.incoming();
        proof {
            lemma_stop_idx(inc0);
            assert(inc0.skip(0) =~= inc0);
            assert(strs_view(Seq::<String>::empty()) =~= Seq::<Seq<char>>::empty());
        }
        let mut buf: Vec<String> = Vec::new();
        loop
            invariant
                inc0 == old(self).incoming(),
                self.outgoing() == old(self).outgoing(),
                buf@.len() <= inc0.len(),
                strs_view(buf@) =~= inc0.take(buf@.len() as int),
                forall|j: int| 0 <= j < buf@.len() ==> !stops(#[trigger] inc0[j]),
                self.incoming() == inc0.skip(buf@.len() as int),
                0 <= stop_idx(inc0) <= inc0.len(),
                stop_idx(inc0) < inc0.len() ==> stops(inc0[stop_idx(inc0)]),
                forall|j: int| 0 <= j < stop_idx(inc0) ==> !stops(#[trigger] inc0[j]),
            decreases inc0.len() - buf@.len(),
        {
            let ghost seen = buf@.len() as int;
            match self.transport.read_line() {
                Err(e) => {
                    return Err(e);
                },
                Ok(line) => {
                    proof {
                        assert(inc0.skip(seen)[0] == inc0[seen]);
                        assert(inc0.skip(seen).drop_first() =~= inc0.skip(seen + 1));
                    }
                    if str_eq(line.as_str(), "OK") {
                        proof {
                            assert(stops(inc0[seen]));
                            assert(stop_idx(inc0) == seen);
                            assert(strs_view(buf@) == inc0.take(seen));
                            assert(self.incoming() == inc0.skip(seen + 1));
                        }
                        return Ok(buf);
                    }
                    if str_has_prefix(line.as_str(), "ACK") {
                        proof {
                            reveal_strlit("ACK");
                        }
                        let len = line.unicode_len();
                        let rest = line.substring_char(3, len);
                        proof {
                            assert(stops(inc0[seen]));
                            assert(stop_idx(inc0) == seen);
                            assert(rest@ =~= inc0[seen].skip(3));
                            assert(self.incoming() == inc0.skip(seen + 1));
                        }
                        return Err(Error::ACK(String::from_str(rest)));
                    }
                    let ghost buf_before = buf@;
                    buf.push(line);
                    proof {
                        crate::text::lemma_strs_view_push(buf_before, buf@.last());
                        assert(strs_view(buf@) =~= inc0.take(seen + 1));
                    }
                },
            }
        }
    }

    /// Sends `command` and reads its response as `key: value` pairs, in
    /// response order. A data line without the `": "` delimiter — which a
    /// conforming daemon never sends — is reported as invalid data rather
    /// than ending the process.
    pub fn get_command(&mut self, command: &str) -> (r: Result<Vec<(String, String)>, Error>)
        requires
            forall|j: int| 0 <= j < command@.len() ==> command@[j] != '\n',
        ensures
            match r {
                Ok(kvs) => {
                    let k: int = stop_idx(old(self).incoming());
                    &&& final(self).outgoing() == old(self).outgoing().push(command@)
                    &&& k < old(self).incoming().len()
                    &&& is_terminator(old(self).incoming()[k])
                    &&& spec_parse_kvs(old(self).incoming().take(k)) == Some(kvs_view(kvs@))
                    &&& final(self).incoming() == old(self).incoming().skip(k + 1)
                },
                Err(e) => match e {
                    Error::ACK(msg) => {
                        let k: int = stop_idx(old(self).incoming());
                        &&& final(self).outgoing() == old(self).outgoing().push(command@)
                        &&& k < old(self).incoming().len()
                        &&& is_ack(old(self).incoming()[k])
                        &&& msg@ == old(self).incoming()[k].skip(3)
                        &&& final(self).incoming() == old(self).incoming().skip(k + 1)
                    },
                    Error::Connection(_) => true,
                    Error::InvalidData(m) => {
                        let k: int = stop_idx(old(self).incoming());
                        &&& final(self).outgoing() == old(self).outgoing().push(command@)
                        &&& k < old(self).incoming().len()
                        &&& is_terminator(old(self).incoming()[k])
                        &&& spec_parse_kvs(old(self).incoming().take(k)) is None
                        &&& m@ == "response line is not in key: value form"@
                        &&& final(self).incoming() == old(self).incoming().skip(k + 1)
                    },
                },
            },
    {
        match self.run_command(command) {
            Ok(()) => {},
            Err(e) => {
                return Err(e);
            },
        }
        let lines = match self.read_until_ok() {
            Ok(lines) => lines,
            Err(e) => {
                return Err(e);
            },
        };
        let ghost lviews = strs_view(lines@);
        let mut kvs: Vec<(String, String)> = Vec::new();
        let mut i: usize = 0;
        proof {
            lemma_stop_idx(old(self).incoming());
            let k: int = stop_idx(old(self).incoming());
            assert(self.outgoing() == old(self).outgoing().push(command@));
            assert(0 <= k < old(self).incoming().len());
            assert(is_terminator(old(self).incoming()[k]));
            assert(lviews == old(self).incoming().take(k));
            assert(self.incoming() == old(self).incoming().skip(k + 1));
            assert(lviews.skip(0) =~= lviews);
            assert(kvs_view(kvs@) =~= Seq::<(Seq<char>, Seq<char>)>::empty());
            if spec_parse_kvs(lviews) is Some {
                assert(kvs_view(kvs@) + spec_parse_kvs(lviews)->Some_0 =~= spec_parse_kvs(
                    lviews,
                )->Some_0);
            }
        }
        while i < lines.len()
            invariant
                ({
                    let k: int = stop_idx(old(self).incoming());
                    &&& self.outgoing() == old(self).outgoing().push(command@)
                    &&& 0 <= k < old(self).incoming().len()
                    &&& is_terminator(old(self).incoming()[k])
                    &&& lviews == old(self).incoming().take(k)
                    &&& self.incoming() == old(self).incoming().skip(k + 1)
                }),
                i <= lines@.len(),
                lviews == strs_view(lines@),
                lviews.len() == lines@.len(),
                spec_parse_kvs(lviews) == match spec_parse_kvs(lviews.skip(i as int)) {
                    None => None::<Seq<(Seq<char>, Seq<char>)>>,
                    Some(rest) => Some(kvs_view(kvs@) + rest),
                },
            decreases lines@.len() - i,
        {
            let ghost tail = lviews.skip(i as int);
            proof {
                assert(tail[0] == lviews[i as int]);
                assert(lviews[i as int] == lines@[i as int]@);
                assert(tail.drop_first() =~= lviews.skip(i as int + 1));
            }
            match split_kv(lines[i].as_str()) {
                None => {
                    proof {
                        assert(spec_parse_kvs(tail) is None);
                    }
                    return Err(Error::InvalidData("response line is not in key: value form"));
                },
                Some(kv) => {
                    let ghost kvs_before = kvs@;
                    kvs.push(kv);
                    i = i + 1;
                    proof {
                        assert(kvs_view(kvs@) =~= kvs_view(kvs_before).push((kv.0@, kv.1@)));
                        let head = spec_kv_of(tail[0])->Some_0;
                        match spec_parse_kvs(lviews.skip(i as int)) {
                            None => {
                                assert(spec_parse_kvs(tail) is None);
                            },
                            Some(rest) => {
                                assert(spec_parse_kvs(tail) == Some(seq![head] + rest));
                                assert(kvs_view(kvs_before) + (seq![head] + rest) =~= kvs_view(
                                    kvs@,
                                ) + rest);
                            },
                        }
                    }
                },
            }
        }
        proof {
            assert(lviews.skip(lines@.len() as int) =~= Seq::<Seq<char>>::empty());
            assert(spec_parse_kvs(Seq::<Seq<char>>::empty()) == Some(
                Seq::<(Seq<char>, Seq<char>)>::empty(),
            ));
            assert(kvs_view(kvs@) + Seq::<(Seq<char>, Seq<char>)>::empty() =~= kvs_view(kvs@));
        }
        Ok(kvs)
    }

    /// Drains one response, discarding its data lines.
    pub fn flush(&mut self) -> (r: Result<(), Error>)
        ensures
            final(self).outgoing() == old(self).outgoing(),
            match r {
                Ok(()) => {
                    let k: int = stop_idx(old(self).incoming());
                    &&& k < old(self).incoming().len()
                    &&& is_terminator(old(self).incoming()[k])
                    &&& final(self).incoming() == old(self).incoming().skip(k + 1)
                },
                Err(e) => match e {
                    Error::ACK(msg) => {
                        let k: int = stop_idx(old(self).incoming());
                        &&& k < old(self).incoming().len()
                        &&& is_ack(old(self).incoming()[k])
                        &&& msg@ == old(self).incoming()[k].skip(3)
                        &&& final(self).incoming() == old(self).incoming().skip(k + 1)
                    },
                    Error::Connection(_) => true,
                    Error::InvalidData(_) => false,
                },
            },
    {
        match self.read_until_ok() {
            Ok(_) => Ok(()),
            Err(e) => Err(e),
        }
    }

    /// Issues `idle player`: blocks until the daemon reports a change in
    /// the player subsystem, whose notification lines are discarded.
    pub fn idle_player(&mut self) -> (r: Result<(), Error>)
        ensures
            match r {
                Ok(()) => {
                    let k: int = stop_idx(old(self).incoming());
                    &&& final(self).outgoing() == old(self).outgoing().push("idle player"@)
                    &&& k < old(self).incoming().len()
                    &&& is_terminator(old(self).incoming()[k])
                    &&& final(self).incoming() == old(self).incoming().skip(k + 1)
                },
                Err(e) => match e {
                    Error::ACK(msg) => {
                        let k: int = stop_idx(old(self).incoming());
                        &&& final(self).outgoing() == old(self).outgoing().push("idle player"@)
                        &&& k < old(self).incoming().len()
                        &&& is_ack(old(self).incoming()[k])
                        &&& msg@ == old(self).incoming()[k].skip(3)
                        &&& final(self).incoming() == old(self).incoming().skip(k + 1)
                    },
                    Error::Connection(_) => true,
                    Error::InvalidData(_) => false,
                },
            },
    {
        proof {
            reveal_strlit("idle player");
        }
        match self.run_command("idle player") {
            Ok(()) => {},
            Err(e) => {
                return Err(e);
            },
        }
        self.flush()
    }
}

} // verus!
