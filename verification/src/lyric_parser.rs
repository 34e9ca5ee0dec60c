//! Timestamped lyric tracks and the `.lrc` text format.
//!
//! A track is an ordered sequence of `(timestamp, text)` pairs. Timestamps
//! are whole milliseconds; the file format writes them as colon-separated
//! units read least-significant-first (`HH:MM:SS.mmm`), and rendering
//! followed by reparsing is proved to give the original track back.

use vstd::prelude::*;

use crate::text::{
    digits_val, first_idx_of, fmt_u64_pad, frac_millis, is_digit, lemma_digits_exclude,
    lemma_first_idx_absent, lemma_first_idx_concat, lemma_first_idx_of, lemma_fmt_nat,
    lemma_fmt_nat_len, lemma_pow10_small, lemma_split_on_concat, lemma_zero_pad,
    parse_millis, push_char, spec_fmt_nat, spec_parse_millis, split_on, split_on_char,
    strs_view, zero_pad,
};

verus! {

/// One lyric line: the moment it becomes current, and its text.
#[derive(Debug)]
pub struct Lyric {
    /// Time from the start of the song, in whole milliseconds.
    pub min_millis: u64,
    /// The display text.
    pub lyric: String,
}

// ---------------------------------------------------------------------------
// Timestamp rendering
// ---------------------------------------------------------------------------

/// The timestamp `ms` rendered as `HH:MM:SS.mmm` (hours may take more than
/// two digits for very long inputs, as may happen with unchecked files).
pub open spec fn spec_timestr(ms: u64) -> Seq<char> {
    let h: int = ms as int / 3600000;
    let r1: int = ms as int % 3600000;
    let m: int = r1 / 60000;
    let r2: int = r1 % 60000;
    let s: int = r2 / 1000;
    let f: int = r2 % 1000;
    zero_pad(spec_fmt_nat(h as nat), 2) + seq![':'] + zero_pad(spec_fmt_nat(m as nat), 2)
        + seq![':'] + zero_pad(spec_fmt_nat(s as nat), 2) + seq!['.'] + zero_pad(
        spec_fmt_nat(f as nat),
        3,
    )
}

/// Renders a millisecond count in the `HH:MM:SS.mmm` timestamp form.
pub fn millis_to_timestr(ms: u64) -> (r: String)
    ensures
        r@ == spec_timestr(ms),
{
    let h: u64 = ms / 3600000;
    let r1: u64 = ms % 3600000;
    let m: u64 = r1 / 60000;
    let r2: u64 = r1 % 60000;
    let s: u64 = r2 / 1000;
    let f: u64 = r2 % 1000;
    let mut out = fmt_u64_pad(h, 2);
    push_char(&mut out, ':');
    out.append(fmt_u64_pad(m, 2).as_str());
    push_char(&mut out, ':');
    out.append(fmt_u64_pad(s, 2).as_str());
    push_char(&mut out, '.');
    out.append(fmt_u64_pad(f, 3).as_str());
    proof {
        assert(out@ =~= spec_timestr(ms));
    }
    out
}

// ---------------------------------------------------------------------------
// Timestamp parsing
// ---------------------------------------------------------------------------

/// Folds timestamp components into milliseconds, least significant last:
/// each component is a decimal-seconds string, worth sixty times the weight
/// of the one to its right. `None` when a component is malformed or any
/// intermediate value leaves `u64`.
pub open spec fn spec_combine_comps(comps: Seq<Seq<char>>, weight: u64) -> Option<u64>
    decreases comps.len(),
{
    if comps.len() == 0 {
        Some(0)
    } else {
        match spec_parse_millis(comps.last()) {
            None => None,
            Some(v) => {
                if v * weight > u64::MAX {
                    None
                } else if comps.len() == 1 {
                    Some((v * weight) as u64)
                } else if weight * 60 > u64::MAX {
                    None
                } else {
                    match spec_combine_comps(comps.drop_last(), (weight * 60) as u64) {
                        None => None,
                        Some(acc) => {
                            if acc + v * weight > u64::MAX {
                                None
                            } else {
                                Some((acc + v * weight) as u64)
                            }
                        },
                    }
                }
            },
        }
    }
}

/// The value of a whole `HH:MM:SS.mmm`-style timestamp string, in
/// milliseconds. Any number of colon-separated units is accepted, read
/// least-significant-first.
pub open spec fn spec_parse_timestr(s: Seq<char>) -> Option<u64> {
    spec_combine_comps(split_on(s, ':'), 1)
}

/// Folds the first `end` parsed components, mirroring `spec_combine_comps`.
fn combine_comps(comps: &Vec<String>, end: usize, weight: u64) -> (r: Option<u64>)
    requires
        end <= comps@.len(),
    ensures
        r == spec_combine_comps(strs_view(comps@).take(end as int), weight),
    decreases end,
{
    let ghost taken = strs_view(comps@).take(end as int);
    if end == 0 {
        proof {
            assert(taken =~= Seq::<Seq<char>>::empty());
        }
        Some(0)
    } else {
        proof {
            assert(taken.last() == comps@[end - 1]@);
            assert(taken.drop_last() =~= strs_view(comps@).take(end - 1));
        }
        let v = match parse_millis(comps[end - 1].as_str()) {
            Some(v) => v,
            None => {
                return None;
            },
        };
        let term = match v.checked_mul(weight) {
            Some(t) => t,
            None => {
                return None;
            },
        };
        if end == 1 {
            Some(term)
        } else {
            let w2 = match weight.checked_mul(60) {
                Some(w) => w,
                None => {
                    return None;
                },
            };
            match combine_comps(comps, end - 1, w2) {
                Some(acc) => {
                    match acc.checked_add(term) {
                        Some(total) => Some(total),
                        None => None,
                    }
                },
                None => None,
            }
        }
    }
}

/// Parses a colon-separated timestamp into milliseconds.
pub fn timestr_to_millis(s: &str) -> (r: Option<u64>)
    ensures
        r == spec_parse_timestr(s@),
{
    let comps = split_on_char(s, ':');
    let len = comps.len();
    proof {
        assert(strs_view(comps@).take(len as int) =~= strs_view(comps@));
    }
    combine_comps(&comps, len, 1)
}

// ---------------------------------------------------------------------------
// Timestamp round trip
// ---------------------------------------------------------------------------

/// A zero-padded plain number component parses back to its value in
/// milliseconds.
proof fn lemma_parse_plain_comp(n: nat, w: nat)
    requires
        n * 1000 <= u64::MAX,
        n <= u64::MAX,
    ensures
        spec_parse_millis(zero_pad(spec_fmt_nat(n), w)) == Some((n * 1000) as u64),
{
    lemma_fmt_nat(n);
    lemma_zero_pad(spec_fmt_nat(n), w);
    let p = zero_pad(spec_fmt_nat(n), w);
    lemma_digits_exclude(p);
    lemma_first_idx_absent(p, '.');
}

/// The padded `SS.mmm` component parses back to its value in milliseconds.
proof fn lemma_parse_sec_frac(s: nat, f: nat)
    requires
        s < 100,
        f < 1000,
    ensures
        ({
            let comp = zero_pad(spec_fmt_nat(s), 2) + seq!['.'] + zero_pad(spec_fmt_nat(f), 3);
            spec_parse_millis(comp) == Some((s * 1000 + f) as u64)
        }),
{
    lemma_pow10_small();
    lemma_fmt_nat(s);
    lemma_fmt_nat(f);
    lemma_fmt_nat_len(s, 2);
    lemma_fmt_nat_len(f, 3);
    lemma_zero_pad(spec_fmt_nat(s), 2);
    lemma_zero_pad(spec_fmt_nat(f), 3);
    let ip = zero_pad(spec_fmt_nat(s), 2);
    let fp = zero_pad(spec_fmt_nat(f), 3);
    assert(ip.len() == 2);
    assert(fp.len() == 3);
    let comp = ip + seq!['.'] + fp;
    lemma_digits_exclude(ip);
    lemma_first_idx_concat(ip, fp, '.');
    assert(first_idx_of(comp, '.') == 2);
    assert(comp.take(2) =~= ip);
    assert(comp.skip(3) =~= fp);
    assert(fp.take(3) =~= fp);
    assert(frac_millis(fp) == digits_val(fp));
    assert(digits_val(ip) * 1000 + frac_millis(fp) == s * 1000 + f);
}

/// Rendering a timestamp and parsing it back gives the original
/// millisecond count.
pub proof fn lemma_timestr_round_trip(ms: u64)
    ensures
        spec_parse_timestr(spec_timestr(ms)) == Some(ms),
{
    let h: int = ms as int / 3600000;
    let r1: int = ms as int % 3600000;
    let m: int = r1 / 60000;
    let r2: int = r1 % 60000;
    let s: int = r2 / 1000;
    let f: int = r2 % 1000;
    assert(ms as int == 3600000 * h + r1 && 0 <= r1 < 3600000);
    assert(r1 == 60000 * m + r2 && 0 <= r2 < 60000);
    assert(r2 == 1000 * s + f && 0 <= f < 1000);
    assert(0 <= m < 60);
    assert(0 <= s < 60);
    assert(0 <= h);

    let pa = zero_pad(spec_fmt_nat(h as nat), 2);
    let pb = zero_pad(spec_fmt_nat(m as nat), 2);
    let ps = zero_pad(spec_fmt_nat(s as nat), 2);
    let pf = zero_pad(spec_fmt_nat(f as nat), 3);
    let pc = ps + seq!['.'] + pf;

    lemma_fmt_nat(h as nat);
    lemma_fmt_nat(m as nat);
    lemma_fmt_nat(s as nat);
    lemma_fmt_nat(f as nat);
    lemma_zero_pad(spec_fmt_nat(h as nat), 2);
    lemma_zero_pad(spec_fmt_nat(m as nat), 2);
    lemma_zero_pad(spec_fmt_nat(s as nat), 2);
    lemma_zero_pad(spec_fmt_nat(f as nat), 3);
    lemma_digits_exclude(pa);
    lemma_digits_exclude(pb);
    lemma_digits_exclude(ps);
    lemma_digits_exclude(pf);

    // The rendering splits on ':' into exactly the three components.
    let t = spec_timestr(ms);
    assert(t =~= pa + seq![':'] + (pb + seq![':'] + pc));
    assert(forall|j: int| 0 <= j < pc.len() ==> (#[trigger] pc[j]) != ':');
    lemma_split_on_concat(pa, pb + seq![':'] + pc, ':');
    lemma_split_on_concat(pb, pc, ':');
    lemma_first_idx_absent(pc, ':');
    assert(split_on(pc, ':') =~= seq![pc]);
    let comps = split_on(t, ':');
    assert(comps =~= seq![pa, pb, pc]);

    // Parse each component.
    lemma_parse_sec_frac(s as nat, f as nat);
    lemma_parse_plain_comp(m as nat, 2);
    assert(h * 3600000 <= ms as int);
    assert(h * 1000 <= h * 3600000);
    lemma_parse_plain_comp(h as nat, 2);

    // Fold the three components back together.
    let vc: int = s * 1000 + f;
    let vb: int = m * 1000;
    let va: int = h * 1000;
    assert(comps.last() == pc);
    assert(comps.drop_last() =~= seq![pa, pb]);
    assert(seq![pa, pb].last() == pb);
    assert(seq![pa, pb].drop_last() =~= seq![pa]);
    assert(seq![pa].last() == pa);
    assert(seq![pa].drop_last() =~= Seq::<Seq<char>>::empty());

    assert(spec_combine_comps(seq![pa], 3600) == Some((va * 3600) as u64)) by {
        assert(va * 3600 == h * 3600000);
        assert(seq![pa].len() == 1);
    }
    assert(spec_combine_comps(seq![pa, pb], 60) == Some((h * 3600000 + m * 60000) as u64)) by {
        assert(vb * 60 == m * 60000);
        assert(m * 60000 <= r1);
        assert(h * 3600000 + m * 60000 <= ms as int);
    }
    assert(spec_combine_comps(seq![pa, pb, pc], 1) == Some(ms)) by {
        assert(vc * 1 == vc);
        assert(h * 3600000 + m * 60000 + s * 1000 + f == ms as int);
    }
}

// ---------------------------------------------------------------------------
// The track
// ---------------------------------------------------------------------------

/// The `(timestamp, text)` pairs of a sequence of lyrics.
pub open spec fn lyrics_pairs(v: Seq<Lyric>) -> Seq<(u64, Seq<char>)> {
    v.map_values(|l: Lyric| (l.min_millis, l.lyric@))
}

/// The streaming text for a lyric whose identical text has now been seen
/// `n` times in a row: the text itself, or `text (n)` from the second
/// repetition on.
pub open spec fn decorate(text: Seq<char>, n: nat) -> Seq<char> {
    if n <= 1 {
        text
    } else {
        text + seq![' ', '('] + spec_fmt_nat(n) + seq![')']
    }
}

/// The repeat counter after one more entry with raw text `raw`: one more
/// than before when the text repeats the previous entry, else back to one.
pub open spec fn rep_step(prev: Option<Seq<char>>, rep: nat, raw: Seq<char>) -> nat {
    if prev == Some(raw) {
        rep + 1
    } else {
        1
    }
}

/// The `(previous text, repeat counter)` state after consuming the entries
/// `xs` in order.
pub open spec fn rep_chain(
    prev: Option<Seq<char>>,
    rep: nat,
    xs: Seq<(u64, Seq<char>)>,
) -> (Option<Seq<char>>, nat)
    decreases xs.len(),
{
    if xs.len() == 0 {
        (prev, rep)
    } else {
        rep_chain(Some(xs[0].1), rep_step(prev, rep, xs[0].1), xs.drop_first())
    }
}

/// Consuming one more entry after a run applies one `rep_step`.
pub proof fn lemma_rep_chain_push(
    prev: Option<Seq<char>>,
    rep: nat,
    xs: Seq<(u64, Seq<char>)>,
    x: (u64, Seq<char>),
)
    ensures
        rep_chain(prev, rep, xs.push(x)) == (
            Some(x.1),
            rep_step(rep_chain(prev, rep, xs).0, rep_chain(prev, rep, xs).1, x.1),
        ),
    decreases xs.len(),
{
    if xs.len() == 0 {
        assert(xs.push(x)[0] == x);
        assert(xs.push(x).drop_first() =~= Seq::<(u64, Seq<char>)>::empty());
        assert(rep_chain(prev, rep, xs) == (prev, rep));
        assert(rep_chain(prev, rep, xs.push(x)) == rep_chain(
            Some(x.1),
            rep_step(prev, rep, x.1),
            xs.push(x).drop_first(),
        ));
        assert(rep_chain(Some(x.1), rep_step(prev, rep, x.1), xs.push(x).drop_first()) == (
            Some(x.1),
            rep_step(prev, rep, x.1),
        ));
    } else {
        assert(xs.push(x)[0] == xs[0]);
        assert(xs.push(x).drop_first() =~= xs.drop_first().push(x));
        assert(rep_chain(prev, rep, xs.push(x)) == rep_chain(
            Some(xs[0].1),
            rep_step(prev, rep, xs[0].1),
            xs.drop_first().push(x),
        ));
        assert(rep_chain(prev, rep, xs) == rep_chain(
            Some(xs[0].1),
            rep_step(prev, rep, xs[0].1),
            xs.drop_first(),
        ));
        lemma_rep_chain_push(Some(xs[0].1), rep_step(prev, rep, xs[0].1), xs.drop_first(), x);
    }
}

/// Where a forward scan from `from` first meets an entry not yet due at
/// `t` (or the end): the cursor position after consuming every entry the
/// scan finds already due.
pub open spec fn due_boundary(entries: Seq<(u64, Seq<char>)>, from: int, t: u64) -> int
    decreases entries.len() - from,
{
    if from < 0 || from >= entries.len() {
        from
    } else if entries[from].0 > t {
        from
    } else {
        due_boundary(entries, from + 1, t)
    }
}

/// A scan that consumed exactly the due entries `[c0, c1)` and stopped
/// properly ended at the due boundary.
pub proof fn lemma_due_boundary_char(entries: Seq<(u64, Seq<char>)>, c0: int, c1: int, t: u64)
    requires
        0 <= c0 <= c1 <= entries.len(),
        forall|i: int| c0 <= i < c1 ==> (#[trigger] entries[i]).0 <= t,
        c1 == entries.len() || entries[c1].0 > t,
    ensures
        due_boundary(entries, c0, t) == c1,
    decreases c1 - c0,
{
    if c0 < c1 {
        assert(entries[c0].0 <= t);
        lemma_due_boundary_char(entries, c0 + 1, c1, t);
    }
}

/// An ordered lyric track with a single forward cursor.
///
/// The track is consumed front to back: once the cursor has passed an
/// entry, that entry is gone, which is what the streaming engine wants — it
/// never rewinds within a song. Identical consecutive texts are counted and
/// the repeated occurrences are decorated with their running count.
///
/// Ascending timestamp order is not enforced here: the loader keeps file
/// order, which a well-formed file has non-decreasing. Query results are
/// only characterised as "latest due entry" under that assumption (see
/// [`Self::get_lyric_for_time`]).
#[derive(Debug)]
pub struct Lyrics {
    data: Vec<Lyric>,
    pos: usize,
    previous: Option<String>,
    repeat_count: usize,
}

impl Lyrics {
    /// Every entry of the track, consumed and remaining alike.
    pub closed spec fn entries(&self) -> Seq<(u64, Seq<char>)> {
        lyrics_pairs(self.data@)
    }

    /// How many entries the cursor has consumed.
    pub closed spec fn cursor(&self) -> int {
        self.pos as int
    }

    /// The raw text of the last consumed entry, if any.
    pub closed spec fn prev_text(&self) -> Option<Seq<char>> {
        match self.previous {
            Some(ref p) => Some(p@),
            None => None,
        }
    }

    /// How many times the last consumed text has been seen in a row.
    pub closed spec fn repeat(&self) -> nat {
        self.repeat_count as nat
    }

    /// The entries still ahead of the cursor.
    pub open spec fn remaining(&self) -> Seq<(u64, Seq<char>)> {
        self.entries().skip(self.cursor())
    }

    /// Internal consistency: the cursor is in range and the repeat counter
    /// counts consumed entries.
    pub closed spec fn wf(&self) -> bool {
        &&& self.pos <= self.data@.len()
        &&& 1 <= self.repeat_count
        &&& (self.previous is None ==> self.repeat_count == 1)
        &&& (self.previous is Some ==> self.repeat_count <= self.pos)
    }

    /// Timestamps never decrease along the track.
    pub open spec fn sorted(&self) -> bool {
        forall|i: int, j: int|
            0 <= i < j < self.entries().len() ==> (#[trigger] self.entries()[i]).0
                <= (#[trigger] self.entries()[j]).0
    }

    /// The cursor always sits within the track.
    pub proof fn lemma_cursor_in_range(&self)
        requires
            self.wf(),
        ensures
            0 <= self.cursor() <= self.entries().len(),
    {
    }

    /// Wraps already-parsed lyric data as a fresh track.
    pub fn load_from_data(data: Vec<Lyric>) -> (r: Lyrics)
        ensures
            r.wf(),
            r.entries() == lyrics_pairs(data@),
            r.cursor() == 0,
            r.prev_text() is None,
            r.repeat() == 1,
    {
        Lyrics { data, pos: 0, previous: None, repeat_count: 1 }
    }

    /// Consumes and returns the next entry, its text decorated with the
    /// running repeat count.
    pub fn next(&mut self) -> (r: Option<Lyric>)
        requires
            old(self).wf(),
        ensures
            final(self).wf(),
            final(self).entries() == old(self).entries(),
            match r {
                Some(l) => {
                    &&& old(self).cursor() < old(self).entries().len()
                    &&& final(self).cursor() == old(self).cursor() + 1
                    &&& l.min_millis == old(self).entries()[old(self).cursor()].0
                    &&& final(self).repeat() == rep_step(
                        old(self).prev_text(),
                        old(self).repeat(),
                        old(self).entries()[old(self).cursor()].1,
                    )
                    &&& final(self).prev_text() == Some(
                        old(self).entries()[old(self).cursor()].1,
                    )
                    &&& l.lyric@ == decorate(
                        old(self).entries()[old(self).cursor()].1,
                        final(self).repeat(),
                    )
                },
                None => {
                    &&& old(self).cursor() == old(self).entries().len()
                    &&& *final(self) == *old(self)
                },
            },
    {
        if self.pos < self.data.len() {
            let entry_min = self.data[self.pos].min_millis;
            let raw = self.data[self.pos].lyric.clone();
            let same = match &self.previous {
                Some(p) => crate::text::str_eq(p.as_str(), raw.as_str()),
                None => false,
            };
            if same {
                self.repeat_count = self.repeat_count + 1;
            } else {
                self.repeat_count = 1;
            }
            self.previous = Some(raw.clone());
            self.pos = self.pos + 1;
            let text = if self.repeat_count == 1 {
                raw
            } else {
                let mut t = raw;
                push_char(&mut t, ' ');
                push_char(&mut t, '(');
                t.append(crate::text::fmt_u64(self.repeat_count as u64).as_str());
                push_char(&mut t, ')');
                proof {
                    assert(t@ =~= decorate(
                        old(self).entries()[old(self).cursor()].1,
                        self.repeat_count as nat,
                    ));
                }
                t
            };
            Some(Lyric { min_millis: entry_min, lyric: text })
        } else {
            None
        }
    }

    /// Consumes every remaining entry already due at `time_millis` — that
    /// is, scans forward while the next entry's timestamp is at most
    /// `time_millis` — and returns the last one consumed, decorated.
    ///
    /// On a track whose remaining entries are sorted ascending this is
    /// exactly "the entry with the greatest timestamp at most
    /// `time_millis`", or nothing when `time_millis` precedes every
    /// remaining entry.
    pub fn get_lyric_for_time(&mut self, time_millis: u64) -> (r: Option<Lyric>)
        requires
            old(self).wf(),
        ensures
            final(self).wf(),
            final(self).entries() == old(self).entries(),
            old(self).cursor() <= final(self).cursor() <= final(self).entries().len(),
            // every consumed entry was due
            forall|i: int|
                old(self).cursor() <= i < final(self).cursor()
                    ==> (#[trigger] final(self).entries()[i]).0 <= time_millis,
            // the scan stopped at the end or at the first entry not yet due
            final(self).cursor() == final(self).entries().len()
                || final(self).entries()[final(self).cursor()].0 > time_millis,
            // the repeat state advanced over exactly the consumed entries
            (final(self).prev_text(), final(self).repeat()) == rep_chain(
                old(self).prev_text(),
                old(self).repeat(),
                old(self).entries().subrange(old(self).cursor(), final(self).cursor()),
            ),
            match r {
                Some(l) => {
                    &&& final(self).cursor() > old(self).cursor()
                    &&& l.min_millis == final(self).entries()[final(self).cursor() - 1].0
                    &&& final(self).prev_text() == Some(
                        final(self).entries()[final(self).cursor() - 1].1,
                    )
                    &&& l.lyric@ == decorate(
                        final(self).entries()[final(self).cursor() - 1].1,
                        final(self).repeat(),
                    )
                },
                None => {
                    &&& final(self).cursor() == old(self).cursor()
                    &&& *final(self) == *old(self)
                },
            },
            // on a sorted track the due entries are exactly the consumed ones
            old(self).sorted() ==> forall|i: int|
                old(self).cursor() <= i < final(self).entries().len()
                    ==> ((#[trigger] final(self).entries()[i]).0 <= time_millis
                    <==> i < final(self).cursor()),
            // so on a sorted track the result is the remaining entry with
            // the greatest timestamp at most `time_millis` ...
            old(self).sorted() && r is Some ==> r->0.min_millis <= time_millis
                && (forall|i: int|
                old(self).cursor() <= i < final(self).entries().len()
                    && (#[trigger] final(self).entries()[i]).0 <= time_millis
                    ==> final(self).entries()[i].0 <= r->0.min_millis),
            // ... and there is none when `time_millis` precedes every
            // remaining entry
            old(self).sorted() ==> ((r is None) <==> (old(self).cursor()
                == old(self).entries().len()
                || old(self).entries()[old(self).cursor()].0 > time_millis)),
    {
        let ghost c0 = self.cursor();
        let ghost prev0 = self.prev_text();
        let ghost rep0 = self.repeat();
        let ghost entries0 = self.entries();
        let mut last: Option<Lyric> = None;
        proof {
            assert(entries0.subrange(c0, c0) =~= Seq::<(u64, Seq<char>)>::empty());
        }
        while self.pos < self.data.len() && self.data[self.pos].min_millis <= time_millis
            invariant
                self.wf(),
                self.entries() == entries0,
                0 <= c0 <= self.cursor() <= entries0.len(),
                forall|i: int|
                    c0 <= i < self.cursor() ==> (#[trigger] entries0[i]).0 <= time_millis,
                (self.prev_text(), self.repeat()) == rep_chain(
                    prev0,
                    rep0,
                    entries0.subrange(c0, self.cursor()),
                ),
                match last {
                    Some(l) => {
                        &&& self.cursor() > c0
                        &&& l.min_millis == entries0[self.cursor() - 1].0
                        &&& self.prev_text() == Some(entries0[self.cursor() - 1].1)
                        &&& l.lyric@ == decorate(entries0[self.cursor() - 1].1, self.repeat())
                    },
                    None => {
                        &&& self.cursor() == c0
                        &&& self.prev_text() == prev0
                        &&& self.repeat() == rep0
                        &&& *self == *old(self)
                    },
                },
            decreases entries0.len() - self.cursor(),
        {
            let ghost c_before = self.cursor();
            let got = self.next();
            proof {
                assert(0 <= c0);
                assert(c0 <= c_before < entries0.len());
                let shorter = entries0.subrange(c0, c_before);
                let longer = entries0.subrange(c0, c_before + 1);
                assert(longer.len() == c_before + 1 - c0);
                assert forall|j: int| 0 <= j < longer.len() implies longer[j] == shorter.push(
                    entries0[c_before],
                )[j] by {
                    assert(longer[j] == entries0[c0 + j]);
                    if j < c_before - c0 {
                        assert(shorter[j] == entries0[c0 + j]);
                    }
                }
                assert(longer =~= shorter.push(entries0[c_before]));
                lemma_rep_chain_push(
                    prev0,
                    rep0,
                    entries0.subrange(c0, c_before),
                    entries0[c_before],
                );
            }
            last = got;
        }
        proof {
            if old(self).sorted() {
                assert forall|i: int|
                    c0 <= i < entries0.len() implies ((#[trigger] entries0[i]).0 <= time_millis
                    <==> i < self.cursor()) by {
                    if i >= self.cursor() {
                        if self.cursor() < entries0.len() {
                            assert(entries0[self.cursor()].0 > time_millis);
                            if i > self.cursor() {
                                assert(entries0[self.cursor()].0 <= entries0[i].0);
                            }
                        }
                    }
                }
            }
        }
        last
    }

    /// Renders the remaining entries in the `.lrc` file format, one
    /// `[HH:MM:SS.mmm]text` line per entry, each terminated by a newline.
    pub fn write(&self) -> (r: String)
        requires
            self.wf(),
        ensures
            r@ == spec_render(self.remaining()),
    {
        let mut out = String::new();
        let mut i: usize = self.pos;
        let ghost rem = self.remaining();
        proof {
        assert(out@ =~= Seq::<char>::empty());
        }
        while i < self.data.len()
            invariant
                self.wf(),
                self.cursor() <= i <= self.data@.len(),
                rem == self.remaining(),
                spec_render(rem) =~= out@ + spec_render(self.entries().skip(i as int)),
            decreases self.data@.len() - i,
        {
            let ghost before = out@;
            let entry = &self.data[i];
            push_char(&mut out, '[');
            out.append(millis_to_timestr(entry.min_millis).as_str());
            push_char(&mut out, ']');
            out.append(entry.lyric.as_str());
            push_char(&mut out, '\n');
            i = i + 1;
            proof {
                let tail = self.entries().skip(i - 1);
                assert(tail[0] == self.entries()[i - 1]);
                assert(tail.drop_first() =~= self.entries().skip(i as int));
                assert(out@ =~= before + (seq!['['] + spec_timestr(tail[0].0) + seq![']']
                    + tail[0].1 + seq!['\n']));
                assert(spec_render(tail) =~= seq!['['] + spec_timestr(tail[0].0) + seq![']']
                    + tail[0].1 + seq!['\n'] + spec_render(self.entries().skip(i as int)));
                assert(spec_render(rem) =~= out@ + spec_render(self.entries().skip(i as int)));
            }
        }
        proof {
            assert(self.entries().skip(self.data@.len() as int) =~= Seq::<(u64, Seq<char>)>::empty());
            assert(spec_render(rem) =~= out@);
        }
        out
    }
}

// ---------------------------------------------------------------------------
// Rendering and loading whole tracks
// ---------------------------------------------------------------------------

/// The `.lrc` text for a sequence of entries: one `[timestamp]text` line
/// per entry, each terminated by `'\n'`.
pub open spec fn spec_render(entries: Seq<(u64, Seq<char>)>) -> Seq<char>
    decreases entries.len(),
{
    if entries.len() == 0 {
        Seq::empty()
    } else {
        seq!['['] + spec_timestr(entries[0].0) + seq![']'] + entries[0].1 + seq!['\n']
            + spec_render(entries.drop_first())
    }
}

/// What one line of an `.lrc` file contributes: its timestamp and text, or
/// nothing when the line is not of the `[timestamp]text` form (or is blank
/// while blank lines are unwanted). A trailing carriage return is dropped
/// first.
pub open spec fn spec_parse_lrc_line(l: Seq<char>, blank: bool) -> Option<(u64, Seq<char>)> {
    let t = if l.len() > 0 && l.last() == '\r' {
        l.drop_last()
    } else {
        l
    };
    if t.len() == 0 || t[0] != '[' {
        None
    } else {
        let close: int = first_idx_of(t, ']');
        if close == t.len() {
            None
        } else {
            let ts = t.subrange(1, close);
            let text = t.skip(close + 1);
            if !blank && text.len() == 0 {
                None
            } else {
                match spec_parse_timestr(ts) {
                    Some(ms) => Some((ms, text)),
                    None => None,
                }
            }
        }
    }
}

/// The entries contributed by a sequence of lines, in order.
pub open spec fn spec_load_lines(lines: Seq<Seq<char>>, blank: bool) -> Seq<(u64, Seq<char>)>
    decreases lines.len(),
{
    if lines.len() == 0 {
        Seq::empty()
    } else {
        (match spec_parse_lrc_line(lines[0], blank) {
            Some(p) => seq![p],
            None => Seq::<(u64, Seq<char>)>::empty(),
        }) + spec_load_lines(lines.drop_first(), blank)
    }
}

/// The track described by a whole `.lrc` text: its lines split on `'\n'`,
/// each read by [`spec_parse_lrc_line`], malformed lines silently skipped.
pub open spec fn spec_load(content: Seq<char>, blank: bool) -> Seq<(u64, Seq<char>)> {
    spec_load_lines(split_on(content, '\n'), blank)
}

/// Parses one `.lrc` line.
fn parse_lrc_line(line: &str, blank_lines: bool) -> (r: Option<Lyric>)
    ensures
        match r {
            Some(l) => spec_parse_lrc_line(line@, blank_lines) == Some((l.min_millis, l.lyric@)),
            None => spec_parse_lrc_line(line@, blank_lines) is None,
        },
{
    let len = line.unicode_len();
    let t: &str = if len > 0 && line.get_char(len - 1) == '\r' {
        let shorter = line.substring_char(0, len - 1);
        proof {
            assert(shorter@ =~= line@.drop_last());
        }
        shorter
    } else {
        line
    };
    let tlen = t.unicode_len();
    if tlen == 0 {
        return None;
    }
    if t.get_char(0) != '[' {
        return None;
    }
    let close = match crate::text::find_char(t, ']') {
        Some(i) => i,
        None => {
            return None;
        },
    };
    proof {
        lemma_first_idx_of(t@, ']');
        assert(t@[close as int] == ']');
        assert(close != 0);
    }
    let ts = t.substring_char(1, close);
    let text = t.substring_char(close + 1, tlen);
    if !blank_lines && text.unicode_len() == 0 {
        return None;
    }
    proof {
        assert(ts@ =~= t@.subrange(1, close as int));
        assert(text@ =~= t@.skip(close as int + 1));
    }
    match timestr_to_millis(ts) {
        Some(ms) => Some(Lyric { min_millis: ms, lyric: String::from_str(text) }),
        None => None,
    }
}

/// Parses a whole `.lrc` text into a fresh track. Lines that do not parse
/// are silently skipped; blank lyric texts are kept only when
/// `blank_lines` is set.
pub fn load(contents: String, blank_lines: bool) -> (r: Lyrics)
    ensures
        r.wf(),
        r.entries() == spec_load(contents@, blank_lines),
        r.cursor() == 0,
        r.prev_text() is None,
        r.repeat() == 1,
{
    let lines = split_on_char(contents.as_str(), '\n');
    let ghost all_lines = strs_view(lines@);
    let mut data: Vec<Lyric> = Vec::new();
    let mut i: usize = 0;
    proof {
        assert(lyrics_pairs(data@) =~= Seq::<(u64, Seq<char>)>::empty());
        assert(all_lines.skip(0) =~= all_lines);
    }
    while i < lines.len()
        invariant
            i <= lines@.len(),
            all_lines == strs_view(lines@),
            all_lines.len() == lines@.len(),
            spec_load_lines(all_lines, blank_lines) =~= lyrics_pairs(data@) + spec_load_lines(
                all_lines.skip(i as int),
                blank_lines,
            ),
        decreases lines@.len() - i,
    {
        let ghost data_before = data@;
        let ghost tail = all_lines.skip(i as int);
        proof {
            assert(tail[0] == all_lines[i as int]);
            assert(all_lines[i as int] == lines@[i as int]@);
            assert(tail.drop_first() =~= all_lines.skip(i as int + 1));
        }
        match parse_lrc_line(lines[i].as_str(), blank_lines) {
            Some(l) => {
                data.push(l);
                proof {
                    assert(lyrics_pairs(data@) =~= lyrics_pairs(data_before).push(
                        (l.min_millis, l.lyric@),
                    ));
                }
            },
            None => {},
        }
        i = i + 1;
        proof {
            assert(spec_load_lines(all_lines, blank_lines) =~= lyrics_pairs(data@)
                + spec_load_lines(all_lines.skip(i as int), blank_lines));
        }
    }
    proof {
        assert(all_lines.skip(lines@.len() as int) =~= Seq::<Seq<char>>::empty());
        assert(spec_load_lines(all_lines, blank_lines) =~= lyrics_pairs(data@));
    }
    Lyrics { data, pos: 0, previous: None, repeat_count: 1 }
}

// ---------------------------------------------------------------------------
// Format round trip
// ---------------------------------------------------------------------------

/// A lyric text that can stand on one line of an `.lrc` file: free of line
/// terminators.
pub open spec fn text_line_safe(text: Seq<char>) -> bool {
    forall|j: int| 0 <= j < text.len() ==> (#[trigger] text[j]) != '\n' && text[j] != '\r'
}

/// Every character of a rendered timestamp is a digit, a colon or a dot.
proof fn lemma_timestr_chars(ms: u64)
    ensures
        forall|j: int|
            0 <= j < spec_timestr(ms).len() ==> (is_digit(#[trigger] spec_timestr(ms)[j])
                || spec_timestr(ms)[j] == ':' || spec_timestr(ms)[j] == '.'),
{
    let h: int = ms as int / 3600000;
    let r1: int = ms as int % 3600000;
    let m: int = r1 / 60000;
    let r2: int = r1 % 60000;
    let s: int = r2 / 1000;
    let f: int = r2 % 1000;
    let pa = zero_pad(spec_fmt_nat(h as nat), 2);
    let pb = zero_pad(spec_fmt_nat(m as nat), 2);
    let ps = zero_pad(spec_fmt_nat(s as nat), 2);
    let pf = zero_pad(spec_fmt_nat(f as nat), 3);
    lemma_fmt_nat(h as nat);
    lemma_fmt_nat(m as nat);
    lemma_fmt_nat(s as nat);
    lemma_fmt_nat(f as nat);
    lemma_zero_pad(spec_fmt_nat(h as nat), 2);
    lemma_zero_pad(spec_fmt_nat(m as nat), 2);
    lemma_zero_pad(spec_fmt_nat(s as nat), 2);
    lemma_zero_pad(spec_fmt_nat(f as nat), 3);
    let t = spec_timestr(ms);
    assert(t =~= pa + seq![':'] + pb + seq![':'] + ps + seq!['.'] + pf);
    let la: int = pa.len() as int;
    let lb: int = pb.len() as int;
    let ls: int = ps.len() as int;
    assert forall|j: int|
        0 <= j < t.len() implies (is_digit(#[trigger] t[j]) || t[j] == ':' || t[j] == '.') by {
        if j < la {
            assert(t[j] == pa[j]);
            assert(is_digit(pa[j]));
        } else if j == la {
            assert(t[j] == ':');
        } else if j < la + 1 + lb {
            assert(t[j] == pb[j - la - 1]);
            assert(is_digit(pb[j - la - 1]));
        } else if j == la + 1 + lb {
            assert(t[j] == ':');
        } else if j < la + 1 + lb + 1 + ls {
            assert(t[j] == ps[j - la - lb - 2]);
            assert(is_digit(ps[j - la - lb - 2]));
        } else if j == la + 1 + lb + 1 + ls {
            assert(t[j] == '.');
        } else {
            assert(t[j] == pf[j - la - lb - ls - 3]);
            assert(is_digit(pf[j - la - lb - ls - 3]));
        }
    }
}

/// Writing a track to the `.lrc` format and reloading it yields the same
/// sequence of `(timestamp, text)` pairs: the format loses nothing. The
/// texts must be single lines, and must be non-blank unless blank lines
/// are being kept.
pub proof fn lemma_lrc_round_trip(entries: Seq<(u64, Seq<char>)>, blank: bool)
    requires
        forall|i: int| 0 <= i < entries.len() ==> text_line_safe((#[trigger] entries[i]).1),
        blank || forall|i: int| 0 <= i < entries.len() ==> (#[trigger] entries[i]).1.len() > 0,
    ensures
        spec_load(spec_render(entries), blank) == entries,
    decreases entries.len(),
{
    if entries.len() == 0 {
        let empty_line = Seq::<char>::empty();
        assert(spec_render(entries) =~= empty_line);
        assert(first_idx_of(empty_line, '\n') == 0);
        assert(split_on(empty_line, '\n') =~= seq![empty_line]);
        assert(spec_parse_lrc_line(empty_line, blank) is None);
        assert(seq![empty_line].drop_first() =~= Seq::<Seq<char>>::empty());
        assert(seq![empty_line][0] == empty_line);
        assert(spec_load_lines(Seq::<Seq<char>>::empty(), blank) =~= Seq::<(
            u64,
            Seq<char>,
        )>::empty());
        assert(spec_load_lines(seq![empty_line], blank) =~= Seq::<(u64, Seq<char>)>::empty());
        assert(entries =~= Seq::<(u64, Seq<char>)>::empty());
        assert(spec_load(spec_render(entries), blank) =~= entries);
    } else {
        let e0 = entries[0];
        let rest = entries.drop_first();
        let ts = spec_timestr(e0.0);
        let head = seq!['['] + ts;
        let line0 = head + seq![']'] + e0.1;
        lemma_timestr_chars(e0.0);

        // the rendering is the first line, a newline, and the rest
        assert(spec_render(entries) =~= line0 + seq!['\n'] + spec_render(rest));

        // the first line holds no newline, so the split peels it off whole
        assert(text_line_safe(e0.1));
        assert forall|j: int| 0 <= j < line0.len() implies (#[trigger] line0[j]) != '\n' by {
            if j == 0 {
            } else if j < 1 + ts.len() {
                assert(line0[j] == ts[j - 1]);
            } else if j == 1 + ts.len() {
                assert(line0[j] == ']');
            } else {
                assert(line0[j] == e0.1[j - ts.len() - 2]);
            }
        }
        lemma_split_on_concat(line0, spec_render(rest), '\n');
        let lines = split_on(spec_render(entries), '\n');
        assert(lines =~= seq![line0] + split_on(spec_render(rest), '\n'));

        // the first line parses back to the first entry
        assert(line0.len() > 0);
        assert(line0.last() != '\r') by {
            if e0.1.len() > 0 {
                assert(line0.last() == e0.1.last());
            } else {
                assert(line0.last() == ']');
            }
        }
        assert(line0[0] == '[');
        assert forall|j: int| 0 <= j < head.len() implies (#[trigger] head[j]) != ']' by {
            if j > 0 {
                assert(head[j] == ts[j - 1]);
            }
        }
        assert(line0 =~= head + seq![']'] + e0.1);
        lemma_first_idx_concat(head, e0.1, ']');
        let close: int = first_idx_of(line0, ']');
        assert(close == 1 + ts.len());
        assert(line0.subrange(1, close) =~= ts);
        assert(line0.skip(close + 1) =~= e0.1);
        lemma_timestr_round_trip(e0.0);
        if !blank {
            assert(e0.1.len() > 0);
        }
        assert(spec_parse_lrc_line(line0, blank) == Some((e0.0, e0.1)));

        // the remaining lines parse back to the remaining entries
        assert forall|i: int| 0 <= i < rest.len() implies text_line_safe(
            (#[trigger] rest[i]).1,
        ) by {
            assert(rest[i] == entries[i + 1]);
        }
        if !blank {
            assert forall|i: int| 0 <= i < rest.len() implies (#[trigger] rest[i]).1.len() > 0 by {
                assert(rest[i] == entries[i + 1]);
            }
        }
        lemma_lrc_round_trip(rest, blank);

        assert(lines[0] == line0);
        assert(lines.drop_first() =~= split_on(spec_render(rest), '\n'));
        assert(e0 == (e0.0, e0.1));
        assert(spec_load(spec_render(entries), blank) =~= seq![e0] + rest);
        assert(seq![e0] + rest =~= entries);
    }
}

} // verus!
