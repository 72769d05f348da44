//! Standard MIDI File (`.mid`) ingestion.
//!
//! A small, self-contained SMF reader (formats 0 and 1) that never panics on
//! malformed input: every path returns a [`Result`]. It reduces polyphony to a
//! single time-ordered stream (chords arpeggiate by start order, higher pitch
//! first; simultaneous notes get a zero gap) and rescales timing to 480 ticks
//! per quarter note. What it returns for every byte sequence is stated by
//! [`crate::midi_format::smf_events`].

use vstd::prelude::*;
use vstd::string::StringExecFns;

use crate::midi_format::{
    be_u16_at, be_u32_at, byte_at, close_spec, end_before, event_for, events_from_notes,
    flush_open, fresh_track, hex_digit, insert_note, is_mtrk, last_open_match, note_after,
    read_chunks, read_vlq, run_track, scale_ticks, skip_bytes, smf_events, sort_notes,
    status_message, track_notes, track_step, vlq_from, HeldNote, MidiFailure, OpenNote,
    TrackState,
};
use crate::{is_phrase_split, phrase_events, split_phrases, Duration, NoteEvent, Phrase, Pitch, Velocity};

verus! {

/// Why a MIDI parse failed. Malformed files produce these instead of panicking.
#[derive(Debug, Clone, PartialEq, Eq)]
pub enum MidiError {
    /// The file did not start with a valid `MThd` header chunk.
    NotSmf,
    /// The byte stream ended in the middle of a structure.
    Truncated,
    /// A construct this minimal parser doesn't support (e.g. SMPTE timing).
    Unsupported(String),
}

impl View for MidiError {
    type V = MidiFailure;

    open spec fn view(&self) -> MidiFailure {
        match self {
            MidiError::NotSmf => MidiFailure::NotSmf,
            MidiError::Truncated => MidiFailure::Truncated,
            MidiError::Unsupported(s) => MidiFailure::Unsupported(s@),
        }
    }
}

/// The text a failure is reported with.
pub open spec fn failure_text(f: MidiFailure) -> Seq<char> {
    match f {
        MidiFailure::NotSmf => "not a Standard MIDI File (missing MThd header)"@,
        MidiFailure::Truncated => "MIDI data ended unexpectedly"@,
        MidiFailure::Unsupported(s) => "unsupported MIDI construct: "@ + s,
    }
}

impl MidiError {
    /// A human-readable description of the failure.
    pub fn message(&self) -> (r: String)
        ensures
            r@ == failure_text(self@),
    {
        match self {
            MidiError::NotSmf => "not a Standard MIDI File (missing MThd header)".to_string(),
            MidiError::Truncated => "MIDI data ended unexpectedly".to_string(),
            MidiError::Unsupported(s) => {
                let mut m = "unsupported MIDI construct: ".to_string();
                m.append(s.as_str());
                m
            },
        }
    }
}

/// Upper bound on every tick value held while reading a file of `len` bytes:
/// each delta time is below 2^28 and takes at least one byte.
pub open spec fn tick_limit(len: int) -> int {
    len * 0x1000_0000
}

/// A note collected during parsing, in the file's own tick units.
#[derive(Clone, Copy)]
struct RawNote {
    start: u128,
    end: u128,
    pitch: u8,
    velocity: u8,
}

impl View for RawNote {
    type V = HeldNote;

    closed spec fn view(&self) -> HeldNote {
        HeldNote { start: self.start as int, end: self.end as int, pitch: self.pitch, velocity: self.velocity }
    }
}

/// A note-on still waiting for its note-off.
#[derive(Clone, Copy)]
struct OpenEntry {
    channel: u8,
    pitch: u8,
    start: u128,
    velocity: u8,
}

impl View for OpenEntry {
    type V = OpenNote;

    closed spec fn view(&self) -> OpenNote {
        OpenNote { channel: self.channel, pitch: self.pitch, start: self.start as int, velocity: self.velocity }
    }
}

spec fn notes_view(s: Seq<RawNote>) -> Seq<HeldNote> {
    s.map_values(|n: RawNote| n@)
}

spec fn open_view(s: Seq<OpenEntry>) -> Seq<OpenNote> {
    s.map_values(|o: OpenEntry| o@)
}

spec fn notes_bounded(s: Seq<RawNote>, limit: int) -> bool {
    forall|k: int| 0 <= k < s.len() ==> (#[trigger] s[k]).start <= limit && s[k].end <= limit
}

spec fn state_view(
    pos: usize,
    abs: u128,
    running: u8,
    open: Seq<OpenEntry>,
    notes: Seq<RawNote>,
) -> TrackState {
    TrackState { pos: pos as int, abs: abs as int, running, open: open_view(open), notes: notes_view(notes) }
}

/// The bounds that rule out overflow while reading a track of a `len`-byte file.
spec fn track_bounded(
    len: int,
    pos: usize,
    abs: u128,
    running: u8,
    open: Seq<OpenEntry>,
    notes: Seq<RawNote>,
) -> bool {
    &&& pos <= len
    &&& abs <= pos * 0x1000_0000
    &&& running == 0 || (0x80 <= running < 0xf0)
    &&& forall|k: int| 0 <= k < open.len() ==> (#[trigger] open[k]).start <= abs
    &&& notes_bounded(notes, tick_limit(len))
}

/// A tiny, bounds-checked byte cursor. Every read is fallible; nothing panics.
struct Reader<'a> {
    data: &'a [u8],
    pos: usize,
}

impl<'a> Reader<'a> {
    /// The cursor lies within the bytes.
    spec fn wf(&self) -> bool {
        self.pos <= self.data@.len() <= usize::MAX
    }

    fn new(data: &'a [u8]) -> (r: Self)
        ensures
            r.data@ == data@,
            r.pos == 0,
            r.wf(),
    {
        let _ = data.len();
        Reader { data, pos: 0 }
    }

    fn at_end(&self) -> (r: bool)
        ensures
            r == (self.pos >= self.data@.len()),
    {
        self.pos >= self.data.len()
    }

    fn peek(&self) -> (r: Result<u8, MidiError>)
        requires
            self.wf(),
        ensures
            match r {
                Ok(b) => byte_at(self.data@, self.pos as int) == Ok::<(u8, int), MidiFailure>(
                    (b, self.pos + 1),
                ),
                Err(e) => byte_at(self.data@, self.pos as int) == Err::<(u8, int), MidiFailure>(
                    e@,
                ),
            },
    {
        if self.pos < self.data.len() {
            Ok(self.data[self.pos])
        } else {
            Err(MidiError::Truncated)
        }
    }

    fn u8(&mut self) -> (r: Result<u8, MidiError>)
        requires
            old(self).wf(),
        ensures
            final(self).data@ == old(self).data@,
            final(self).wf(),
            match r {
                Ok(b) => byte_at(old(self).data@, old(self).pos as int) == Ok::<
                    (u8, int),
                    MidiFailure,
                >((b, final(self).pos as int)),
                Err(e) => byte_at(old(self).data@, old(self).pos as int) == Err::<
                    (u8, int),
                    MidiFailure,
                >(e@),
            },
    {
        let b = match self.peek() {
            Ok(b) => b,
            Err(e) => return Err(e),
        };
        self.pos = self.pos + 1;
        Ok(b)
    }

    fn take(&mut self, n: usize) -> (r: Result<&'a [u8], MidiError>)
        requires
            old(self).wf(),
        ensures
            final(self).data@ == old(self).data@,
            final(self).wf(),
            match r {
                Ok(s) => old(self).pos + n <= old(self).data@.len() && s@ == old(
                    self,
                ).data@.subrange(old(self).pos as int, old(self).pos + n) && final(self).pos
                    == old(self).pos + n,
                Err(e) => old(self).pos + n > old(self).data@.len() && e@ == MidiFailure::Truncated
                    && final(self).pos == old(self).pos,
            },
    {
        if n > self.data.len() - self.pos {
            return Err(MidiError::Truncated);
        }
        let end = self.pos + n;
        let s = &self.data[self.pos..end];
        self.pos = end;
        Ok(s)
    }

    fn skip(&mut self, n: usize) -> (r: Result<(), MidiError>)
        requires
            old(self).wf(),
        ensures
            final(self).data@ == old(self).data@,
            final(self).wf(),
            match r {
                Ok(_) => skip_bytes(old(self).data@, old(self).pos as int, n as int) == Ok::<
                    int,
                    MidiFailure,
                >(final(self).pos as int),
                Err(e) => skip_bytes(old(self).data@, old(self).pos as int, n as int) == Err::<
                    int,
                    MidiFailure,
                >(e@),
            },
    {
        match self.take(n) {
            Ok(_) => Ok(()),
            Err(e) => Err(e),
        }
    }

    fn u16(&mut self) -> (r: Result<u16, MidiError>)
        requires
            old(self).wf(),
        ensures
            final(self).data@ == old(self).data@,
            final(self).wf(),
            match r {
                Ok(v) => old(self).pos + 2 <= old(self).data@.len() && v == be_u16_at(
                    old(self).data@,
                    old(self).pos as int,
                ) && final(self).pos == old(self).pos + 2,
                Err(e) => old(self).pos + 2 > old(self).data@.len() && e@ == MidiFailure::Truncated,
            },
    {
        let s = match self.take(2) {
            Ok(s) => s,
            Err(e) => return Err(e),
        };
        Ok(s[0] as u16 * 256 + s[1] as u16)
    }

    fn u32(&mut self) -> (r: Result<u32, MidiError>)
        requires
            old(self).wf(),
        ensures
            final(self).data@ == old(self).data@,
            final(self).wf(),
            match r {
                Ok(v) => old(self).pos + 4 <= old(self).data@.len() && v == be_u32_at(
                    old(self).data@,
                    old(self).pos as int,
                ) && final(self).pos == old(self).pos + 4,
                Err(e) => old(self).pos + 4 > old(self).data@.len() && e@ == MidiFailure::Truncated,
            },
    {
        let s = match self.take(4) {
            Ok(s) => s,
            Err(e) => return Err(e),
        };
        let hi: u32 = s[0] as u32 * 256 + s[1] as u32;
        Ok(((hi * 256) + s[2] as u32) * 256 + s[3] as u32)
    }

    /// MIDI variable-length quantity: 7 bits per byte, high bit = continue.
    fn vlq(&mut self) -> (r: Result<u32, MidiError>)
        requires
            old(self).wf(),
        ensures
            final(self).data@ == old(self).data@,
            final(self).wf(),
            match r {
                Ok(v) => read_vlq(old(self).data@, old(self).pos as int) == Ok::<
                    (int, int),
                    MidiFailure,
                >((v as int, final(self).pos as int)) && v < 0x1000_0000 && final(self).pos
                    > old(self).pos,
                Err(e) => read_vlq(old(self).data@, old(self).pos as int) == Err::<
                    (int, int),
                    MidiFailure,
                >(e@),
            },
    {
        let ghost start = self.pos as int;
        let mut value: u32 = 0;
        let mut count: usize = 0;
        while count < 4
            invariant
                self.data@ == old(self).data@,
                start == old(self).pos,
                count <= 4,
                self.pos == start + count,
                self.wf(),
                read_vlq(self.data@, start) == vlq_from(
                    self.data@,
                    self.pos as int,
                    value as int,
                    count as nat,
                ),
                count == 0 ==> value == 0,
                count == 1 ==> value < 0x80,
                count == 2 ==> value < 0x4000,
                count == 3 ==> value < 0x20_0000,
            decreases 4 - count,
        {
            let b = match self.u8() {
                Ok(b) => b,
                Err(e) => return Err(e),
            };
            value = value * 128 + (b % 128) as u32;
            if b < 128 {
                return Ok(value);
            }
            count = count + 1;
        }
        Err(MidiError::Unsupported("variable-length quantity too long".to_string()))
    }
}

/// A single lowercase hexadecimal digit.
fn hex_digit_str(n: u8) -> (r: &'static str)
    requires
        n < 16,
    ensures
        r@ == seq![hex_digit(n)],
{
    proof {
        reveal_strlit("0");
        reveal_strlit("1");
        reveal_strlit("2");
        reveal_strlit("3");
        reveal_strlit("4");
        reveal_strlit("5");
        reveal_strlit("6");
        reveal_strlit("7");
        reveal_strlit("8");
        reveal_strlit("9");
        reveal_strlit("a");
        reveal_strlit("b");
        reveal_strlit("c");
        reveal_strlit("d");
        reveal_strlit("e");
        reveal_strlit("f");
    }
    match n {
        0 => "0",
        1 => "1",
        2 => "2",
        3 => "3",
        4 => "4",
        5 => "5",
        6 => "6",
        7 => "7",
        8 => "8",
        9 => "9",
        10 => "a",
        11 => "b",
        12 => "c",
        13 => "d",
        14 => "e",
        _ => "f",
    }
}

/// "status 0x" followed by the status byte in two lowercase hex digits.
fn status_text(status: u8) -> (r: String)
    ensures
        r@ == status_message(status),
{
    let mut s = "status 0x".to_string();
    s.append(hex_digit_str(status / 16));
    s.append(hex_digit_str(status % 16));
    assert(s@ =~= status_message(status));
    s
}


/// `last_open_match` finds `k` when `k` matches and nothing after it does
/// (`k == -1`: nothing matches).
proof fn lemma_last_open_match(open: Seq<OpenNote>, channel: u8, pitch: u8, k: int)
    requires
        -1 <= k < open.len(),
        k >= 0 ==> open[k].channel == channel && open[k].pitch == pitch,
        forall|j: int| k < j < open.len() ==> !(open[j].channel == channel && open[j].pitch == pitch),
    ensures
        last_open_match(open, channel, pitch) == k,
    decreases open.len(),
{
    if open.len() > 0 {
        let last = open.len() - 1;
        if !(open[last].channel == channel && open[last].pitch == pitch) {
            let rest = open.drop_last();
            assert forall|j: int| k < j < rest.len() implies !(rest[j].channel == channel && rest[j].pitch
                == pitch) by {
                assert(rest[j] == open[j]);
            }
            if k >= 0 {
                assert(rest[k] == open[k]);
            }
            lemma_last_open_match(rest, channel, pitch, k);
        }
    }
}

/// Match the most recent still-open note-on for this (channel, pitch) and
/// complete it at tick `end`. A note-off with no matching note-on is ignored.
fn close_note(
    open: &mut Vec<OpenEntry>,
    notes: &mut Vec<RawNote>,
    channel: u8,
    pitch: u8,
    end: u128,
    Ghost(limit): Ghost<int>,
)
    requires
        forall|k: int| 0 <= k < old(open)@.len() ==> (#[trigger] old(open)@[k]).start <= end,
        end <= limit,
        notes_bounded(old(notes)@, limit),
    ensures
        ({
            let st = TrackState {
                pos: 0,
                abs: end as int,
                running: 0,
                open: open_view(old(open)@),
                notes: notes_view(old(notes)@),
            };
            let st2 = close_spec(st, channel, pitch, end as int);
            open_view(final(open)@) == st2.open && notes_view(final(notes)@) == st2.notes
        }),
        forall|k: int| 0 <= k < final(open)@.len() ==> (#[trigger] final(open)@[k]).start <= end,
        notes_bounded(final(notes)@, limit),
{
    let ghost ov = open_view(open@);
    let n = open.len();
    let mut i = n;
    while i > 0
        invariant
            i <= n,
            n == open@.len(),
            open@ == old(open)@,
            notes@ == old(notes)@,
            ov == open_view(open@),
            forall|k: int| 0 <= k < open@.len() ==> (#[trigger] open@[k]).start <= end,
            end <= limit,
            notes_bounded(notes@, limit),
            forall|j: int| i <= j < n ==> !(ov[j].channel == channel && ov[j].pitch == pitch),
        decreases i,
    {
        if open[i - 1].channel == channel && open[i - 1].pitch == pitch {
            proof {
                lemma_last_open_match(ov, channel, pitch, i - 1);
            }
            let ghost before_notes = notes@;
            let o = open.remove(i - 1);
            notes.push(RawNote { start: o.start, end, pitch: o.pitch, velocity: o.velocity });
            proof {
                assert(open_view(open@) =~= ov.remove(i - 1));
                assert(notes_view(notes@) =~= notes_view(before_notes).push(
                    HeldNote { start: ov[i - 1].start, end: end as int, pitch: ov[i - 1].pitch, velocity: ov[i - 1].velocity },
                ));
                assert forall|k: int| 0 <= k < open@.len() implies (#[trigger] open@[k]).start <= end by {
                    if k < i - 1 {
                        assert(open@[k] == old(open)@[k]);
                    } else {
                        assert(open@[k] == old(open)@[k + 1]);
                    }
                }
            }
            return;
        }
        i = i - 1;
    }
    proof {
        lemma_last_open_match(ov, channel, pitch, -1);
    }
}


/// Read one track event: a delta time, a status byte (or running status), and
/// the event's data, updating the open notes and completed notes.
fn track_event<'a>(
    r: &mut Reader<'a>,
    abs: &mut u128,
    running: &mut u8,
    open: &mut Vec<OpenEntry>,
    notes: &mut Vec<RawNote>,
) -> (res: Result<(), MidiError>)
    requires
        old(r).wf(),
        track_bounded(
            old(r).data@.len() as int,
            old(r).pos,
            *old(abs),
            *old(running),
            old(open)@,
            old(notes)@,
        ),
    ensures
        final(r).data@ == old(r).data@,
        final(r).wf(),
        match res {
            Ok(_) => track_step(
                old(r).data@,
                state_view(old(r).pos, *old(abs), *old(running), old(open)@, old(notes)@),
            ) == Ok::<TrackState, MidiFailure>(
                state_view(final(r).pos, *final(abs), *final(running), final(open)@, final(notes)@),
            ) && final(r).pos > old(r).pos && track_bounded(
                final(r).data@.len() as int,
                final(r).pos,
                *final(abs),
                *final(running),
                final(open)@,
                final(notes)@,
            ),
            Err(e) => track_step(
                old(r).data@,
                state_view(old(r).pos, *old(abs), *old(running), old(open)@, old(notes)@),
            ) == Err::<TrackState, MidiFailure>(e@),
        },
{
    reveal(track_step);
    let ghost d = r.data@;
    let ghost len = d.len() as int;
    let ghost st0 = state_view(r.pos, *abs, *running, open@, notes@);
    let delta = match r.vlq() {
        Ok(v) => v,
        Err(e) => return Err(e),
    };
    *abs = *abs + delta as u128;
    let peeked = match r.peek() {
        Ok(b) => b,
        Err(e) => return Err(e),
    };
    let status: u8;
    if peeked < 0x80 {
        if *running == 0 {
            return Err(MidiError::Truncated);
        }
        status = *running;
    } else {
        r.pos = r.pos + 1;
        if peeked < 0xf0 {
            *running = peeked;
        }
        status = peeked;
    }
    assert(*abs <= tick_limit(len));
    if status == 0xf0 || status == 0xf7 {
        let n = match r.vlq() {
            Ok(v) => v,
            Err(e) => return Err(e),
        };
        match r.skip(n as usize) {
            Ok(_) => {},
            Err(e) => return Err(e),
        }
    } else if status == 0xff {
        match r.u8() {
            Ok(_) => {},
            Err(e) => return Err(e),
        }
        let n = match r.vlq() {
            Ok(v) => v,
            Err(e) => return Err(e),
        };
        match r.skip(n as usize) {
            Ok(_) => {},
            Err(e) => return Err(e),
        }
    } else {
        let kind = status / 16;
        let channel = status % 16;
        if kind == 8 {
            let pitch = match r.u8() {
                Ok(b) => b,
                Err(e) => return Err(e),
            };
            match r.u8() {
                Ok(_) => {},
                Err(e) => return Err(e),
            }
            close_note(open, notes, channel, pitch, *abs, Ghost(tick_limit(len)));
        } else if kind == 9 {
            let pitch = match r.u8() {
                Ok(b) => b,
                Err(e) => return Err(e),
            };
            let vel = match r.u8() {
                Ok(b) => b,
                Err(e) => return Err(e),
            };
            if vel == 0 {
                close_note(open, notes, channel, pitch, *abs, Ghost(tick_limit(len)));
            } else {
                let ghost before = open@;
                open.push(OpenEntry { channel, pitch, start: *abs, velocity: vel });
                assert(open_view(open@) =~= open_view(before).push(
                    OpenNote { channel, pitch, start: *abs as int, velocity: vel },
                ));
            }
        } else if kind == 10 || kind == 11 || kind == 14 {
            match r.u8() {
                Ok(_) => {},
                Err(e) => return Err(e),
            }
            match r.u8() {
                Ok(_) => {},
                Err(e) => return Err(e),
            }
        } else if kind == 12 || kind == 13 {
            match r.u8() {
                Ok(_) => {},
                Err(e) => return Err(e),
            }
        } else {
            return Err(MidiError::Unsupported(status_text(status)));
        }
    }
    Ok(())
}


/// Read the events of a track chunk whose events start at the cursor and whose
/// chunk ends at `track_end`, appending the track's notes to `notes`.
fn read_track<'a>(r: &mut Reader<'a>, track_end: usize, notes: &mut Vec<RawNote>) -> (res: Result<
    (),
    MidiError,
>)
    requires
        old(r).wf(),
        old(r).pos <= track_end <= old(r).data@.len(),
        notes_bounded(old(notes)@, tick_limit(old(r).data@.len() as int)),
    ensures
        final(r).data@ == old(r).data@,
        final(r).wf(),
        match res {
            Ok(_) => track_notes(
                old(r).data@,
                old(r).pos as int,
                track_end as int,
                notes_view(old(notes)@),
            ) == Ok::<Seq<HeldNote>, MidiFailure>(notes_view(final(notes)@)) && notes_bounded(
                final(notes)@,
                tick_limit(old(r).data@.len() as int),
            ),
            Err(e) => track_notes(
                old(r).data@,
                old(r).pos as int,
                track_end as int,
                notes_view(old(notes)@),
            ) == Err::<Seq<HeldNote>, MidiFailure>(e@),
        },
{
    let ghost d = r.data@;
    let ghost limit = tick_limit(d.len() as int);
    let ghost init = fresh_track(r.pos as int, notes_view(notes@));
    let mut abs: u128 = 0;
    let mut running: u8 = 0;
    let mut open: Vec<OpenEntry> = Vec::new();
    assert(open_view(open@) =~= Seq::<OpenNote>::empty());
    assert(state_view(r.pos, abs, running, open@, notes@) == init);
    while r.pos < track_end
        invariant
            r.wf(),
            r.data@ == d,
            d == old(r).data@,
            init == fresh_track(old(r).pos as int, notes_view(old(notes)@)),
            track_end <= d.len(),
            limit == tick_limit(d.len() as int),
            track_bounded(d.len() as int, r.pos, abs, running, open@, notes@),
            run_track(d, track_end as int, state_view(r.pos, abs, running, open@, notes@))
                == run_track(d, track_end as int, init),
        decreases d.len() - r.pos,
    {
        let ghost cur = state_view(r.pos, abs, running, open@, notes@);
        match track_event(r, &mut abs, &mut running, &mut open, notes) {
            Ok(_) => {
                let ghost next = state_view(r.pos, abs, running, open@, notes@);
                assert(run_track(d, track_end as int, cur) == run_track(d, track_end as int, next));
            },
            Err(e) => {
                assert(run_track(d, track_end as int, cur) == Err::<TrackState, MidiFailure>(e@));
                return Err(e);
            },
        }
    }
    let ghost st = state_view(r.pos, abs, running, open@, notes@);
    assert(run_track(d, track_end as int, st) == Ok::<TrackState, MidiFailure>(st));
    let ghost before = notes@;
    let ghost flushed = flush_open(open_view(open@), abs as int);
    let mut i: usize = 0;
    while i < open.len()
        invariant
            i <= open@.len(),
            flushed == flush_open(open_view(open@), abs as int),
            notes_view(notes@) == notes_view(before) + flushed.take(i as int),
            forall|k: int| 0 <= k < open@.len() ==> (#[trigger] open@[k]).start <= abs,
            abs <= limit,
            notes_bounded(notes@, limit),
        decreases open@.len() - i,
    {
        let o = open[i];
        let ghost prev = notes@;
        notes.push(RawNote { start: o.start, end: abs, pitch: o.pitch, velocity: o.velocity });
        assert(flushed.take(i + 1) =~= flushed.take(i as int).push(flushed[i as int]));
        assert(notes_view(notes@) =~= notes_view(prev).push(flushed[i as int]));
        i = i + 1;
    }
    assert(flushed.take(open@.len() as int) =~= flushed);
    Ok(())
}


/// Read the chunks from the cursor to the end of the bytes, collecting the
/// notes of every track chunk.
fn collect_notes<'a>(r: &mut Reader<'a>) -> (res: Result<Vec<RawNote>, MidiError>)
    requires
        old(r).wf(),
    ensures
        match res {
            Ok(v) => read_chunks(old(r).data@, old(r).pos as int, Seq::empty()) == Ok::<
                Seq<HeldNote>,
                MidiFailure,
            >(notes_view(v@)) && notes_bounded(v@, tick_limit(old(r).data@.len() as int)),
            Err(e) => read_chunks(old(r).data@, old(r).pos as int, Seq::empty()) == Err::<
                Seq<HeldNote>,
                MidiFailure,
            >(e@),
        },
{
    let ghost d = r.data@;
    let ghost target = read_chunks(d, r.pos as int, Seq::empty());
    let mut notes: Vec<RawNote> = Vec::new();
    assert(notes_view(notes@) =~= Seq::<HeldNote>::empty());
    while !r.at_end()
        invariant
            r.wf(),
            r.data@ == d,
            d == old(r).data@,
            target == read_chunks(d, old(r).pos as int, Seq::empty()),
            read_chunks(d, r.pos as int, notes_view(notes@)) == target,
            notes_bounded(notes@, tick_limit(d.len() as int)),
        decreases d.len() - r.pos,
    {
        let ghost pos = r.pos as int;
        let ghost cur = notes_view(notes@);
        let id = match r.take(4) {
            Ok(id) => id,
            Err(_) => {
                assert(read_chunks(d, pos, cur) == Ok::<Seq<HeldNote>, MidiFailure>(cur));
                return Ok(notes);
            },
        };
        let len = match r.u32() {
            Ok(v) => v,
            Err(e) => return Err(e),
        };
        let len = len as usize;
        let is_track = id[0] == 0x4d && id[1] == 0x54 && id[2] == 0x72 && id[3] == 0x6b;
        assert(is_track == is_mtrk(d, pos));
        if !is_track {
            match r.skip(len) {
                Ok(_) => {},
                Err(e) => return Err(e),
            }
        } else {
            if len > r.data.len() - r.pos {
                return Err(MidiError::Truncated);
            }
            let track_end = r.pos + len;
            match read_track(r, track_end, &mut notes) {
                Ok(_) => {},
                Err(e) => return Err(e),
            }
            r.pos = track_end;
        }
    }
    Ok(notes)
}

/// Whether `a` comes strictly after `b` in output order.
fn comes_after(a: &RawNote, b: &RawNote) -> (r: bool)
    ensures
        r == note_after(a@, b@),
{
    a.start > b.start || (a.start == b.start && a.pitch < b.pitch)
}

/// Stable sort by start tick, higher pitch first on ties.
fn sort_by_onset(notes: &Vec<RawNote>, Ghost(limit): Ghost<int>) -> (r: Vec<RawNote>)
    requires
        notes_bounded(notes@, limit),
    ensures
        notes_view(r@) == sort_notes(notes_view(notes@)),
        notes_bounded(r@, limit),
{
    let ghost all = notes_view(notes@);
    let mut sorted: Vec<RawNote> = Vec::new();
    let mut i: usize = 0;
    assert(all.take(0) =~= Seq::<HeldNote>::empty());
    assert(notes_view(sorted@) =~= Seq::<HeldNote>::empty());
    while i < notes.len()
        invariant
            i <= notes@.len(),
            all == notes_view(notes@),
            notes_view(sorted@) == sort_notes(all.take(i as int)),
            notes_bounded(sorted@, limit),
            notes_bounded(notes@, limit),
        decreases notes@.len() - i,
    {
        let x = notes[i];
        let ghost s = notes_view(sorted@);
        let mut j: usize = sorted.len();
        assert(s.take(j as int) =~= s);
        assert(s.skip(j as int) =~= Seq::<HeldNote>::empty());
        while j > 0 && comes_after(&sorted[j - 1], &x)
            invariant
                j <= sorted@.len(),
                s == notes_view(sorted@),
                insert_note(s, x@) == insert_note(s.take(j as int), x@) + s.skip(j as int),
            decreases j,
        {
            assert(s.take(j as int).drop_last() =~= s.take(j - 1));
            assert(s.take(j as int).last() == s[j - 1]);
            assert(s.skip(j - 1) =~= seq![s[j - 1]] + s.skip(j as int));
            assert(insert_note(s.take(j - 1), x@).push(s[j - 1]) + s.skip(j as int) =~= insert_note(
                s.take(j - 1),
                x@,
            ) + s.skip(j - 1));
            j = j - 1;
        }
        assert(insert_note(s.take(j as int), x@) == s.take(j as int).push(x@));
        let ghost old_sorted = sorted@;
        sorted.insert(j, x);
        assert(notes_view(sorted@) =~= s.take(j as int).push(x@) + s.skip(j as int));
        assert(all.take(i + 1).drop_last() =~= all.take(i as int));
        assert(all.take(i + 1).last() == x@);
        assert forall|k: int| 0 <= k < sorted@.len() implies (#[trigger] sorted@[k]).start <= limit
            && sorted@[k].end <= limit by {
            if k < j {
                assert(sorted@[k] == old_sorted[k]);
            } else if k > j {
                assert(sorted@[k] == old_sorted[k - 1]);
            }
        }
        i = i + 1;
    }
    assert(all.take(notes@.len() as int) =~= all);
    sorted
}


/// Rescale a tick count from `tpqn` ticks per quarter note to 480, kept to 32 bits.
fn scale(t: u128, tpqn: u128) -> (r: u32)
    requires
        t <= 0x1_0000_0000_0000_0000_0000_0000,
        tpqn > 0,
    ensures
        r == scale_ticks(t as int, tpqn as int),
{
    ((t * 480) / tpqn) as u32
}

/// Turn time-ordered notes into note events with rests and durations in
/// 480-per-quarter ticks.
fn notes_to_events(notes: &Vec<RawNote>, tpqn: u128, Ghost(limit): Ghost<int>) -> (r: Vec<NoteEvent>)
    requires
        0 < tpqn,
        0 <= limit <= 0x1_0000_0000_0000_0000_0000_0000,
        notes_bounded(notes@, limit),
    ensures
        r@ == events_from_notes(notes_view(notes@), tpqn as int),
{
    let ghost view = notes_view(notes@);
    let mut events: Vec<NoteEvent> = Vec::new();
    let mut prev_end: u128 = 0;
    let mut i: usize = 0;
    while i < notes.len()
        invariant
            i <= notes@.len(),
            view == notes_view(notes@),
            0 < tpqn,
            limit <= 0x1_0000_0000_0000_0000_0000_0000,
            notes_bounded(notes@, limit),
            events@.len() == i,
            forall|k: int| 0 <= k < i ==> events@[k] == event_for(view, tpqn as int, k),
            prev_end == end_before(view, i as int),
            prev_end <= limit,
        decreases notes@.len() - i,
    {
        let n = notes[i];
        let gap: u32 = if i == 0 {
            0
        } else {
            scale(
                if n.start >= prev_end {
                    n.start - prev_end
                } else {
                    0
                },
                tpqn,
            )
        };
        let d = scale(
            if n.end >= n.start {
                n.end - n.start
            } else {
                0
            },
            tpqn,
        );
        let dur = if d == 0 {
            1
        } else {
            d
        };
        events.push(
            NoteEvent {
                pitch: Pitch(n.pitch),
                velocity: Velocity(n.velocity),
                duration: Duration(dur),
                tick_offset: gap,
            },
        );
        if n.end > prev_end {
            prev_end = n.end;
        }
        i = i + 1;
    }
    assert(events@ =~= events_from_notes(view, tpqn as int));
    events
}

/// Parse a Standard MIDI File into a single time-ordered stream of note events.
///
/// Note-ons are matched to their note-offs (a note-on with velocity 0 counts as
/// a note-off). Timing is rescaled to 480 ticks per quarter note. Each event's
/// `tick_offset` is the rest before it: the gap since every earlier note ended,
/// clamped at zero.
pub fn parse_smf(bytes: &[u8]) -> (r: Result<Vec<NoteEvent>, MidiError>)
    ensures
        match r {
            Ok(events) => smf_events(bytes@) == Ok::<Seq<NoteEvent>, MidiFailure>(events@),
            Err(e) => smf_events(bytes@) == Err::<Seq<NoteEvent>, MidiFailure>(e@),
        },
{
    let ghost d = bytes@;
    let mut r = Reader::new(bytes);
    match r.take(4) {
        Ok(magic) => {
            if !(magic[0] == 0x4d && magic[1] == 0x54 && magic[2] == 0x68 && magic[3] == 0x64) {
                return Err(MidiError::NotSmf);
            }
        },
        Err(_) => return Err(MidiError::NotSmf),
    }
    let header_len = match r.u32() {
        Ok(v) => v,
        Err(e) => return Err(e),
    };
    if header_len < 6 {
        return Err(MidiError::Truncated);
    }
    match r.u16() {
        Ok(_) => {},
        Err(e) => return Err(e),
    }
    match r.u16() {
        Ok(_) => {},
        Err(e) => return Err(e),
    }
    let division = match r.u16() {
        Ok(v) => v,
        Err(e) => return Err(e),
    };
    match r.skip((header_len - 6) as usize) {
        Ok(_) => {},
        Err(e) => return Err(e),
    }
    if division >= 0x8000 {
        return Err(MidiError::Unsupported("SMPTE timecode division".to_string()));
    }
    if division == 0 {
        return Err(MidiError::Unsupported("zero ticks-per-quarter".to_string()));
    }
    let notes = match collect_notes(&mut r) {
        Ok(v) => v,
        Err(e) => return Err(e),
    };
    let ghost limit = tick_limit(d.len() as int);
    let sorted = sort_by_onset(&notes, Ghost(limit));
    Ok(notes_to_events(&sorted, division as u128, Ghost(limit)))
}

/// Parse a Standard MIDI File and split it into phrases at rest boundaries.
pub fn phrases_from_smf(bytes: &[u8], instrument: &str, source: &str) -> (r: Result<
    Vec<Phrase>,
    MidiError,
>)
    ensures
        match r {
            Ok(phrases) => smf_events(bytes@) matches Ok(events) && is_phrase_split(
                events,
                phrase_events(phrases@),
            ) && forall|k: int|
                0 <= k < phrases@.len() ==> (#[trigger] phrases@[k]).source@ == source@
                    && phrases@[k].instrument@ == instrument@,
            Err(e) => smf_events(bytes@) == Err::<Seq<NoteEvent>, MidiFailure>(e@),
        },
{
    let events = match parse_smf(bytes) {
        Ok(v) => v,
        Err(e) => return Err(e),
    };
    Ok(split_phrases(events.as_slice(), instrument, source))
}

} // verus!
