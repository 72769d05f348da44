//! The Standard MIDI File format as this crate reads it, stated as functions
//! on byte sequences. `midi::parse_smf` is proved to compute exactly
//! `smf_events` below.

use vstd::prelude::*;

use crate::{Duration, NoteEvent, Pitch, Velocity};

verus! {

/// Why a file could not be read.
pub enum MidiFailure {
    /// The bytes do not begin with an `MThd` header chunk.
    NotSmf,
    /// The bytes end in the middle of a structure.
    Truncated,
    /// A construct this reader does not support, with its description.
    Unsupported(Seq<char>),
}

/// A note-on that has not yet been matched by a note-off.
pub struct OpenNote {
    pub channel: u8,
    pub pitch: u8,
    pub start: int,
    pub velocity: u8,
}

/// A note with absolute start and end ticks in the file's own time unit.
pub struct HeldNote {
    pub start: int,
    pub end: int,
    pub pitch: u8,
    pub velocity: u8,
}

/// What the reader knows while inside one track chunk.
pub struct TrackState {
    /// Offset of the next unread byte.
    pub pos: int,
    /// Absolute tick of the last event read.
    pub abs: int,
    /// The running status byte (0 when none has been seen).
    pub running: u8,
    /// Note-ons still waiting for their note-off, oldest first.
    pub open: Seq<OpenNote>,
    /// Notes completed so far, in the order they were completed.
    pub notes: Seq<HeldNote>,
}

/// The byte at `p`, and the offset after it.
pub open spec fn byte_at(d: Seq<u8>, p: int) -> Result<(u8, int), MidiFailure> {
    if 0 <= p < d.len() {
        Ok((d[p], p + 1))
    } else {
        Err(MidiFailure::Truncated)
    }
}

/// The offset reached by skipping `n` bytes from `p`.
pub open spec fn skip_bytes(d: Seq<u8>, p: int, n: int) -> Result<int, MidiFailure> {
    if p + n <= d.len() {
        Ok(p + n)
    } else {
        Err(MidiFailure::Truncated)
    }
}

/// The big-endian 16-bit number at `p`.
pub open spec fn be_u16_at(d: Seq<u8>, p: int) -> int {
    d[p] * 256 + d[p + 1]
}

/// The big-endian 32-bit number at `p`.
pub open spec fn be_u32_at(d: Seq<u8>, p: int) -> int {
    ((d[p] * 256 + d[p + 1]) * 256 + d[p + 2]) * 256 + d[p + 3]
}

/// The message for a variable-length quantity of more than four bytes.
pub open spec fn vlq_too_long_message() -> Seq<char> {
    "variable-length quantity too long"@
}

/// Continue reading a variable-length quantity at `p`, having read `count`
/// bytes whose 7-bit groups make `acc`.
pub open spec fn vlq_from(d: Seq<u8>, p: int, acc: int, count: nat) -> Result<(int, int), MidiFailure>
    decreases 4 - count,
{
    if count >= 4 {
        Err(MidiFailure::Unsupported(vlq_too_long_message()))
    } else if !(0 <= p < d.len()) {
        Err(MidiFailure::Truncated)
    } else {
        let b = d[p];
        let acc2 = acc * 128 + b % 128;
        if b < 128 {
            Ok((acc2, p + 1))
        } else {
            vlq_from(d, p + 1, acc2, count + 1)
        }
    }
}

/// A MIDI variable-length quantity at `p` (7 bits per byte, high bit set on
/// all but the last byte, at most four bytes), and the offset after it.
pub open spec fn read_vlq(d: Seq<u8>, p: int) -> Result<(int, int), MidiFailure> {
    vlq_from(d, p, 0, 0)
}

/// The lowercase hexadecimal digit for `n < 16`.
pub open spec fn hex_digit(n: u8) -> char {
    if n < 10 {
        (48 + n) as char
    } else {
        (87 + n) as char
    }
}

/// The message for a status byte this reader does not support.
pub open spec fn status_message(status: u8) -> Seq<char> {
    "status 0x"@ + seq![hex_digit(status / 16), hex_digit(status % 16)]
}

/// The message for a header whose division is in SMPTE timecode.
pub open spec fn smpte_message() -> Seq<char> {
    "SMPTE timecode division"@
}

/// The message for a header whose division is zero ticks per quarter note.
pub open spec fn zero_division_message() -> Seq<char> {
    "zero ticks-per-quarter"@
}

/// Index of the most recent open note on `channel` with `pitch`, or -1.
pub open spec fn last_open_match(open: Seq<OpenNote>, channel: u8, pitch: u8) -> int
    decreases open.len(),
{
    if open.len() == 0 {
        -1
    } else if open.last().channel == channel && open.last().pitch == pitch {
        open.len() - 1
    } else {
        last_open_match(open.drop_last(), channel, pitch)
    }
}

/// A note-off on `channel` for `pitch` at tick `end`: the most recent matching
/// open note is completed; a note-off that matches nothing changes nothing.
pub open spec fn close_spec(st: TrackState, channel: u8, pitch: u8, end: int) -> TrackState {
    let i = last_open_match(st.open, channel, pitch);
    if i < 0 {
        st
    } else {
        TrackState {
            open: st.open.remove(i),
            notes: st.notes.push(
                HeldNote {
                    start: st.open[i].start,
                    end,
                    pitch: st.open[i].pitch,
                    velocity: st.open[i].velocity,
                },
            ),
            ..st
        }
    }
}

/// `st` with the reader moved to `pos`.
pub open spec fn at_pos(st: TrackState, pos: int) -> TrackState {
    TrackState { pos, ..st }
}

/// Read two data bytes from `p` and move on.
pub open spec fn skip_two(d: Seq<u8>, p: int, st: TrackState) -> Result<TrackState, MidiFailure> {
    match byte_at(d, p) {
        Err(e) => Err(e),
        Ok((_, p1)) => match byte_at(d, p1) {
            Err(e) => Err(e),
            Ok((_, p2)) => Ok(at_pos(st, p2)),
        },
    }
}

/// Read a length as a variable-length quantity at `p`, then skip that many bytes.
pub open spec fn skip_counted(d: Seq<u8>, p: int, st: TrackState) -> Result<TrackState, MidiFailure> {
    match read_vlq(d, p) {
        Err(e) => Err(e),
        Ok((n, p1)) => match skip_bytes(d, p1, n) {
            Err(e) => Err(e),
            Ok(p2) => Ok(at_pos(st, p2)),
        },
    }
}

/// The body of a channel voice message with high nibble `kind`, data at `p`.
pub open spec fn channel_message(d: Seq<u8>, status: u8, p: int, st: TrackState) -> Result<
    TrackState,
    MidiFailure,
> {
    let kind = status / 16;
    let channel = status % 16;
    if kind == 8 {
        match byte_at(d, p) {
            Err(e) => Err(e),
            Ok((pitch, p1)) => match byte_at(d, p1) {
                Err(e) => Err(e),
                Ok((_, p2)) => Ok(at_pos(close_spec(st, channel, pitch, st.abs), p2)),
            },
        }
    } else if kind == 9 {
        match byte_at(d, p) {
            Err(e) => Err(e),
            Ok((pitch, p1)) => match byte_at(d, p1) {
                Err(e) => Err(e),
                Ok((vel, p2)) => if vel == 0 {
                    Ok(at_pos(close_spec(st, channel, pitch, st.abs), p2))
                } else {
                    Ok(
                        TrackState {
                            pos: p2,
                            open: st.open.push(
                                OpenNote { channel, pitch, start: st.abs, velocity: vel },
                            ),
                            ..st
                        },
                    )
                },
            },
        }
    } else if kind == 10 || kind == 11 || kind == 14 {
        skip_two(d, p, st)
    } else if kind == 12 || kind == 13 {
        match byte_at(d, p) {
            Err(e) => Err(e),
            Ok((_, p1)) => Ok(at_pos(st, p1)),
        }
    } else {
        Err(MidiFailure::Unsupported(status_message(status)))
    }
}

/// The body of an event with status byte `status`, whose data starts at `p`.
pub open spec fn event_body(d: Seq<u8>, status: u8, p: int, st: TrackState) -> Result<
    TrackState,
    MidiFailure,
> {
    if status == 0xf0 || status == 0xf7 {
        skip_counted(d, p, st)
    } else if status == 0xff {
        match byte_at(d, p) {
            Err(e) => Err(e),
            Ok((_, p1)) => skip_counted(d, p1, st),
        }
    } else {
        channel_message(d, status, p, st)
    }
}

/// One track event: a delta time, then a status byte (or running status), then
/// the event's data.
#[verifier::opaque]
pub open spec fn track_step(d: Seq<u8>, st: TrackState) -> Result<TrackState, MidiFailure> {
    match read_vlq(d, st.pos) {
        Err(e) => Err(e),
        Ok((delta, p1)) => {
            let abs = st.abs + delta;
            if !(0 <= p1 < d.len()) {
                Err(MidiFailure::Truncated)
            } else {
                let b = d[p1];
                if b < 128 {
                    if st.running == 0 {
                        Err(MidiFailure::Truncated)
                    } else {
                        event_body(d, st.running, p1, TrackState { abs, ..st })
                    }
                } else {
                    let running = if b < 0xf0 {
                        b
                    } else {
                        st.running
                    };
                    event_body(d, b, p1 + 1, TrackState { abs, running, ..st })
                }
            }
        },
    }
}

/// Read track events until the offset reaches `end`.
pub open spec fn run_track(d: Seq<u8>, end: int, st: TrackState) -> Result<TrackState, MidiFailure>
    decreases end - st.pos,
{
    if st.pos >= end {
        Ok(st)
    } else {
        match track_step(d, st) {
            Err(e) => Err(e),
            Ok(st2) => if st.pos < st2.pos < end {
                run_track(d, end, st2)
            } else {
                Ok(st2)
            },
        }
    }
}

/// Open notes that are still sounding when their track ends at tick `end`.
pub open spec fn flush_open(open: Seq<OpenNote>, end: int) -> Seq<HeldNote> {
    open.map_values(
        |o: OpenNote| HeldNote { start: o.start, end, pitch: o.pitch, velocity: o.velocity },
    )
}

/// A track starting at offset `pos` with no events read yet.
pub open spec fn fresh_track(pos: int, notes: Seq<HeldNote>) -> TrackState {
    TrackState { pos, abs: 0, running: 0, open: Seq::empty(), notes }
}

/// The notes a whole track contributes when its events start at `body` and
/// its chunk ends at `end`, appended to `notes`.
pub open spec fn track_notes(d: Seq<u8>, body: int, end: int, notes: Seq<HeldNote>) -> Result<
    Seq<HeldNote>,
    MidiFailure,
> {
    match run_track(d, end, fresh_track(body, notes)) {
        Err(e) => Err(e),
        Ok(st) => Ok(st.notes + flush_open(st.open, st.abs)),
    }
}

/// The four bytes at `p` are the chunk id `MTrk`.
pub open spec fn is_mtrk(d: Seq<u8>, p: int) -> bool {
    d[p] == 0x4d && d[p + 1] == 0x54 && d[p + 2] == 0x72 && d[p + 3] == 0x6b
}

/// Read chunks from `pos` to the end of the bytes. Track chunks contribute
/// their notes; other chunks are skipped; fewer than four trailing bytes are
/// ignored.
pub open spec fn read_chunks(d: Seq<u8>, pos: int, notes: Seq<HeldNote>) -> Result<
    Seq<HeldNote>,
    MidiFailure,
>
    decreases d.len() - pos,
{
    if pos < 0 || pos + 4 > d.len() {
        Ok(notes)
    } else if pos + 8 > d.len() {
        Err(MidiFailure::Truncated)
    } else {
        let body = pos + 8;
        let end = body + be_u32_at(d, pos + 4);
        if end > d.len() {
            Err(MidiFailure::Truncated)
        } else if !is_mtrk(d, pos) {
            read_chunks(d, end, notes)
        } else {
            match track_notes(d, body, end, notes) {
                Err(e) => Err(e),
                Ok(notes2) => read_chunks(d, end, notes2),
            }
        }
    }
}

/// The bytes begin with the header chunk id `MThd`.
pub open spec fn is_mthd(d: Seq<u8>) -> bool {
    d.len() >= 4 && d[0] == 0x4d && d[1] == 0x54 && d[2] == 0x68 && d[3] == 0x64
}

/// The notes of a Standard MIDI File in file order, with its ticks per quarter note.
pub open spec fn smf_notes(d: Seq<u8>) -> Result<(Seq<HeldNote>, int), MidiFailure> {
    if !is_mthd(d) {
        Err(MidiFailure::NotSmf)
    } else if d.len() < 8 {
        Err(MidiFailure::Truncated)
    } else {
        let header_len = be_u32_at(d, 4);
        if header_len < 6 || 8 + header_len > d.len() {
            Err(MidiFailure::Truncated)
        } else {
            let division = be_u16_at(d, 12);
            if division >= 0x8000 {
                Err(MidiFailure::Unsupported(smpte_message()))
            } else if division == 0 {
                Err(MidiFailure::Unsupported(zero_division_message()))
            } else {
                match read_chunks(d, 8 + header_len, Seq::empty()) {
                    Err(e) => Err(e),
                    Ok(notes) => Ok((notes, division)),
                }
            }
        }
    }
}

/// `a` comes strictly after `b` in the output order: later start, or the same
/// start and a lower pitch.
pub open spec fn note_after(a: HeldNote, b: HeldNote) -> bool {
    a.start > b.start || (a.start == b.start && a.pitch < b.pitch)
}

/// Insert `x` into `sorted` after every note that does not come after it.
pub open spec fn insert_note(sorted: Seq<HeldNote>, x: HeldNote) -> Seq<HeldNote>
    decreases sorted.len(),
{
    if sorted.len() > 0 && note_after(sorted.last(), x) {
        insert_note(sorted.drop_last(), x).push(sorted.last())
    } else {
        sorted.push(x)
    }
}

/// The stable sort of `notes` by start tick, higher pitch first on ties.
pub open spec fn sort_notes(notes: Seq<HeldNote>) -> Seq<HeldNote>
    decreases notes.len(),
{
    if notes.len() == 0 {
        Seq::empty()
    } else {
        insert_note(sort_notes(notes.drop_last()), notes.last())
    }
}

/// The target resolution: ticks per quarter note.
pub open spec fn target_tpqn() -> int {
    480
}

/// A tick count rescaled from `tpqn` to 480 ticks per quarter note, kept to 32 bits.
pub open spec fn scale_ticks(t: int, tpqn: int) -> u32 {
    ((t * target_tpqn()) / tpqn) as u32
}

/// `a - b`, or 0 when `b > a`.
pub open spec fn sat_sub(a: int, b: int) -> int {
    if a >= b {
        a - b
    } else {
        0
    }
}

/// The latest end tick among the first `i` notes (0 when `i == 0`).
pub open spec fn end_before(notes: Seq<HeldNote>, i: int) -> int
    decreases i,
{
    if i <= 0 {
        0
    } else {
        let prev = end_before(notes, i - 1);
        let e = notes[i - 1].end;
        if e > prev {
            e
        } else {
            prev
        }
    }
}

/// The output event for note `i`: its rest since every earlier note ended
/// (0 for the first note), and its duration of at least one tick.
pub open spec fn event_for(notes: Seq<HeldNote>, tpqn: int, i: int) -> NoteEvent {
    let n = notes[i];
    let gap: u32 = if i == 0 {
        0
    } else {
        scale_ticks(sat_sub(n.start, end_before(notes, i)), tpqn)
    };
    let dur = scale_ticks(sat_sub(n.end, n.start), tpqn);
    NoteEvent {
        pitch: Pitch(n.pitch),
        velocity: Velocity(n.velocity),
        duration: Duration(
            if dur == 0 {
                1
            } else {
                dur
            },
        ),
        tick_offset: gap,
    }
}

/// The note events for time-ordered `notes`.
pub open spec fn events_from_notes(notes: Seq<HeldNote>, tpqn: int) -> Seq<NoteEvent> {
    Seq::new(notes.len(), |i: int| event_for(notes, tpqn, i))
}

/// The note stream of a Standard MIDI File, or why it cannot be read.
pub open spec fn smf_events(d: Seq<u8>) -> Result<Seq<NoteEvent>, MidiFailure> {
    match smf_notes(d) {
        Err(e) => Err(e),
        Ok((notes, tpqn)) => Ok(events_from_notes(sort_notes(notes), tpqn)),
    }
}


/// No note comes after a note that follows it.
pub open spec fn notes_in_order(s: Seq<HeldNote>) -> bool {
    forall|i: int, j: int| 0 <= i < j < s.len() ==> !note_after(s[i], s[j])
}

proof fn lemma_insert_note(s: Seq<HeldNote>, x: HeldNote)
    requires
        notes_in_order(s),
    ensures
        notes_in_order(insert_note(s, x)),
        insert_note(s, x).to_multiset() =~= s.to_multiset().insert(x),
    decreases s.len(),
{
    broadcast use vstd::seq_lib::group_to_multiset_ensures;

    if s.len() > 0 && note_after(s.last(), x) {
        let s2 = s.drop_last();
        let last = s.last();
        assert(s2.push(last) =~= s);
        lemma_insert_note(s2, x);
        let r2 = insert_note(s2, x);
        let r = r2.push(last);
        assert forall|i: int, j: int| 0 <= i < j < r.len() implies !note_after(r[i], r[j]) by {
            if j == r.len() - 1 {
                let y = r2[i];
                assert(r2.to_multiset().count(y) > 0);
                if y != x {
                    assert(s2.to_multiset().count(y) > 0);
                    assert(s2.contains(y));
                    let k = choose|k: int| 0 <= k < s2.len() && s2[k] == y;
                    assert(s[k] == y);
                }
            } else {
                assert(r[i] == r2[i] && r[j] == r2[j]);
            }
        }
    } else {
        let r = s.push(x);
        assert forall|i: int, j: int| 0 <= i < j < r.len() implies !note_after(r[i], r[j]) by {
            if j == r.len() - 1 && i < s.len() - 1 {
                assert(!note_after(s[i], s[s.len() - 1]));
            }
        }
    }
}

/// The notes of a file come out ordered by start tick (higher pitch first on
/// ties), and no note is lost, duplicated or invented by the ordering.
pub proof fn lemma_sort_notes(notes: Seq<HeldNote>)
    ensures
        notes_in_order(sort_notes(notes)),
        sort_notes(notes).to_multiset() =~= notes.to_multiset(),
    decreases notes.len(),
{
    broadcast use vstd::seq_lib::group_to_multiset_ensures;

    if notes.len() > 0 {
        lemma_sort_notes(notes.drop_last());
        lemma_insert_note(sort_notes(notes.drop_last()), notes.last());
        assert(notes.drop_last().push(notes.last()) =~= notes);
    } else {
        assert(sort_notes(notes) =~= notes);
    }
}

/// Every event read from a file lasts at least one tick, the first event has
/// no rest before it, and there is one event per note the file holds.
pub proof fn lemma_smf_events_shape(d: Seq<u8>)
    ensures
        smf_events(d) matches Ok(events) ==> {
            &&& forall|i: int| 0 <= i < events.len() ==> (#[trigger] events[i]).duration.0 >= 1
            &&& events.len() > 0 ==> events[0].tick_offset == 0
            &&& smf_notes(d) matches Ok((notes, _)) && events.len() == notes.len()
        },
{
    broadcast use vstd::seq_lib::group_to_multiset_ensures;

    if let Ok((notes, tpqn)) = smf_notes(d) {
        lemma_sort_notes(notes);
        let sorted = sort_notes(notes);
        assert(sorted.len() == sorted.to_multiset().len());
    }
}


/// The base-128 digits of `n`, most significant first, with no leading zero
/// (empty for 0).
pub open spec fn base128_digits(n: nat) -> Seq<u8>
    decreases n,
{
    if n == 0 {
        Seq::empty()
    } else {
        base128_digits(n / 128).push((n % 128) as u8)
    }
}

/// The digits a variable-length quantity writes for `n`: at least one.
pub open spec fn vlq_digits(n: nat) -> Seq<u8> {
    if n == 0 {
        seq![0u8]
    } else {
        base128_digits(n)
    }
}

/// The variable-length-quantity encoding of `n`: its base-128 digits, most
/// significant first, with bit 0x80 set on every byte but the last.
pub open spec fn vlq_encode(n: nat) -> Seq<u8> {
    let digits = vlq_digits(n);
    Seq::new(
        digits.len(),
        |i: int|
            if i < digits.len() - 1 {
                (digits[i] + 128) as u8
            } else {
                digits[i]
            },
    )
}

/// The number a sequence of base-128 digits denotes, most significant first.
pub open spec fn digits_value(digits: Seq<u8>) -> int
    decreases digits.len(),
{
    if digits.len() == 0 {
        0
    } else {
        digits_value(digits.drop_last()) * 128 + digits.last()
    }
}

/// 128 to the power `k`.
pub open spec fn pow128(k: nat) -> nat
    decreases k,
{
    if k == 0 {
        1
    } else {
        128 * pow128((k - 1) as nat)
    }
}

proof fn lemma_base128_digits(n: nat, k: nat)
    requires
        n < pow128(k),
    ensures
        base128_digits(n).len() <= k,
        digits_value(base128_digits(n)) == n,
        forall|i: int| 0 <= i < base128_digits(n).len() ==> base128_digits(n)[i] < 128,
    decreases n,
{
    if n > 0 {
        let q = n / 128;
        assert(k > 0);
        let b = pow128((k - 1) as nat);
        assert(q < b) by (nonlinear_arith)
            requires
                n < 128 * b,
                q == n / 128,
        ;
        lemma_base128_digits(q, (k - 1) as nat);
        let ds = base128_digits(n);
        assert(ds.drop_last() =~= base128_digits(q));
        assert(q * 128 + n % 128 == n);
    }
}

proof fn lemma_vlq_digits(n: nat)
    requires
        n < 0x1000_0000,
    ensures
        1 <= vlq_digits(n).len() <= 4,
        digits_value(vlq_digits(n)) == n,
        forall|i: int| 0 <= i < vlq_digits(n).len() ==> vlq_digits(n)[i] < 128,
{
    reveal_with_fuel(pow128, 5);
    assert(pow128(4) == 0x1000_0000);
    lemma_base128_digits(n, 4);
    if n == 0 {
        assert(digits_value(seq![0u8]) == digits_value(seq![0u8].drop_last()) * 128 + 0);
        assert(seq![0u8].drop_last() =~= Seq::<u8>::empty());
    }
}

proof fn lemma_vlq_read_encoded(d: Seq<u8>, p: int, n: nat, k: int)
    requires
        n < 0x1000_0000,
        0 <= p,
        p + vlq_encode(n).len() <= d.len(),
        forall|i: int| 0 <= i < vlq_encode(n).len() ==> d[p + i] == vlq_encode(n)[i],
        0 <= k < vlq_encode(n).len(),
    ensures
        vlq_from(d, p + k, digits_value(vlq_digits(n).take(k)), k as nat) == Ok::<
            (int, int),
            MidiFailure,
        >((n as int, p + vlq_encode(n).len())),
    decreases vlq_encode(n).len() - k,
{
    lemma_vlq_digits(n);
    let ds = vlq_digits(n);
    let e = vlq_encode(n);
    let b = d[p + k];
    assert(b == e[k]);
    assert(ds[k] < 128);
    assert(b % 128 == ds[k]);
    let acc = digits_value(ds.take(k));
    assert(ds.take(k + 1).drop_last() =~= ds.take(k));
    assert(ds.take(k + 1).last() == ds[k]);
    assert(acc * 128 + b % 128 == digits_value(ds.take(k + 1)));
    if k == e.len() - 1 {
        assert(ds.take(k + 1) =~= ds);
    } else {
        assert(b >= 128);
        lemma_vlq_read_encoded(d, p, n, k + 1);
    }
}

/// Reading a variable-length quantity gives back what was written: for any
/// `n` below 2^28, the encoding of `n`, wherever it stands and whatever
/// follows it, reads as `n` and ends just after the encoding, which is one to
/// four bytes long.
pub proof fn lemma_vlq_round_trip(pre: Seq<u8>, n: nat, rest: Seq<u8>)
    requires
        n < 0x1000_0000,
    ensures
        1 <= vlq_encode(n).len() <= 4,
        read_vlq(pre + vlq_encode(n) + rest, pre.len() as int) == Ok::<(int, int), MidiFailure>(
            (n as int, (pre.len() + vlq_encode(n).len()) as int),
        ),
{
    lemma_vlq_digits(n);
    let d = pre + vlq_encode(n) + rest;
    let p = pre.len() as int;
    assert forall|i: int| 0 <= i < vlq_encode(n).len() implies d[p + i] == vlq_encode(n)[i] by {}
    assert(vlq_digits(n).take(0) =~= Seq::<u8>::empty());
    lemma_vlq_read_encoded(d, p, n, 0);
}

/// Four bytes in a row with the continuation bit set are refused as too long.
pub proof fn lemma_vlq_too_long(d: Seq<u8>, p: int)
    requires
        0 <= p,
        p + 4 <= d.len(),
        forall|i: int| p <= i < p + 4 ==> d[i] >= 128,
    ensures
        read_vlq(d, p) == Err::<(int, int), MidiFailure>(
            MidiFailure::Unsupported(vlq_too_long_message()),
        ),
{
    assert(d[p] >= 128);
    assert(d[p + 1] >= 128);
    assert(d[p + 2] >= 128);
    assert(d[p + 3] >= 128);
    reveal_with_fuel(vlq_from, 5);
}

/// Bytes that end while every byte read still has the continuation bit set,
/// before four have been read, are reported as truncated.
pub proof fn lemma_vlq_truncated(d: Seq<u8>, p: int)
    requires
        0 <= p <= d.len() < p + 4,
        forall|i: int| p <= i < d.len() ==> d[i] >= 128,
    ensures
        read_vlq(d, p) == Err::<(int, int), MidiFailure>(MidiFailure::Truncated),
{
    reveal_with_fuel(vlq_from, 5);
    if p < d.len() {
        assert(d[p] >= 128);
    }
    if p + 1 < d.len() {
        assert(d[p + 1] >= 128);
    }
    if p + 2 < d.len() {
        assert(d[p + 2] >= 128);
    }
}

} // verus!
