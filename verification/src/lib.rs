//! # musician-soul (verified core)
//!
//! The integer heart of a musician persona library: MIDI primitives, phrases,
//! phrase splitting, melodic-contour analysis and a bounds-checked Standard
//! MIDI File parser, each stated exactly by its contract.

use vstd::prelude::*;

pub mod analysis;
pub mod evolution;
pub mod midi;
pub mod midi_format;

verus! {

/// Ticks per quarter note in this crate's timing convention.
pub const TICKS_PER_QUARTER: u32 = 480;

/// Ticks per eighth note.
pub const TICKS_PER_EIGHTH: u32 = 240;

/// A MIDI pitch (0-127) with semantic meaning.
#[derive(Debug, Clone, Copy, PartialEq, Eq, Hash, Structural)]
pub struct Pitch(pub u8);

/// Rust's truncating division of `a` by a positive `b`.
pub open spec fn trunc_div(a: int, b: int) -> int {
    if a >= 0 {
        a / b
    } else {
        -((-a) / b)
    }
}

/// The value a byte has when read as a two's-complement `i8`.
pub open spec fn as_signed(b: u8) -> int {
    if b < 128 {
        b as int
    } else {
        b - 256
    }
}

impl Pitch {
    /// The raw MIDI note number.
    pub fn midi_note(&self) -> (r: u8)
        ensures
            r == self.0,
    {
        self.0
    }

    /// The octave number in scientific pitch notation (middle C = 60 is octave 4).
    ///
    /// The note number is read as a signed byte, exactly as `self.0 as i8`.
    pub fn octave(&self) -> (r: i8)
        ensures
            r == trunc_div(as_signed(self.0), 12) - 1,
    {
        if self.0 < 128 {
            (self.0 / 12) as i8 - 1
        } else {
            let neg: u8 = (256u16 - self.0 as u16) as u8;
            -((neg / 12) as i8) - 1
        }
    }

    /// The pitch class: C = 0, C# = 1, ..., B = 11.
    pub fn note_class(&self) -> (r: u8)
        ensures
            r == self.0 % 12,
            r < 12,
    {
        self.0 % 12
    }
}

/// Velocity (0-127).
#[derive(Debug, Clone, Copy, PartialEq, Eq, Structural)]
pub struct Velocity(pub u8);

/// The dynamic marking for a velocity value.
pub open spec fn dynamic_mark_spec(v: u8) -> Seq<char> {
    if v <= 31 {
        "pp"@
    } else if v <= 63 {
        "mp"@
    } else if v <= 95 {
        "mf"@
    } else if v <= 111 {
        "f"@
    } else {
        "ff"@
    }
}

impl Velocity {
    /// The conventional dynamic marking: pp, mp, mf, f or ff.
    pub fn dynamic_mark(&self) -> (r: &'static str)
        ensures
            r@ == dynamic_mark_spec(self.0),
    {
        if self.0 <= 31 {
            "pp"
        } else if self.0 <= 63 {
            "mp"
        } else if self.0 <= 95 {
            "mf"
        } else if self.0 <= 111 {
            "f"
        } else {
            "ff"
        }
    }
}

/// Duration in MIDI ticks (480 ticks per quarter note).
#[derive(Debug, Clone, Copy, PartialEq, Eq, Structural)]
pub struct Duration(pub u32);

impl Duration {
    /// True if this is a "long" note (at least a quarter note).
    pub fn is_long(&self) -> (r: bool)
        ensures
            r == (self.0 >= TICKS_PER_QUARTER),
    {
        self.0 >= TICKS_PER_QUARTER
    }

    /// True if this is a "short" note (at most an eighth note).
    pub fn is_short(&self) -> (r: bool)
        ensures
            r == (self.0 <= TICKS_PER_EIGHTH),
    {
        self.0 <= TICKS_PER_EIGHTH
    }
}


/// A single MIDI note event.
#[derive(Debug, Clone, Copy, PartialEq, Eq, Structural)]
pub struct NoteEvent {
    pub pitch: Pitch,
    pub velocity: Velocity,
    pub duration: Duration,
    /// Ticks of rest since the previous event.
    pub tick_offset: u32,
}

/// A musical phrase: a sequence of note events with metadata.
#[derive(Debug, Clone)]
pub struct Phrase {
    pub events: Vec<NoteEvent>,
    /// Where the phrase came from, e.g. "milesttes2_chorus3".
    pub source: String,
    /// The instrument that played it, e.g. "trumpet".
    pub instrument: String,
}

/// The melodic interval from `a` to `b`, pitches read as signed bytes.
pub open spec fn interval_spec(a: NoteEvent, b: NoteEvent) -> int {
    as_signed(b.pitch.0) - as_signed(a.pitch.0)
}

/// Every interval between consecutive events fits in an `i8`.
pub open spec fn intervals_fit(events: Seq<NoteEvent>) -> bool {
    forall|i: int|
        0 <= i < events.len() - 1 ==> -128 <= #[trigger] interval_spec(events[i], events[i + 1])
            <= 127
}

/// The interval sequence of a run of events (one fewer than the events).
pub open spec fn intervals_spec(events: Seq<NoteEvent>) -> Seq<int> {
    if events.len() == 0 {
        Seq::empty()
    } else {
        Seq::new((events.len() - 1) as nat, |i: int| interval_spec(events[i], events[i + 1]))
    }
}

/// Highest pitch of a run of events (0 when empty).
pub open spec fn max_pitch(events: Seq<NoteEvent>) -> u8
    decreases events.len(),
{
    if events.len() == 0 {
        0
    } else {
        let rest = max_pitch(events.drop_last());
        let p = events.last().pitch.0;
        if events.len() == 1 || p > rest {
            p
        } else {
            rest
        }
    }
}

/// Lowest pitch of a run of events (0 when empty).
pub open spec fn min_pitch(events: Seq<NoteEvent>) -> u8
    decreases events.len(),
{
    if events.len() == 0 {
        0
    } else {
        let rest = min_pitch(events.drop_last());
        let p = events.last().pitch.0;
        if events.len() == 1 || p < rest {
            p
        } else {
            rest
        }
    }
}

proof fn lemma_min_le_max(events: Seq<NoteEvent>)
    ensures
        min_pitch(events) <= max_pitch(events),
    decreases events.len(),
{
    if events.len() > 1 {
        lemma_min_le_max(events.drop_last());
    }
}

/// The highest and lowest pitch of a run are the pitches of some of its notes,
/// and every note lies between them; so the register span bounds the distance
/// between any two notes and is attained by one pair. An empty run has both 0.
pub proof fn lemma_register_span_extremes(events: Seq<NoteEvent>)
    ensures
        events.len() == 0 ==> max_pitch(events) == 0 && min_pitch(events) == 0,
        forall|i: int|
            0 <= i < events.len() ==> min_pitch(events) <= #[trigger] events[i].pitch.0 <= max_pitch(
                events,
            ),
        events.len() > 0 ==> exists|i: int|
            0 <= i < events.len() && #[trigger] events[i].pitch.0 == max_pitch(events),
        events.len() > 0 ==> exists|j: int|
            0 <= j < events.len() && #[trigger] events[j].pitch.0 == min_pitch(events),
        forall|i: int, j: int|
            0 <= i < events.len() && 0 <= j < events.len() ==> #[trigger] events[i].pitch.0
                - #[trigger] events[j].pitch.0 <= max_pitch(events) - min_pitch(events),
        events.len() > 0 ==> exists|i: int, j: int|
            0 <= i < events.len() && 0 <= j < events.len() && #[trigger] events[i].pitch.0
                - #[trigger] events[j].pitch.0 == max_pitch(events) - min_pitch(events),
    decreases events.len(),
{
    if events.len() > 0 {
        let rest = events.drop_last();
        let n = events.len() as int;
        lemma_register_span_extremes(rest);
        assert forall|i: int| 0 <= i < n - 1 implies events[i] == #[trigger] rest[i] by {}
        let hi_i: int = if n == 1 || events.last().pitch.0 > max_pitch(rest) {
            n - 1
        } else {
            choose|i: int| 0 <= i < rest.len() && #[trigger] rest[i].pitch.0 == max_pitch(rest)
        };
        let lo_i: int = if n == 1 || events.last().pitch.0 < min_pitch(rest) {
            n - 1
        } else {
            choose|j: int| 0 <= j < rest.len() && #[trigger] rest[j].pitch.0 == min_pitch(rest)
        };
        assert(events[hi_i].pitch.0 == max_pitch(events));
        assert(events[lo_i].pitch.0 == min_pitch(events));
        assert forall|i: int| 0 <= i < n implies min_pitch(events) <= #[trigger] events[i].pitch.0
            <= max_pitch(events) by {
            if i < n - 1 {
                assert(rest[i].pitch.0 == events[i].pitch.0);
            }
        }
        assert(events[hi_i].pitch.0 - events[lo_i].pitch.0 == max_pitch(events) - min_pitch(events));
    }
}

impl Phrase {
    /// The pitch contour as a sequence of intervals in semitones.
    pub fn intervals(&self) -> (r: Vec<i8>)
        requires
            intervals_fit(self.events@),
        ensures
            r@.len() == intervals_spec(self.events@).len(),
            forall|i: int| 0 <= i < r@.len() ==> r@[i] == intervals_spec(self.events@)[i],
    {
        let mut r: Vec<i8> = Vec::new();
        let n = self.events.len();
        if n == 0 {
            return r;
        }
        let mut i: usize = 1;
        while i < n
            invariant
                1 <= i <= n,
                n == self.events@.len(),
                intervals_fit(self.events@),
                r@.len() == i - 1,
                forall|k: int| 0 <= k < r@.len() ==> r@[k] == intervals_spec(self.events@)[k],
            decreases n - i,
        {
            let a = self.events[i - 1].pitch.0;
            let b = self.events[i].pitch.0;
            let sa: i16 = if a < 128 { a as i16 } else { a as i16 - 256 };
            let sb: i16 = if b < 128 { b as i16 } else { b as i16 - 256 };
            assert(-128 <= interval_spec(self.events@[i - 1], self.events@[i - 1 + 1]) <= 127);
            let d: i16 = sb - sa;
            r.push(d as i8);
            i = i + 1;
        }
        r
    }

    /// Register span: highest minus lowest pitch (0 for an empty phrase).
    pub fn register_span(&self) -> (r: u8)
        ensures
            r == max_pitch(self.events@) - min_pitch(self.events@),
    {
        let n = self.events.len();
        let mut hi: u8 = 0;
        let mut lo: u8 = 0;
        let mut i: usize = 0;
        while i < n
            invariant
                i <= n,
                n == self.events@.len(),
                hi == max_pitch(self.events@.take(i as int)),
                lo == min_pitch(self.events@.take(i as int)),
            decreases n - i,
        {
            let p = self.events[i].pitch.0;
            if i == 0 || p > hi {
                hi = p;
            }
            if i == 0 || p < lo {
                lo = p;
            }
            assert(self.events@.take(i + 1).drop_last() =~= self.events@.take(i as int));
            i = i + 1;
        }
        assert(self.events@.take(n as int) =~= self.events@);
        proof {
            lemma_min_le_max(self.events@);
        }
        hi - lo
    }

    /// Number of notes.
    pub fn len(&self) -> (r: usize)
        ensures
            r == self.events@.len(),
    {
        self.events.len()
    }

    /// True when the phrase has no notes.
    pub fn is_empty(&self) -> (r: bool)
        ensures
            r == (self.events@.len() == 0),
    {
        self.events.len() == 0
    }
}

/// The note event described by a `(pitch, velocity, duration, offset)` tuple.
pub open spec fn event_of_tuple(t: (u8, u8, u32, u32)) -> NoteEvent {
    NoteEvent {
        pitch: Pitch(t.0),
        velocity: Velocity(t.1),
        duration: Duration(t.2),
        tick_offset: t.3,
    }
}

/// Build note events from `(pitch, velocity, duration, offset)` tuples.
pub fn parse_midi_events(raw: &[(u8, u8, u32, u32)]) -> (r: Vec<NoteEvent>)
    ensures
        r@.len() == raw@.len(),
        forall|i: int| 0 <= i < raw@.len() ==> r@[i] == event_of_tuple(#[trigger] raw@[i]),
{
    let mut r: Vec<NoteEvent> = Vec::new();
    let mut i: usize = 0;
    while i < raw.len()
        invariant
            i <= raw@.len(),
            r@.len() == i,
            forall|k: int| 0 <= k < i ==> r@[k] == event_of_tuple(#[trigger] raw@[k]),
        decreases raw@.len() - i,
    {
        let (pitch, vel, dur, offset) = raw[i];
        r.push(NoteEvent {
            pitch: Pitch(pitch),
            velocity: Velocity(vel),
            duration: Duration(dur),
            tick_offset: offset,
        });
        i = i + 1;
    }
    r
}

/// A rest longer than this many ticks starts a new phrase.
pub const PHRASE_BREAK_TICKS: u32 = 480;

/// `groups` is the split of `events` into phrases at rests longer than a
/// quarter note: the groups concatenate back to `events`, none is empty,
/// every group after the first opens with such a rest, and no other event
/// in a group is preceded by one.
pub open spec fn is_phrase_split(events: Seq<NoteEvent>, groups: Seq<Seq<NoteEvent>>) -> bool {
    &&& groups.flatten() == events
    &&& forall|k: int| 0 <= k < groups.len() ==> #[trigger] groups[k].len() > 0
    &&& forall|k: int| 0 < k < groups.len() ==> #[trigger] groups[k][0].tick_offset > PHRASE_BREAK_TICKS
    &&& forall|k: int, j: int|
        0 <= k < groups.len() && 0 < j < groups[k].len() ==> #[trigger] groups[k][j].tick_offset
            <= PHRASE_BREAK_TICKS
}

/// The event runs of a list of phrases.
pub open spec fn phrase_events(phrases: Seq<Phrase>) -> Seq<Seq<NoteEvent>> {
    phrases.map_values(|p: Phrase| p.events@)
}

/// Split events into phrases at rest boundaries (rests longer than a quarter note).
pub fn split_phrases(events: &[NoteEvent], instrument: &str, source: &str) -> (r: Vec<Phrase>)
    ensures
        is_phrase_split(events@, phrase_events(r@)),
        forall|k: int|
            0 <= k < r@.len() ==> (#[trigger] r@[k]).source@ == source@ && r@[k].instrument@
                == instrument@,
{
    broadcast use Seq::lemma_flatten_push;

    let mut phrases: Vec<Phrase> = Vec::new();
    let mut current: Vec<NoteEvent> = Vec::new();
    let n = events.len();
    let mut i: usize = 0;
    while i < n
        invariant
            i <= n,
            n == events@.len(),
            i == 0 ==> phrases@.len() == 0 && current@.len() == 0,
            i > 0 ==> is_phrase_split(
                events@.take(i as int),
                phrase_events(phrases@).push(current@),
            ),
            forall|k: int|
                0 <= k < phrases@.len() ==> (#[trigger] phrases@[k]).source@ == source@
                    && phrases@[k].instrument@ == instrument@,
        decreases n - i,
    {
        let e = events[i];
        let ghost before = phrase_events(phrases@);
        let ghost cur_before = current@;
        let ghost split = e.tick_offset > PHRASE_BREAK_TICKS && current.len() > 0;
        if e.tick_offset > PHRASE_BREAK_TICKS && current.len() > 0 {
            let done = current;
            current = Vec::new();
            let ghost done_events = done@;
            phrases.push(Phrase { events: done, source: source.to_string(), instrument: instrument.to_string() });
            assert(phrase_events(phrases@) =~= before.push(done_events));
        }
        current.push(e);
        proof {
            let p = phrase_events(phrases@);
            let groups = p.push(current@);
            assert(events@.take(i + 1) =~= events@.take(i as int).push(e));
            p.lemma_flatten_push(current@);
            if i == 0 {
                assert(p =~= Seq::<Seq<NoteEvent>>::empty());
                assert(p.flatten() =~= Seq::<NoteEvent>::empty());
                assert(current@ =~= seq![e]);
                assert(groups.flatten() =~= events@.take(i + 1));
            } else if split {
                before.lemma_flatten_push(cur_before);
                assert(p =~= before.push(cur_before));
                assert(current@ =~= seq![e]);
                assert(groups.flatten() =~= events@.take(i + 1));
                assert forall|k: int| 0 < k < groups.len() implies #[trigger] groups[k][0].tick_offset > PHRASE_BREAK_TICKS by {
                    if k < groups.len() - 1 {
                        assert(groups[k] == before.push(cur_before)[k]);
                    }
                }
                assert forall|k: int, j: int|
                    0 <= k < groups.len() && 0 < j < groups[k].len() implies #[trigger] groups[k][j].tick_offset
                        <= PHRASE_BREAK_TICKS by {
                    if k < groups.len() - 1 {
                        assert(groups[k] == before.push(cur_before)[k]);
                    }
                }
            } else {
                assert(p == before);
                before.lemma_flatten_push(cur_before);
                assert(current@ =~= cur_before.push(e));
                assert(groups.flatten() =~= events@.take(i + 1));
                assert forall|k: int, j: int|
                    0 <= k < groups.len() && 0 < j < groups[k].len() implies #[trigger] groups[k][j].tick_offset
                        <= PHRASE_BREAK_TICKS by {
                    if k < groups.len() - 1 {
                        assert(groups[k] == before.push(cur_before)[k]);
                    } else if j < groups[k].len() - 1 {
                        assert(groups[k][j] == before.push(cur_before)[k][j]);
                    }
                }
                assert forall|k: int| 0 < k < groups.len() implies #[trigger] groups[k][0].tick_offset > PHRASE_BREAK_TICKS by {
                    let old_groups = before.push(cur_before);
                    if k < groups.len() - 1 {
                        assert(groups[k] == old_groups[k]);
                    } else {
                        assert(old_groups[k] == cur_before);
                        assert(cur_before.len() > 0);
                        assert(groups[k][0] == cur_before[0]);
                    }
                }
            }
            assert forall|k: int| 0 <= k < groups.len() implies #[trigger] groups[k].len() > 0 by {
                if k < groups.len() - 1 {
                    assert(groups[k] == p[k]);
                    let old_groups = before.push(cur_before);
                    if split {
                        assert(p[k] == old_groups[k]);
                        assert(old_groups[k].len() > 0);
                    } else {
                        assert(p[k] == before[k]);
                        assert(old_groups[k] == before[k]);
                        assert(old_groups[k].len() > 0);
                    }
                }
            }
            assert(is_phrase_split(events@.take(i + 1), groups));
        }
        i = i + 1;
    }
    if n > 0 {
        assert(phrase_events(phrases@).push(current@)[phrase_events(phrases@).len() as int] == current@);
    }
    if current.len() > 0 {
        let ghost before = phrase_events(phrases@);
        let ghost cur = current@;
        phrases.push(Phrase { events: current, source: source.to_string(), instrument: instrument.to_string() });
        assert(phrase_events(phrases@) =~= before.push(cur));
        assert(phrase_events(phrases@).flatten() == events@.take(n as int));
    } else {
        assert(n == 0);
        assert(phrase_events(phrases@) =~= Seq::<Seq<NoteEvent>>::empty());
        assert(Seq::<Seq<NoteEvent>>::empty().flatten() =~= Seq::<NoteEvent>::empty());
        assert(events@ =~= Seq::<NoteEvent>::empty());
    }
    assert(events@.take(n as int) =~= events@);
    phrases
}


/// Dropping the last phrase of a split leaves a split of the events before it.
proof fn lemma_phrase_split_drop_last(events: Seq<NoteEvent>, groups: Seq<Seq<NoteEvent>>)
    requires
        is_phrase_split(events, groups),
        groups.len() > 0,
    ensures
        events.len() >= groups.last().len() > 0,
        events.skip(events.len() - groups.last().len()) == groups.last(),
        is_phrase_split(
            events.take(events.len() - groups.last().len()),
            groups.drop_last(),
        ),
        groups.len() == 1 <==> events.len() == groups.last().len(),
{
    let init = groups.drop_last();
    let last = groups.last();
    init.lemma_flatten_push(last);
    assert(init.push(last) =~= groups);
    let p = init.flatten().len() as int;
    assert(events =~= init.flatten() + last);
    assert(events.take(p) =~= init.flatten());
    assert(events.skip(p) =~= last);
    assert(groups[groups.len() - 1].len() > 0);
    assert forall|k: int| 0 <= k < init.len() implies #[trigger] init[k].len() > 0 by {
        assert(init[k] == groups[k]);
    }
    assert forall|k: int| 0 < k < init.len() implies #[trigger] init[k][0].tick_offset > PHRASE_BREAK_TICKS by {
        assert(init[k] == groups[k]);
    }
    assert forall|k: int, j: int|
        0 <= k < init.len() && 0 < j < init[k].len() implies #[trigger] init[k][j].tick_offset
            <= PHRASE_BREAK_TICKS by {
        assert(init[k] == groups[k]);
    }
    if groups.len() > 1 {
        let i2 = init.drop_last();
        i2.lemma_flatten_push(init.last());
        assert(i2.push(init.last()) =~= init);
        assert(init[init.len() - 1].len() > 0);
    } else {
        assert(init =~= Seq::<Seq<NoteEvent>>::empty());
        assert(init.flatten() =~= Seq::<NoteEvent>::empty());
    }
}

/// Splitting into phrases is deterministic: only one grouping of a run of
/// events meets `is_phrase_split`, so `split_phrases`' contract fixes its result.
pub proof fn lemma_phrase_split_unique(
    events: Seq<NoteEvent>,
    g1: Seq<Seq<NoteEvent>>,
    g2: Seq<Seq<NoteEvent>>,
)
    requires
        is_phrase_split(events, g1),
        is_phrase_split(events, g2),
    ensures
        g1 == g2,
    decreases events.len(),
{
    if g1.len() == 0 || g2.len() == 0 {
        if g1.len() > 0 {
            lemma_phrase_split_drop_last(events, g1);
        }
        if g2.len() > 0 {
            lemma_phrase_split_drop_last(events, g2);
        }
        assert(g1.len() == 0 && g2.len() == 0) by {
            if g1.len() == 0 {
                assert(g1.flatten() =~= Seq::<NoteEvent>::empty());
            }
            if g2.len() == 0 {
                assert(g2.flatten() =~= Seq::<NoteEvent>::empty());
            }
        }
        assert(g1 =~= g2);
    } else {
        lemma_phrase_split_drop_last(events, g1);
        lemma_phrase_split_drop_last(events, g2);
        let n = events.len() as int;
        let p1 = n - g1.last().len();
        let p2 = n - g2.last().len();
        assert(p1 == p2) by {
            if p1 < p2 {
                // p2 starts a later phrase in g2, but lies inside g1's last phrase.
                assert(g2.len() > 1);
                assert(g2[g2.len() - 1][0] == events[p2]);
                assert(events[p2] == g1.last()[p2 - p1]);
                assert(g1[g1.len() - 1][p2 - p1].tick_offset <= PHRASE_BREAK_TICKS);
            } else if p2 < p1 {
                assert(g1.len() > 1);
                assert(g1[g1.len() - 1][0] == events[p1]);
                assert(events[p1] == g2.last()[p1 - p2]);
                assert(g2[g2.len() - 1][p1 - p2].tick_offset <= PHRASE_BREAK_TICKS);
            }
        }
        lemma_phrase_split_unique(events.take(p1), g1.drop_last(), g2.drop_last());
        assert(g1 =~= g1.drop_last().push(g1.last()));
        assert(g2 =~= g2.drop_last().push(g2.last()));
    }
}


/// Transposing a phrase (every pitch moved by the same amount, all staying
/// below 128) leaves its interval sequence unchanged.
pub proof fn lemma_intervals_transposition_invariant(
    a: Seq<NoteEvent>,
    b: Seq<NoteEvent>,
    shift: int,
)
    requires
        a.len() == b.len(),
        forall|i: int| 0 <= i < a.len() ==> b[i].pitch.0 == a[i].pitch.0 + shift,
        forall|i: int| 0 <= i < a.len() ==> a[i].pitch.0 < 128 && b[i].pitch.0 < 128,
    ensures
        intervals_spec(a) == intervals_spec(b),
{
    if a.len() > 0 {
        assert forall|i: int| 0 <= i < a.len() - 1 implies #[trigger] interval_spec(a[i], a[i + 1]) == interval_spec(
            b[i],
            b[i + 1],
        ) by {
            assert(b[i].pitch.0 == a[i].pitch.0 + shift);
            assert(b[i + 1].pitch.0 == a[i + 1].pitch.0 + shift);
        }
        assert(intervals_spec(a) =~= intervals_spec(b));
    }
}

} // verus!
