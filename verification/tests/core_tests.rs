use musician_soul::evolution::{names_soul, spawns_variant};
use musician_soul::analysis::{levenshtein, HuronContour};
use musician_soul::{
    parse_midi_events, split_phrases, Duration, NoteEvent, Phrase, Pitch, Velocity,
};

fn make_note(pitch: u8, vel: u8, dur: u32, offset: u32) -> NoteEvent {
    NoteEvent {
        pitch: Pitch(pitch),
        velocity: Velocity(vel),
        duration: Duration(dur),
        tick_offset: offset,
    }
}

fn miles_phrase() -> Phrase {
    Phrase {
        events: vec![
            make_note(62, 80, 480, 0),
            make_note(65, 70, 240, 240),
            make_note(67, 90, 960, 120),
            make_note(65, 60, 240, 480),
            make_note(62, 85, 480, 0),
        ],
        source: "milesttes2_chorus3".to_string(),
        instrument: "trumpet".to_string(),
    }
}

fn coltrane_phrase() -> Phrase {
    Phrase {
        events: vec![
            make_note(60, 100, 120, 0),
            make_note(62, 95, 120, 0),
            make_note(64, 100, 120, 0),
            make_note(65, 105, 120, 0),
            make_note(67, 110, 120, 0),
            make_note(69, 100, 120, 0),
            make_note(71, 95, 120, 0),
            make_note(72, 100, 120, 0),
            make_note(74, 110, 240, 0),
        ],
        source: "coltrane_giant_steps_solo".to_string(),
        instrument: "tenor_sax".to_string(),
    }
}

fn monk_phrase() -> Phrase {
    Phrase {
        events: vec![
            make_note(60, 120, 240, 0),
            make_note(72, 100, 240, 960),
            make_note(63, 115, 120, 0),
            make_note(55, 90, 480, 240),
        ],
        source: "monk_straight_no_chaser".to_string(),
        instrument: "piano".to_string(),
    }
}

fn ph(pitches: &[u8]) -> Phrase {
    let events = pitches
        .iter()
        .map(|&p| NoteEvent {
            pitch: Pitch(p),
            velocity: Velocity(80),
            duration: Duration(240),
            tick_offset: 0,
        })
        .collect();
    Phrase {
        events,
        source: "t".into(),
        instrument: "t".into(),
    }
}

#[test]
fn velocity_dynamics() {
    assert_eq!(Velocity(30).dynamic_mark(), "pp");
    assert_eq!(Velocity(80).dynamic_mark(), "mf");
    assert_eq!(Velocity(120).dynamic_mark(), "ff");
}

#[test]
fn phrase_intervals() {
    let p = miles_phrase();
    let intervals = p.intervals();
    assert_eq!(intervals.len(), 4);
    assert_eq!(intervals[0], 3);
}

#[test]
fn coltrane_dense() {
    let p = coltrane_phrase();
    assert!(p.len() > 6);
    assert!(p.register_span() > 10, "Coltrane uses wide range");
}

#[test]
fn monk_angular() {
    let p = monk_phrase();
    let intervals = p.intervals();
    let max_leap = intervals.iter().map(|i| i.abs()).max().unwrap_or(0);
    assert!(max_leap > 10, "Monk makes big unexpected leaps");
}

#[test]
fn split_phrases_at_rests() {
    let events = vec![
        make_note(60, 80, 240, 0),
        make_note(62, 80, 240, 0),
        make_note(64, 80, 240, 960),
        make_note(65, 80, 240, 0),
    ];
    let phrases = split_phrases(&events, "piano", "test");
    assert_eq!(phrases.len(), 2);
    assert_eq!(phrases[0].events.len(), 2);
    assert_eq!(phrases[1].events.len(), 2);
}

#[test]
fn parsons_basic() {
    assert_eq!(ph(&[60, 62, 64, 62, 62]).parsons_code(), "*UUDR");
    assert_eq!(ph(&[]).parsons_code(), "");
    assert_eq!(ph(&[60]).parsons_code(), "*");
}

#[test]
fn parsons_is_transposition_invariant() {
    assert_eq!(
        ph(&[60, 64, 67]).parsons_code(),
        ph(&[48, 52, 55]).parsons_code()
    );
}

#[test]
fn huron_ascending_and_arch() {
    assert_eq!(
        ph(&[60, 62, 64, 66]).huron_contour(),
        HuronContour::Ascending
    );
    assert_eq!(
        ph(&[60, 66, 72, 66, 60]).huron_contour(),
        HuronContour::ConvexArch
    );
    assert_eq!(ph(&[72, 66, 60]).huron_contour(), HuronContour::Descending);
    assert_eq!(
        ph(&[72, 60, 72]).huron_contour(),
        HuronContour::ConcaveValley
    );
    assert_eq!(ph(&[60]).huron_contour(), HuronContour::Undefined);
}

#[test]
fn levenshtein_sanity() {
    assert_eq!(levenshtein(&[1, 2, 3], &[1, 2, 3]), 0);
    assert_eq!(levenshtein(&[1, 2, 3], &[1, 9, 3]), 1);
    assert_eq!(levenshtein(&[], &[1, 2]), 2);
}

// ── further cases ──

#[test]
fn pitch_helpers() {
    assert_eq!(Pitch(60).midi_note(), 60);
    assert_eq!(Pitch(60).octave(), 4);
    assert_eq!(Pitch(0).octave(), -1);
    assert_eq!(Pitch(11).octave(), -1);
    assert_eq!(Pitch(12).octave(), 0);
    assert_eq!(Pitch(127).octave(), 9);
    // Read as a signed byte, 200 is -56: -56 / 12 truncates to -4.
    assert_eq!(Pitch(200).octave(), -5);
    assert_eq!(Pitch(61).note_class(), 1);
    assert_eq!(Pitch(71).note_class(), 11);
}

#[test]
fn every_dynamic_mark_boundary() {
    assert_eq!(Velocity(0).dynamic_mark(), "pp");
    assert_eq!(Velocity(31).dynamic_mark(), "pp");
    assert_eq!(Velocity(32).dynamic_mark(), "mp");
    assert_eq!(Velocity(63).dynamic_mark(), "mp");
    assert_eq!(Velocity(64).dynamic_mark(), "mf");
    assert_eq!(Velocity(95).dynamic_mark(), "mf");
    assert_eq!(Velocity(96).dynamic_mark(), "f");
    assert_eq!(Velocity(111).dynamic_mark(), "f");
    assert_eq!(Velocity(112).dynamic_mark(), "ff");
    assert_eq!(Velocity(127).dynamic_mark(), "ff");
}

#[test]
fn duration_lengths() {
    assert!(Duration(480).is_long());
    assert!(!Duration(479).is_long());
    assert!(Duration(240).is_short());
    assert!(!Duration(241).is_short());
}

#[test]
fn intervals_and_span_of_small_phrases() {
    assert!(ph(&[]).intervals().is_empty());
    assert!(ph(&[60]).intervals().is_empty());
    assert_eq!(ph(&[60, 48, 72]).intervals(), vec![-12, 24]);
    assert_eq!(ph(&[]).register_span(), 0);
    assert_eq!(ph(&[64]).register_span(), 0);
    assert_eq!(ph(&[60, 48, 72]).register_span(), 24);
    assert!(ph(&[]).is_empty());
    assert_eq!(monk_phrase().len(), 4);
}

#[test]
fn parse_midi_events_builds_events() {
    let events = parse_midi_events(&[(60, 80, 480, 0), (64, 90, 240, 120)]);
    assert_eq!(events.len(), 2);
    assert_eq!(events[1].pitch, Pitch(64));
    assert_eq!(events[1].velocity, Velocity(90));
    assert_eq!(events[1].duration, Duration(240));
    assert_eq!(events[1].tick_offset, 120);
}

#[test]
fn split_keeps_every_event_in_order() {
    let events = vec![
        make_note(60, 80, 240, 960), // a leading rest does not open an empty phrase
        make_note(62, 80, 240, 480), // exactly a quarter: same phrase
        make_note(64, 80, 240, 481), // just over: new phrase
    ];
    let phrases = split_phrases(&events, "sax", "s");
    assert_eq!(phrases.len(), 2);
    assert_eq!(phrases[0].events.len(), 2);
    assert_eq!(phrases[1].events[0].pitch, Pitch(64));
    assert_eq!(phrases[1].source, "s");
    assert_eq!(phrases[1].instrument, "sax");
    assert!(split_phrases(&[], "sax", "s").is_empty());
}

#[test]
fn parsons_letters() {
    assert_eq!(ph(&[60, 60, 59, 61]).parsons_code(), "*RDU");
    assert_eq!(ph(&[60, 62]).parsons_code().len(), 2);
}

#[test]
fn huron_horizontal_classes() {
    assert_eq!(ph(&[60, 60, 60]).huron_contour(), HuronContour::Horizontal);
    // mean 60.5: within half a semitone of the first, below the last.
    assert_eq!(
        ph(&[60, 60, 60, 62]).huron_contour(),
        HuronContour::HorizontalAscending
    );
    assert_eq!(
        ph(&[62, 62, 62, 60]).huron_contour(),
        HuronContour::HorizontalDescending
    );
    assert_eq!(
        ph(&[60, 62, 62, 62]).huron_contour(),
        HuronContour::AscendingHorizontal
    );
    assert_eq!(
        ph(&[63, 62, 62, 62]).huron_contour(),
        HuronContour::DescendingHorizontal
    );
}

#[test]
fn levenshtein_laws_on_values() {
    let a = [1i8, 5, -3, 7];
    let b = [5i8, -3, 8];
    assert_eq!(levenshtein(&a, &a), 0);
    assert_eq!(levenshtein(&a, &b), levenshtein(&b, &a));
    assert_eq!(levenshtein(&a, &b), 2);
    assert_eq!(levenshtein(&a, &[]), 4);
    assert!(levenshtein(&a, &b) <= 4);
}

#[test]
fn evolution_thresholds() {
    assert!(!spawns_variant(0, 5));
    assert!(spawns_variant(0, 6));
    assert!(!spawns_variant(1, 100));
    assert!(!names_soul(false, 10));
    assert!(names_soul(false, 11));
    assert!(!names_soul(true, 50));
}
