use musician_soul::analysis::{interval_bucket, transition_counts, HuronContour, N_BUCKETS};
use musician_soul::midi::parse_smf;
use musician_soul::{split_phrases, Duration, NoteEvent, Phrase, Pitch, Velocity};

fn ph(pitches: &[u8]) -> Phrase {
    let events = pitches
        .iter()
        .map(|&p| NoteEvent {
            pitch: Pitch(p),
            velocity: Velocity(80),
            duration: Duration(240),
            tick_offset: 0,
        })
        .collect();
    Phrase {
        events,
        source: "t".into(),
        instrument: "t".into(),
    }
}

fn timed(notes: &[(u32, u32)]) -> Phrase {
    Phrase {
        events: notes
            .iter()
            .map(|&(dur, gap)| NoteEvent {
                pitch: Pitch(60),
                velocity: Velocity(80),
                duration: Duration(dur),
                tick_offset: gap,
            })
            .collect(),
        source: "s".into(),
        instrument: "t".into(),
    }
}

#[test]
fn syncopation_sum_on_and_off_the_beat() {
    let on = timed(&[(480, 0), (480, 0), (480, 0), (480, 0)]);
    assert_eq!(on.syncopation_sum(), 0);
    // Onsets on slots 2, 6 and 10: the empty quarter (4) and half bar (8)
    // after them are stronger by 1 and 2.
    let off = timed(&[(240, 240), (240, 240), (240, 240)]);
    assert_eq!(off.syncopation_sum(), 3);
    assert_eq!(ph(&[60]).syncopation_sum(), 0);
    assert_eq!(ph(&[]).syncopation_sum(), 0);
}

#[test]
fn syncopation_wraps_around_the_bar() {
    // Onsets on slots 14 and 2 of the next bar: the empty downbeat lies between.
    let p = timed(&[(240, 1680), (240, 240)]);
    assert_eq!(p.syncopation_sum(), 4 - 1);
}

#[test]
fn pitch_class_counts_cover_every_note() {
    let counts = ph(&[60, 62, 64, 60, 72]).pitch_class_counts();
    assert_eq!(counts.len(), 12);
    assert_eq!(counts[0], 3);
    assert_eq!(counts[2], 1);
    assert_eq!(counts[4], 1);
    assert_eq!(counts.iter().sum::<usize>(), 5);
    assert!(ph(&[]).pitch_class_counts().iter().all(|&c| c == 0));
}

#[test]
fn interval_buckets_clamp_to_an_octave() {
    assert_eq!(interval_bucket(-20), 0);
    assert_eq!(interval_bucket(-12), 0);
    assert_eq!(interval_bucket(0), 12);
    assert_eq!(interval_bucket(7), 19);
    assert_eq!(interval_bucket(12), 24);
    assert_eq!(interval_bucket(100), 24);
}

#[test]
fn transition_table_counts_steps_with_smoothing() {
    let corpus = vec![ph(&[60, 62, 64, 66, 68]), ph(&[50, 52, 54, 56, 58])];
    let t = transition_counts(&corpus);
    assert_eq!(t.len(), N_BUCKETS * N_BUCKETS);
    // +2 followed by +2: three times in each phrase, plus one for smoothing.
    assert_eq!(t[14 * 25 + 14], 7);
    assert_eq!(t[14 * 25 + 13], 1);
    assert_eq!(t.iter().map(|&c| c as u64).sum::<u64>(), 625 + 6);
    let empty = transition_counts(&[]);
    assert!(empty.iter().all(|&c| c == 1));
}

#[test]
fn huron_is_transposition_invariant_on_values() {
    for shape in [&[60u8, 62, 64, 66][..], &[60, 66, 72, 66, 60], &[60, 60, 60, 62]] {
        let up: Vec<u8> = shape.iter().map(|p| p + 5).collect();
        assert_eq!(ph(shape).huron_contour(), ph(&up).huron_contour());
    }
    assert_eq!(ph(&[]).huron_contour(), HuronContour::Undefined);
}

#[test]
fn transposed_phrase_has_the_same_intervals() {
    assert_eq!(ph(&[60, 64, 62]).intervals(), ph(&[70, 74, 72]).intervals());
}

#[test]
fn splitting_keeps_the_stream_intact() {
    let events: Vec<NoteEvent> = [0u32, 100, 500, 0, 481, 480, 2000]
        .iter()
        .enumerate()
        .map(|(i, &gap)| NoteEvent {
            pitch: Pitch(60 + i as u8),
            velocity: Velocity(70),
            duration: Duration(120),
            tick_offset: gap,
        })
        .collect();
    let phrases = split_phrases(&events, "bass", "b");
    let flat: Vec<NoteEvent> = phrases.iter().flat_map(|p| p.events.clone()).collect();
    assert_eq!(flat, events);
    assert_eq!(phrases.len(), 4);
    for (k, p) in phrases.iter().enumerate() {
        assert!(!p.events.is_empty());
        if k > 0 {
            assert!(p.events[0].tick_offset > 480);
        }
        assert!(p.events[1..].iter().all(|e| e.tick_offset <= 480));
    }
}

#[test]
fn notes_from_several_tracks_are_merged_in_time_order() {
    fn track(events: &[u8]) -> Vec<u8> {
        let mut t = Vec::new();
        t.extend_from_slice(b"MTrk");
        t.extend_from_slice(&(events.len() as u32).to_be_bytes());
        t.extend_from_slice(events);
        t
    }
    let mut smf = Vec::new();
    smf.extend_from_slice(b"MThd");
    smf.extend_from_slice(&6u32.to_be_bytes());
    smf.extend_from_slice(&[0, 1, 0, 2, 1, 224]);
    // Track 1: a note at tick 480 for 240 ticks.
    smf.extend(track(&[0x83, 0x60, 0x90, 72, 90, 0x81, 0x70, 0x80, 72, 0]));
    // Track 2: a note at tick 0 for 240 ticks.
    smf.extend(track(&[0x00, 0x91, 48, 60, 0x81, 0x70, 0x81, 48, 0]));
    let events = parse_smf(&smf).expect("parse");
    assert_eq!(events.len(), 2);
    assert_eq!(events[0].pitch.0, 48);
    assert_eq!(events[1].pitch.0, 72);
    assert_eq!(events[1].tick_offset, 240);
    assert!(events.iter().all(|e| e.duration.0 >= 1));
}
