use musician_soul::midi::{parse_smf, phrases_from_smf, MidiError};

/// Build a minimal format-0 SMF in memory so tests need no fixture files.
fn build_smf(div: u16, track: &[u8]) -> Vec<u8> {
    let mut out = Vec::new();
    out.extend_from_slice(b"MThd");
    out.extend_from_slice(&6u32.to_be_bytes());
    out.extend_from_slice(&0u16.to_be_bytes());
    out.extend_from_slice(&1u16.to_be_bytes());
    out.extend_from_slice(&div.to_be_bytes());
    out.extend_from_slice(b"MTrk");
    out.extend_from_slice(&(track.len() as u32).to_be_bytes());
    out.extend_from_slice(track);
    out
}

/// Encode a delta-time as a MIDI variable-length quantity.
fn vlq(mut n: u32) -> Vec<u8> {
    let mut buf = vec![(n & 0x7f) as u8];
    n >>= 7;
    while n > 0 {
        buf.push(((n & 0x7f) as u8) | 0x80);
        n >>= 7;
    }
    buf.reverse();
    buf
}

fn note_on(delta: u32, pitch: u8, vel: u8) -> Vec<u8> {
    let mut v = vlq(delta);
    v.extend_from_slice(&[0x90, pitch, vel]);
    v
}

fn note_off(delta: u32, pitch: u8) -> Vec<u8> {
    let mut v = vlq(delta);
    v.extend_from_slice(&[0x80, pitch, 0]);
    v
}

const END_OF_TRACK: [u8; 4] = [0x00, 0xff, 0x2f, 0x00];

#[test]
fn rejects_non_smf() {
    assert_eq!(parse_smf(b"not midi at all"), Err(MidiError::NotSmf));
}

#[test]
fn empty_input_is_not_smf() {
    assert_eq!(parse_smf(&[]), Err(MidiError::NotSmf));
}

#[test]
fn parses_two_sequential_notes() {
    let mut track = Vec::new();
    track.extend(note_on(0, 60, 100));
    track.extend(note_off(480, 60));
    track.extend(note_on(0, 64, 90));
    track.extend(note_off(240, 64));
    track.extend_from_slice(&END_OF_TRACK);
    let smf = build_smf(480, &track);

    let events = parse_smf(&smf).expect("parse");
    assert_eq!(events.len(), 2);
    assert_eq!(events[0].pitch.0, 60);
    assert_eq!(events[0].velocity.0, 100);
    assert_eq!(events[0].duration.0, 480);
    assert_eq!(events[0].tick_offset, 0);
    assert_eq!(events[1].pitch.0, 64);
    assert_eq!(events[1].duration.0, 240);
    assert_eq!(events[1].tick_offset, 0);
}

#[test]
fn computes_rest_gap_between_notes() {
    let mut track = Vec::new();
    track.extend(note_on(0, 60, 100));
    track.extend(note_off(480, 60));
    track.extend(note_on(480, 64, 90));
    track.extend(note_off(240, 64));
    track.extend_from_slice(&END_OF_TRACK);
    let events = parse_smf(&build_smf(480, &track)).expect("parse");
    assert_eq!(events.len(), 2);
    assert_eq!(events[1].tick_offset, 480);
}

#[test]
fn rescales_division_to_480() {
    let mut track = Vec::new();
    track.extend(note_on(0, 60, 100));
    track.extend(note_off(96, 60));
    track.extend_from_slice(&END_OF_TRACK);
    let events = parse_smf(&build_smf(96, &track)).expect("parse");
    assert_eq!(events.len(), 1);
    assert_eq!(events[0].duration.0, 480);
    assert!(events[0].duration.is_long());
}

#[test]
fn note_on_velocity_zero_is_note_off() {
    let mut track = Vec::new();
    track.extend(note_on(0, 62, 80));
    track.extend(note_on(240, 62, 0));
    track.extend_from_slice(&END_OF_TRACK);
    let events = parse_smf(&build_smf(480, &track)).expect("parse");
    assert_eq!(events.len(), 1);
    assert_eq!(events[0].duration.0, 240);
}

#[test]
fn handles_running_status() {
    let mut track = Vec::new();
    track.extend_from_slice(&[0x00, 0x90, 60, 100]);
    track.extend_from_slice(&[0x00, 64, 100]);
    track.extend_from_slice(&[0x81, 0x70, 0x80, 60, 0]);
    track.extend_from_slice(&[0x00, 0x80, 64, 0]);
    track.extend_from_slice(&END_OF_TRACK);
    let events = parse_smf(&build_smf(480, &track)).expect("parse");
    assert_eq!(events.len(), 2);
    assert!(events.iter().any(|e| e.pitch.0 == 60));
    assert!(events.iter().any(|e| e.pitch.0 == 64));
    assert_eq!(events[1].tick_offset, 0);
}

#[test]
fn skips_meta_and_program_change() {
    let mut track = Vec::new();
    track.extend_from_slice(&[0x00, 0xff, 0x03, 0x02, b'H', b'i']);
    track.extend_from_slice(&[0x00, 0xc0, 0x38]);
    track.extend(note_on(0, 67, 90));
    track.extend(note_off(480, 67));
    track.extend_from_slice(&END_OF_TRACK);
    let events = parse_smf(&build_smf(480, &track)).expect("parse");
    assert_eq!(events.len(), 1);
    assert_eq!(events[0].pitch.0, 67);
}

#[test]
fn phrases_from_smf_splits_on_long_rest() {
    let mut track = Vec::new();
    track.extend(note_on(0, 60, 80));
    track.extend(note_off(240, 60));
    track.extend(note_on(0, 62, 80));
    track.extend(note_off(240, 62));
    track.extend(note_on(960, 64, 80));
    track.extend(note_off(240, 64));
    track.extend(note_on(0, 65, 80));
    track.extend(note_off(240, 65));
    track.extend_from_slice(&END_OF_TRACK);
    let phrases =
        phrases_from_smf(&build_smf(480, &track), "piano", "test.mid").expect("parse");
    assert_eq!(phrases.len(), 2);
    assert_eq!(phrases[0].instrument, "piano");
    assert_eq!(phrases[0].source, "test.mid");
}

#[test]
fn truncated_header_errors_gracefully() {
    assert_eq!(parse_smf(b"MThd\x00\x00\x00"), Err(MidiError::Truncated));
}

#[test]
fn truncated_track_body_errors_gracefully() {
    let mut smf = Vec::new();
    smf.extend_from_slice(b"MThd");
    smf.extend_from_slice(&6u32.to_be_bytes());
    smf.extend_from_slice(&0u16.to_be_bytes());
    smf.extend_from_slice(&1u16.to_be_bytes());
    smf.extend_from_slice(&480u16.to_be_bytes());
    smf.extend_from_slice(b"MTrk");
    smf.extend_from_slice(&100u32.to_be_bytes());
    smf.extend_from_slice(&[0x00, 0x90, 60]);
    assert_eq!(parse_smf(&smf), Err(MidiError::Truncated));
}

// ── further cases ──

#[test]
fn smpte_division_is_unsupported() {
    let smf = build_smf(0xe728, &END_OF_TRACK);
    assert_eq!(
        parse_smf(&smf),
        Err(MidiError::Unsupported("SMPTE timecode division".to_string()))
    );
}

#[test]
fn zero_division_is_unsupported() {
    let smf = build_smf(0, &END_OF_TRACK);
    assert_eq!(
        parse_smf(&smf),
        Err(MidiError::Unsupported("zero ticks-per-quarter".to_string()))
    );
}

#[test]
fn short_header_length_is_truncated() {
    let mut smf = Vec::new();
    smf.extend_from_slice(b"MThd");
    smf.extend_from_slice(&5u32.to_be_bytes());
    smf.extend_from_slice(&[0, 0, 0, 1, 1, 224]);
    assert_eq!(parse_smf(&smf), Err(MidiError::Truncated));
}

#[test]
fn unknown_status_is_reported_in_hex() {
    let smf = build_smf(480, &[0x00, 0xf4, 0x00]);
    assert_eq!(
        parse_smf(&smf),
        Err(MidiError::Unsupported("status 0xf4".to_string()))
    );
}

#[test]
fn overlong_delta_time_is_unsupported() {
    let smf = build_smf(480, &[0x81, 0x81, 0x81, 0x81, 0x00]);
    assert_eq!(
        parse_smf(&smf),
        Err(MidiError::Unsupported(
            "variable-length quantity too long".to_string()
        ))
    );
}

#[test]
fn data_byte_without_running_status_is_truncated() {
    let smf = build_smf(480, &[0x00, 0x40, 0x40]);
    assert_eq!(parse_smf(&smf), Err(MidiError::Truncated));
}

#[test]
fn header_only_file_has_no_events() {
    let mut smf = Vec::new();
    smf.extend_from_slice(b"MThd");
    smf.extend_from_slice(&6u32.to_be_bytes());
    smf.extend_from_slice(&[0, 0, 0, 0, 1, 224]);
    assert_eq!(parse_smf(&smf), Ok(vec![]));
    // A few trailing bytes that cannot hold a chunk id are ignored.
    smf.extend_from_slice(&[0, 0]);
    assert_eq!(parse_smf(&smf), Ok(vec![]));
}

#[test]
fn unknown_chunks_are_skipped() {
    let mut smf = build_smf(480, &END_OF_TRACK);
    smf.extend_from_slice(b"XFIH");
    smf.extend_from_slice(&2u32.to_be_bytes());
    smf.extend_from_slice(&[1, 2]);
    let mut track = Vec::new();
    track.extend(note_on(0, 70, 64));
    track.extend(note_off(120, 70));
    smf.extend_from_slice(b"MTrk");
    smf.extend_from_slice(&(track.len() as u32).to_be_bytes());
    smf.extend_from_slice(&track);
    let events = parse_smf(&smf).expect("parse");
    assert_eq!(events.len(), 1);
    assert_eq!(events[0].pitch.0, 70);
    assert_eq!(events[0].duration.0, 120);
}

#[test]
fn chord_comes_out_higher_pitch_first_and_open_notes_end_with_track() {
    let mut track = Vec::new();
    track.extend(note_on(0, 60, 100));
    track.extend(note_on(0, 67, 100));
    // No note-offs: both notes end when the track ends, 960 ticks later.
    track.extend(vlq(960));
    track.extend_from_slice(&[0xff, 0x2f, 0x00]);
    let events = parse_smf(&build_smf(480, &track)).expect("parse");
    assert_eq!(events.len(), 2);
    assert_eq!(events[0].pitch.0, 67);
    assert_eq!(events[1].pitch.0, 60);
    assert_eq!(events[0].duration.0, 960);
    assert_eq!(events[1].tick_offset, 0);
}

#[test]
fn zero_length_note_lasts_one_tick() {
    let mut track = Vec::new();
    track.extend(note_on(0, 60, 100));
    track.extend(note_off(0, 60));
    track.extend_from_slice(&END_OF_TRACK);
    let events = parse_smf(&build_smf(480, &track)).expect("parse");
    assert_eq!(events[0].duration.0, 1);
}

#[test]
fn error_messages() {
    assert_eq!(
        MidiError::NotSmf.message(),
        "not a Standard MIDI File (missing MThd header)"
    );
    assert_eq!(MidiError::Truncated.message(), "MIDI data ended unexpectedly");
    assert_eq!(
        MidiError::Unsupported("status 0xf4".to_string()).message(),
        "unsupported MIDI construct: status 0xf4"
    );
}

#[test]
fn phrases_from_smf_passes_errors_through() {
    assert_eq!(
        phrases_from_smf(b"RIFF", "piano", "x.mid").err(),
        Some(MidiError::NotSmf)
    );
}

#[test]
fn vlq_round_trips_through_the_reader() {
    for n in [0u32, 1, 127, 128, 240, 16_383, 16_384, 2_097_151, 0x0FFF_FFFF] {
        let mut track = Vec::new();
        track.extend(note_on(0, 60, 100));
        track.extend(note_off(0, 60));
        track.extend(note_on(n, 62, 100));
        track.extend(note_off(1, 62));
        let events = parse_smf(&build_smf(480, &track)).expect("parse");
        assert_eq!(events.len(), 2);
        // The second note starts n ticks after the first one ended.
        assert_eq!(events[1].tick_offset, n);
    }
    // A truncated quantity: the bytes end while the continuation bit is set.
    assert_eq!(
        parse_smf(&build_smf(480, &[0x81, 0x81])),
        Err(MidiError::Truncated)
    );
}
