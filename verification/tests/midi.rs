use bpm_object::midi::{
    parse_midi, tempo_map_from_smf, MidiError, SmfContents, SmfEvent, SmfEventKind, SmfTiming,
    TempoChange, TempoMap,
};

fn seconds(map: &TempoMap, time: u128) -> f64 {
    time as f64 / (map.ticks_per_quarter as f64 * 1_000_000.0)
}

fn bpm(micros_per_quarter: u32) -> f64 {
    60_000_000.0 / micros_per_quarter as f64
}

fn ev(delta: u32, kind: SmfEventKind) -> SmfEvent {
    SmfEvent { delta, kind }
}

#[test]
fn parses_tempo_map_and_last_event_time() {
    let midi = [
        b"MThd".as_slice(),
        &[0, 0, 0, 6, 0, 1, 0, 2, 1, 224],
        b"MTrk".as_slice(),
        &[0, 0, 0, 28],
        &[
            0x00, 0xff, 0x58, 0x04, 0x03, 0x02, 0x18, 0x08, 0x00, 0xff, 0x51, 0x03, 0x07, 0xa1,
            0x20, 0x83, 0x60, 0xff, 0x51, 0x03, 0x03, 0xd0, 0x90, 0x83, 0x60, 0xff, 0x2f, 0x00,
        ],
        b"MTrk".as_slice(),
        &[0, 0, 0, 13],
        &[
            0x00, 0x90, 0x3c, 0x40, 0x87, 0x40, 0x80, 0x3c, 0x00, 0x00, 0xff, 0x2f, 0x00,
        ],
    ]
    .concat();

    let map = parse_midi(&midi).unwrap();

    assert_eq!(map.tempos.len(), 2);
    assert_eq!(seconds(&map, map.tempos[0].time), 0.0);
    assert_eq!(bpm(map.tempos[0].micros_per_quarter), 120.0);
    assert_eq!(map.tempos[0].beat, 3);
    assert_eq!(bpm(map.tempos[1].micros_per_quarter), 240.0);
    assert_eq!(map.tempos[1].beat, 3);
    assert!((seconds(&map, map.tempos[1].time) - 0.5).abs() < 0.000_001);
    assert!((seconds(&map, map.end_time) - 0.75).abs() < 0.000_001);
}

#[test]
fn parse_midi_exact_values() {
    let midi = [
        b"MThd".as_slice(),
        &[0, 0, 0, 6, 0, 1, 0, 2, 1, 224],
        b"MTrk".as_slice(),
        &[0, 0, 0, 28],
        &[
            0x00, 0xff, 0x58, 0x04, 0x03, 0x02, 0x18, 0x08, 0x00, 0xff, 0x51, 0x03, 0x07, 0xa1,
            0x20, 0x83, 0x60, 0xff, 0x51, 0x03, 0x03, 0xd0, 0x90, 0x83, 0x60, 0xff, 0x2f, 0x00,
        ],
        b"MTrk".as_slice(),
        &[0, 0, 0, 13],
        &[
            0x00, 0x90, 0x3c, 0x40, 0x87, 0x40, 0x80, 0x3c, 0x00, 0x00, 0xff, 0x2f, 0x00,
        ],
    ]
    .concat();
    let map = parse_midi(&midi).unwrap();
    assert_eq!(map.ticks_per_quarter, 480);
    assert_eq!(
        map.tempos,
        vec![
            TempoChange { tick: 0, time: 0, micros_per_quarter: 500_000, beat: 3 },
            TempoChange { tick: 480, time: 240_000_000, micros_per_quarter: 250_000, beat: 3 },
        ]
    );
    assert_eq!(map.end_time, 360_000_000);
}

#[test]
fn parse_midi_rejects_garbage() {
    assert_eq!(parse_midi(b"not a midi file").unwrap_err(), MidiError::Malformed);
    assert_eq!(parse_midi(&[]).unwrap_err(), MidiError::Malformed);
}

#[test]
fn parse_midi_rejects_timecode() {
    let midi = [
        b"MThd".as_slice(),
        &[0, 0, 0, 6, 0, 0, 0, 1, 0xe7, 0x28],
        b"MTrk".as_slice(),
        &[0, 0, 0, 4],
        &[0x00, 0xff, 0x2f, 0x00],
    ]
    .concat();
    assert_eq!(parse_midi(&midi).unwrap_err(), MidiError::TimecodeUnsupported);
}

#[test]
fn tempo_map_without_changes_is_default() {
    let contents = SmfContents {
        timing: SmfTiming::Metrical(96),
        tracks: vec![vec![ev(10, SmfEventKind::Other), ev(86, SmfEventKind::Other)]],
    };
    let map = tempo_map_from_smf(&contents).unwrap();
    assert_eq!(
        map.tempos,
        vec![TempoChange { tick: 0, time: 0, micros_per_quarter: 500_000, beat: 4 }]
    );
    assert_eq!(map.end_time, 96 * 500_000);
    assert_eq!(seconds(&map, map.end_time), 0.5);
}

#[test]
fn tempo_map_of_timecode_contents() {
    let contents = SmfContents { timing: SmfTiming::Timecode, tracks: vec![] };
    assert_eq!(tempo_map_from_smf(&contents).unwrap_err(), MidiError::TimecodeUnsupported);
}

#[test]
fn tempo_map_orders_changes_of_all_tracks_by_tick() {
    // Track 0 changes the tempo at tick 200; track 1 changes the beat at tick 100.
    let contents = SmfContents {
        timing: SmfTiming::Metrical(100),
        tracks: vec![
            vec![ev(200, SmfEventKind::Tempo(250_000)), ev(100, SmfEventKind::Other)],
            vec![ev(100, SmfEventKind::TimeSignature(3))],
        ],
    };
    let map = tempo_map_from_smf(&contents).unwrap();
    assert_eq!(
        map.tempos,
        vec![
            TempoChange { tick: 0, time: 0, micros_per_quarter: 500_000, beat: 4 },
            TempoChange { tick: 100, time: 50_000_000, micros_per_quarter: 500_000, beat: 3 },
            TempoChange { tick: 200, time: 100_000_000, micros_per_quarter: 250_000, beat: 3 },
        ]
    );
    assert_eq!(map.end_time, 100_000_000 + 100 * 250_000);
}

#[test]
fn tempo_map_equal_ticks_keep_track_order() {
    // Both tracks set a tempo at tick 50: the later track's tempo is the one in force.
    let contents = SmfContents {
        timing: SmfTiming::Metrical(10),
        tracks: vec![
            vec![ev(50, SmfEventKind::Tempo(400_000))],
            vec![ev(50, SmfEventKind::Tempo(600_000))],
        ],
    };
    let map = tempo_map_from_smf(&contents).unwrap();
    assert_eq!(map.tempos.len(), 2);
    assert_eq!(map.tempos[1], TempoChange { tick: 50, time: 25_000_000, micros_per_quarter: 600_000, beat: 4 });
    assert_eq!(map.end_time, 25_000_000);
}

#[test]
fn tempo_map_change_and_back_within_a_tick_still_counts() {
    let contents = SmfContents {
        timing: SmfTiming::Metrical(10),
        tracks: vec![vec![
            ev(5, SmfEventKind::Tempo(400_000)),
            ev(0, SmfEventKind::Tempo(500_000)),
            ev(5, SmfEventKind::Tempo(500_000)),
        ]],
    };
    let map = tempo_map_from_smf(&contents).unwrap();
    // The group at tick 5 altered the tempo on the way, so it gets an entry;
    // the group at tick 10 changes nothing and gets none.
    assert_eq!(
        map.tempos,
        vec![
            TempoChange { tick: 0, time: 0, micros_per_quarter: 500_000, beat: 4 },
            TempoChange { tick: 5, time: 2_500_000, micros_per_quarter: 500_000, beat: 4 },
        ]
    );
    assert_eq!(map.end_time, 5_000_000);
}

#[test]
fn tempo_map_changes_at_tick_zero_replace_the_start() {
    let contents = SmfContents {
        timing: SmfTiming::Metrical(480),
        tracks: vec![vec![ev(0, SmfEventKind::Tempo(600_000)), ev(0, SmfEventKind::TimeSignature(6))]],
    };
    let map = tempo_map_from_smf(&contents).unwrap();
    assert_eq!(
        map.tempos,
        vec![TempoChange { tick: 0, time: 0, micros_per_quarter: 600_000, beat: 6 }]
    );
    assert_eq!(map.end_time, 0);
}

#[test]
fn tempo_map_saturates_ticks() {
    let contents = SmfContents {
        timing: SmfTiming::Metrical(1),
        tracks: vec![vec![ev(u32::MAX, SmfEventKind::Other); 3]],
    };
    let map = tempo_map_from_smf(&contents).unwrap();
    assert_eq!(map.end_time, 3 * u32::MAX as u128 * 500_000);
}
