use zygdrum::midi::{choose_port, contains_text, parse_midi, port_label, preferred_port, MidiMsg};
use zygdrum::notes::{drum_for_semitone, key_to_semitone};

#[test]
fn notes_and_controllers_are_read() {
    assert_eq!(parse_midi(&[0x90, 60, 100]), Some(MidiMsg::NoteOn { ch: 0, note: 60, vel: 100 }));
    assert_eq!(parse_midi(&[0x9F, 1, 0]), Some(MidiMsg::NoteOn { ch: 15, note: 1, vel: 0 }));
    assert_eq!(parse_midi(&[0xB3, 74, 127, 9]), Some(MidiMsg::Cc { ch: 3, cc: 74, value: 127 }));
}

#[test]
fn other_messages_are_not_read() {
    assert_eq!(parse_midi(&[]), None);
    assert_eq!(parse_midi(&[0x90, 60]), None);
    assert_eq!(parse_midi(&[0x80, 60, 100]), None);
    assert_eq!(parse_midi(&[0xE0, 0, 64]), None);
    assert_eq!(parse_midi(&[0xF8, 0, 0]), None);
}

#[test]
fn the_channel_does_not_change_the_kind() {
    for ch in 0..16u8 {
        assert_eq!(parse_midi(&[0x90 + ch, 5, 6]), Some(MidiMsg::NoteOn { ch, note: 5, vel: 6 }));
        assert_eq!(parse_midi(&[0xB0 + ch, 5, 6]), Some(MidiMsg::Cc { ch, cc: 5, value: 6 }));
        assert_eq!(parse_midi(&[0xC0 + ch, 5, 6]), None);
    }
}

fn names(list: &[Option<&str>]) -> Vec<Option<String>> {
    list.iter().map(|n| n.map(|s| s.to_string())).collect()
}

#[test]
fn the_first_preferred_port_is_chosen() {
    assert_eq!(preferred_port(&names(&[])), None);
    assert_eq!(preferred_port(&names(&[None])), Some(0));
    assert_eq!(preferred_port(&names(&[Some("through"), Some("x digitakt y")])), Some(1));
    assert_eq!(preferred_port(&names(&[Some("a"), None, Some("elektron"), Some("digitakt")])), Some(2));
    assert_eq!(preferred_port(&names(&[Some("DIGITAKT")])), Some(0));
    assert_eq!(preferred_port(&names(&[Some("a"), Some("DIGITAKT")])), Some(0));
}

#[test]
fn ports_are_compared_in_lower_case() {
    assert_eq!(choose_port(&names(&[Some("Midi Through"), Some("Elektron Digitakt MIDI 1")])), Some(1));
    assert_eq!(choose_port(&names(&[Some("Midi Through"), None, Some("ELEKTRON")])), Some(2));
    assert_eq!(choose_port(&names(&[Some("Midi Through"), Some("Keystation")])), Some(0));
    assert_eq!(choose_port(&names(&[])), None);
}

#[test]
fn port_labels() {
    assert_eq!(port_label(Some("Digitakt".to_string())), "Digitakt");
    assert_eq!(port_label(None), "midi");
}

#[test]
fn text_is_found_anywhere() {
    assert!(contains_text("abcabd", "abd"));
    assert!(contains_text("abc", ""));
    assert!(contains_text("", ""));
    assert!(!contains_text("abc", "abcd"));
    assert!(!contains_text("", "a"));
    assert!(contains_text("aab", "ab"));
}

#[test]
fn notes_play_drums_in_every_octave() {
    for octave in -3..11 {
        assert_eq!(drum_for_semitone(12 * octave), Some(0));
        assert_eq!(drum_for_semitone(12 * octave + 2), Some(1));
        assert_eq!(drum_for_semitone(12 * octave + 4), Some(2));
        for other in [1, 3, 5, 6, 7, 8, 9, 10, 11] {
            assert_eq!(drum_for_semitone(12 * octave + other), None);
        }
    }
    assert_eq!(drum_for_semitone(-8), Some(2));
    assert_eq!(drum_for_semitone(i32::MIN), Some(2));
}

#[test]
fn keys_are_laid_out_like_a_piano() {
    let keys = "awsedftgyhujk";
    for (i, c) in keys.chars().enumerate() {
        assert_eq!(key_to_semitone(c), Some(i as i32));
    }
    assert_eq!(key_to_semitone('m'), None);
    assert_eq!(key_to_semitone('A'), None);
    assert_eq!(key_to_semitone('1'), None);
}
