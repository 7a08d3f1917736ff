use zygdrum::ccmap::load_cc_map;
use zygdrum::controls::{bits_for_level, control_name, level_for_bits, BIT_LEVELS};
use zygdrum::geometry::Rect;
use zygdrum::midi::MidiMsg;
use zygdrum::panel::keys::{handle_key, Key, KeyPress};
use zygdrum::panel::mouse::{cell_at, handle_mouse, Mouse};
use zygdrum::panel::screen::{draw, layout, Percents, Screen, Span, Tone};
use zygdrum::panel::{redraw_due, select_id, App, Effect};

const KIT: [[f32; 9]; 3] = [
    [0.18, 0.10, 0.20, 0.70, 0.55, 0.65, 0.45, 0.10, 0.10],
    [0.42, 0.25, 0.40, 0.60, 0.20, 0.70, 0.25, 0.70, 0.50],
    [0.72, 0.45, 0.60, 0.20, 0.00, 0.50, 0.12, 0.60, 0.80],
];

fn bits(v: f32) -> u32 {
    v.to_bits()
}

fn new_app() -> App {
    App::start(None, "Digitakt".to_string())
}

fn press(app: &mut App, key: Key) -> Effect {
    handle_key(app, KeyPress { key, ctrl: false, pressed: true }, bits(2.0))
}

fn percents() -> Percents {
    Percents { drive: "0".to_string(), volume: "70".to_string() }
}

fn texts(line: &[Span]) -> String {
    line.iter().map(|s| s.text.as_str()).collect()
}

fn level(app: &App, id: usize) -> f32 {
    f32::from_bits(app.control_norm(id))
}

fn hit(drum: usize, velocity: f32) -> Effect {
    Effect::Play { drum, velocity: bits(velocity) }
}

#[test]
fn control_names_are_distinct() {
    assert_eq!(control_name(0), "KICK Tune");
    assert_eq!(control_name(17), "SNARE Tone");
    assert_eq!(control_name(20), "HIHAT FM");
    assert_eq!(control_name(27), "Drive");
    assert_eq!(control_name(28), "Bits");
    assert_eq!(control_name(29), "Volume");
    for a in 0..30 {
        for b in 0..a {
            assert_ne!(control_name(a), control_name(b));
        }
    }
}

#[test]
fn levels_are_spread_over_the_bit_settings() {
    for value in 0..=255u8 {
        let n = value as f32 / 127.0;
        assert_eq!(bits_for_level(bits(n)), (n.clamp(0.0, 1.0) * 5.0).round() as usize);
    }
    for (n, idx) in [(0.0, 0), (0.09, 0), (0.1, 1), (0.5, 3), (1.0, 5), (7.0, 5), (-3.0, 0), (-0.0, 0)] {
        assert_eq!(bits_for_level(bits(n)), idx);
    }
    assert_eq!(bits_for_level(bits(f32::NAN)), 0);
    assert_eq!(bits_for_level(bits(f32::INFINITY)), 5);
    for idx in 0..6 {
        assert_eq!(f32::from_bits(level_for_bits(idx)), idx as f32 / 5.0);
        assert_eq!(bits_for_level(level_for_bits(idx)), idx);
    }
}

#[test]
fn a_control_reads_back_as_it_was_set_and_no_other_moves() {
    for id in 0..30 {
        let mut app = new_app();
        let before: Vec<f32> = (0..30).map(|i| level(&app, i)).collect();
        app.set_norm(id, bits(0.8));
        for other in 0..30 {
            assert_eq!(level(&app, other), if other == id { 0.8 } else { before[other] });
        }
    }
}

#[test]
fn setting_a_control_to_its_level_changes_nothing() {
    let mut app = new_app();
    app.set_norm(28, bits(0.41));
    assert_eq!(level(&app, 28), 0.4);
    for id in 0..30 {
        let before = app.control_norm(id);
        app.set_norm(id, before);
        assert_eq!(app.control_norm(id), before);
    }
}

#[test]
fn levels_are_kept_in_range() {
    let mut app = new_app();
    for id in [0, 13, 26, 27, 28, 29] {
        app.set_norm(id, bits(1.5));
        assert_eq!(level(&app, id), 1.0);
        app.set_norm(id, bits(-0.05));
        assert_eq!(level(&app, id), 0.0);
        app.set_norm(id, bits(f32::INFINITY));
        assert_eq!(level(&app, id), 1.0);
    }
}

#[test]
fn the_start_of_a_panel() {
    let app = new_app();
    assert_eq!(app.cur_id(), 0);
    assert_eq!(app.bit_levels(), 0);
    assert_eq!(level(&app, 29), 0.7);
    assert_eq!(level(&app, 28), 0.0);
    assert_eq!(level(&app, 27), 0.0);
    assert_eq!(app.bindings_text(), "");
    for drum in 0..3 {
        assert_eq!(app.params(drum).p.map(f32::from_bits), KIT[drum]);
        assert!(!app.flashes(drum, bits(0.0)));
        assert!(!app.flashes(drum, bits(0.1)));
    }
}

#[test]
fn saved_bindings_are_there_at_the_start() {
    let mut app = App::start(Some("7,29\n8,30\n"), "no device".to_string());
    assert_eq!(app.bindings_text(), "7,29\n");
    let msg = MidiMsg::Cc { ch: 0, cc: 7, value: 0 };
    assert_eq!(app.handle_midi(msg, bits(0.0)), Effect::Moved { id: 29 });
    assert_eq!(level(&app, 29), 0.0);
}

#[test]
fn the_selected_control_is_the_one_selected() {
    let mut app = new_app();
    for id in 0..30 {
        select_id(&mut app, id);
        assert_eq!(app.cur_id(), id);
    }
}

#[test]
fn keys_move_the_selection() {
    let mut app = new_app();
    assert_eq!(press(&mut app, Key::Down), Effect::Nothing);
    assert_eq!(app.cur_id(), 1);
    press(&mut app, Key::Up);
    press(&mut app, Key::Up);
    assert_eq!(app.cur_id(), 29);
    press(&mut app, Key::Tab);
    assert_eq!(app.cur_id(), 0);
    press(&mut app, Key::BackTab);
    assert_eq!(app.cur_id(), 29);
    press(&mut app, Key::Tab);
    press(&mut app, Key::Left);
    assert_eq!(app.cur_id(), 18);
    press(&mut app, Key::Right);
    assert_eq!(app.cur_id(), 0);
    press(&mut app, Key::Char('2'));
    assert_eq!(app.cur_id(), 9);
    for _ in 0..12 {
        press(&mut app, Key::Down);
    }
    assert_eq!(app.cur_id(), 9);
}

#[test]
fn keys_of_the_selection_go_round() {
    for start in [0usize, 13, 28] {
        for (key, presses) in [
            (Key::Down, 12),
            (Key::Tab, 12),
            (Key::Up, 12),
            (Key::BackTab, 12),
            (Key::Right, 3),
            (Key::Left, 3),
        ] {
            let mut app = new_app();
            select_id(&mut app, start);
            for left in (0..presses).rev() {
                press(&mut app, key);
                if left > 0 && start != 28 {
                    assert_ne!(app.cur_id(), start);
                }
            }
            assert_eq!(app.cur_id(), start);
        }
    }
}

#[test]
fn a_learned_controller_moves_its_control_wherever_the_selection_is() {
    let mut app = new_app();
    select_id(&mut app, 12);
    press(&mut app, Key::Enter);
    let msg = |value: u8| MidiMsg::Cc { ch: 0, cc: 33, value };
    assert_eq!(app.handle_midi(msg(5), bits(1.0)), Effect::Save);
    for sel in 0..30 {
        select_id(&mut app, sel);
        let before: Vec<u32> = (0..30).map(|i| app.control_norm(i)).collect();
        assert_eq!(app.handle_midi(msg(sel as u8 + 40), bits(2.0)), Effect::Moved { id: 12 });
        assert_eq!(level(&app, 12), (sel + 40) as f32 / 127.0);
        assert_eq!(app.cur_id(), sel);
        for other in (0..30).filter(|i| *i != 12) {
            assert_eq!(app.control_norm(other), before[other]);
        }
    }
}

#[test]
fn only_escape_and_control_c_quit() {
    let mut app = new_app();
    assert_eq!(press(&mut app, Key::Esc), Effect::Quit);
    assert_eq!(press(&mut app, Key::Char('c')), Effect::Nothing);
    let ctrl_c = KeyPress { key: Key::Char('c'), ctrl: true, pressed: true };
    assert_eq!(handle_key(&mut app, ctrl_c, bits(0.0)), Effect::Quit);
    let released = KeyPress { key: Key::Esc, ctrl: false, pressed: false };
    assert_eq!(handle_key(&mut app, released, bits(0.0)), Effect::Nothing);
    assert_eq!(press(&mut app, Key::Other), Effect::Nothing);
}

#[test]
fn drum_keys_hit_drums() {
    let mut app = new_app();
    for (c, drum) in [('a', 0), ('s', 1), ('d', 2), ('k', 0)] {
        assert_eq!(press(&mut app, Key::Char(c)), hit(drum, 0.9));
        assert_eq!(app.cur_id(), drum * 9);
        assert!(app.flashes(drum, bits(2.0)));
    }
    assert_eq!(press(&mut app, Key::Char('w')), Effect::Nothing);
    assert_eq!(press(&mut app, Key::Char('z')), Effect::Nothing);
    let p = app.trigger(2, bits(7.5));
    assert_eq!(f32::from_bits(p.p[0]), 0.72);
    assert!(app.flashes(2, bits(7.6)));
}

#[test]
fn a_hit_is_seen_for_a_while() {
    let mut app = new_app();
    for hit_at in [0.0f32, 0.3, 17.25, 1234.5] {
        let _ = app.trigger(1, bits(hit_at));
        for k in 0..40 {
            let now = hit_at + k as f32 * 0.01;
            assert_eq!(app.flashes(1, bits(now)), now - hit_at < 0.12, "{hit_at} {now}");
        }
    }
    assert!(!app.flashes(0, bits(1234.5)));
}

#[test]
fn the_bit_crusher_turns_round() {
    let mut app = new_app();
    select_id(&mut app, 28);
    let mut seen: Vec<u32> = Vec::new();
    for _ in 0..6 {
        seen.push(app.bit_levels());
        assert_eq!(press(&mut app, Key::Char('+')), Effect::Moved { id: 28 });
    }
    assert_eq!(seen, BIT_LEVELS.to_vec());
    assert_eq!(seen, vec![0, 2048, 128, 32, 8, 4]);
    assert_eq!(app.bit_levels(), 0);
    assert_eq!(press(&mut app, Key::Char('-')), Effect::Moved { id: 28 });
    assert_eq!(app.bit_levels(), 4);
    app.adjust(i32::MAX);
    assert_eq!(bits_for_level(app.control_norm(28)), ((5i64 + i32::MAX as i64) % 6) as usize);
}

#[test]
fn levels_move_by_small_steps() {
    for id in [1usize, 12, 26, 27, 29] {
        let mut app = new_app();
        select_id(&mut app, id);
        let mut expected = level(&app, id);
        for (key, d) in [('=', 1), ('+', 1), ('-', -1), ('_', -1)] {
            for _ in 0..25 {
                assert_eq!(press(&mut app, Key::Char(key)), Effect::Moved { id });
                expected = (expected + d as f32 * 0.05).clamp(0.0, 1.0);
                assert_eq!(level(&app, id), expected);
            }
        }
        assert_eq!(level(&app, id), 0.0);
    }
}

#[test]
fn levels_move_by_many_steps_at_once() {
    for start in [0.0f32, -0.0, 1e-40, 1e-9, 0.031, 0.05, 0.33333334, 0.5, 0.99999994, 1.0] {
        for d in [0, 1, -1, 2, 3, -3, 7, -19, 19, 20, -20, 21, 1000, i32::MAX, i32::MIN] {
            let mut app = new_app();
            app.set_norm(0, bits(start));
            app.adjust(d);
            let expected = (start + d as f32 * 0.05).clamp(0.0, 1.0);
            assert_eq!(app.control_norm(0), bits(expected), "{start} {d}");
        }
    }
    let mut app = new_app();
    app.set_norm(0, bits(f32::NAN));
    app.adjust(1);
    assert!(level(&app, 0).is_nan());
}

#[test]
fn learning_binds_the_selected_control() {
    let mut app = new_app();
    select_id(&mut app, 20);
    press(&mut app, Key::Enter);
    let learn = MidiMsg::Cc { ch: 4, cc: 74, value: 3 };
    assert_eq!(app.handle_midi(learn, bits(3.0)), Effect::Save);
    assert_eq!(app.bindings_text(), "74,20\n");
    assert_eq!(load_cc_map(&app.bindings_text()).get(&74), Some(&20));
    assert_eq!(level(&app, 20), 0.60);
    for value in 0..=255u8 {
        let move_it = MidiMsg::Cc { ch: 9, cc: 74, value };
        assert_eq!(app.handle_midi(move_it, bits(4.0)), Effect::Moved { id: 20 });
        assert_eq!(level(&app, 20), (value as f32 / 127.0).clamp(0.0, 1.0));
    }
    let unbound = MidiMsg::Cc { ch: 9, cc: 75, value: 127 };
    assert_eq!(app.handle_midi(unbound, bits(5.0)), Effect::Nothing);
}

#[test]
fn learning_can_be_called_off() {
    let mut app = new_app();
    press(&mut app, Key::Enter);
    press(&mut app, Key::Enter);
    let msg = MidiMsg::Cc { ch: 0, cc: 1, value: 1 };
    assert_eq!(app.handle_midi(msg, bits(0.0)), Effect::Nothing);
    assert_eq!(app.bindings_text(), "");
}

#[test]
fn a_controller_steps_through_the_bit_settings() {
    let mut app = new_app();
    select_id(&mut app, 28);
    press(&mut app, Key::Enter);
    let _ = app.handle_midi(MidiMsg::Cc { ch: 0, cc: 1, value: 0 }, bits(0.0));
    for (value, levels) in [(0u8, 0u32), (25, 2048), (51, 128), (76, 32), (102, 8), (127, 4), (200, 4)] {
        let msg = MidiMsg::Cc { ch: 0, cc: 1, value };
        assert_eq!(app.handle_midi(msg, bits(0.0)), Effect::Moved { id: 28 });
        assert_eq!(app.bit_levels(), levels);
    }
}

#[test]
fn notes_play_drums_and_ends_of_notes_do_not() {
    let mut app = new_app();
    for vel in 1..=127u8 {
        let on = MidiMsg::NoteOn { ch: 0, note: 38, vel };
        assert_eq!(app.handle_midi(on, bits(6.0)), hit(1, vel as f32 / 127.0));
    }
    assert!(app.flashes(1, bits(6.0)));
    let off = MidiMsg::NoteOn { ch: 0, note: 36, vel: 0 };
    assert_eq!(app.handle_midi(off, bits(7.0)), Effect::Nothing);
    assert!(!app.flashes(0, bits(7.0)));
    let none = MidiMsg::NoteOn { ch: 0, note: 37, vel: 9 };
    assert_eq!(app.handle_midi(none, bits(7.0)), Effect::Nothing);
}

#[test]
fn one_channel_is_heard_or_all() {
    let mut app = new_app();
    let msg = MidiMsg::NoteOn { ch: 2, note: 0, vel: 127 };
    let played = hit(0, 1.0);
    assert_eq!(app.handle_midi(msg, bits(0.0)), played);
    for channel in 1..=16 {
        press(&mut app, Key::Char('m'));
        let e = app.handle_midi(msg, bits(0.0));
        assert_eq!(e, if channel == 3 { played } else { Effect::Nothing });
    }
    press(&mut app, Key::Char('m'));
    assert_eq!(app.handle_midi(msg, bits(0.0)), played);
    let last = MidiMsg::NoteOn { ch: 255, note: 0, vel: 127 };
    assert_eq!(app.handle_midi(last, bits(0.0)), played);
}

#[test]
fn notices_go_away() {
    let mut app = new_app();
    let shown = " MIDI ch:Omni · Digitakt · hello ";
    for put_up in [0.0f32, 3.0, 100.1] {
        app.set_toast("hello".to_string(), bits(put_up));
        let until = put_up + 1.6;
        app.expire_toast(bits(until - 0.1));
        app.expire_toast(bits(until));
        assert_eq!(texts(&drawn(&mut app).1.midi), shown);
        app.expire_toast(bits(f32::from_bits(until.to_bits() + 1)));
        assert_ne!(texts(&drawn(&mut app).1.midi), shown);
    }
}

#[test]
fn rows_are_stacked_inside_the_border() {
    for height in (19..120u16).chain([999, 1000, 30000, 32767, 32768, 40001, 65530]) {
        let area = Rect { x: 3, y: 5, width: 80, height };
        let rows = layout(area);
        assert_eq!(rows.len(), 7);
        let heights = [1u16, 9, 1, 3, 1, 1, height - 2 - 16];
        let mut y = 6;
        for (row, h) in rows.iter().zip(heights) {
            assert_eq!(*row, Rect { x: 4, y, width: 78, height: h });
            y += h;
        }
    }
}

#[test]
fn rows_stay_within_a_small_area() {
    for (x, y) in [(0u16, 0u16), (7, 9), (65000, 65000)] {
        for width in 0..6u16 {
            for height in 0..19u16 {
                let rows = layout(Rect { x, y, width, height });
                assert_eq!(rows.len(), 7);
                for row in rows {
                    assert_eq!(row.x, if width == 0 { x } else { x + 1 });
                    assert_eq!(row.width, width.saturating_sub(2));
                    let top = if height == 0 { y } else { y + 1 };
                    assert!(row.y >= top);
                    assert!(row.y + row.height <= top + height.saturating_sub(2));
                }
            }
        }
    }
}

#[test]
fn rows_follow_one_another_in_every_area() {
    for y in [0u16, 1, 7, 100, 12345, 40000, 65000, 65495] {
        for height in 0..40u16 {
            let rows = layout(Rect { x: 2, y, width: 80, height });
            assert_eq!(rows[0].y, if height == 0 { y } else { y + 1 });
            for i in 1..7 {
                assert_eq!(rows[i].y, rows[i - 1].y + rows[i - 1].height, "{y} {height} {i}");
                assert!(rows[i - 1].height <= [1, 9, 1, 3, 1, 1][i - 1]);
            }
            let inner = height.saturating_sub(2);
            assert_eq!(rows[6].y + rows[6].height, rows[0].y + inner);
            assert_eq!(rows[6].height, if inner > 16 { inner - 16 } else { inner.min(1) });
        }
    }
}

#[test]
fn drawing_again_notes_the_same_bars() {
    let mut app = new_app();
    let (rows, _) = drawn(&mut app);
    let before: Vec<_> = (0..24 * 80u16).map(|i| cell_at(&app, i % 80, i / 80)).collect();
    let (again, _) = drawn(&mut app);
    let after: Vec<_> = (0..24 * 80u16).map(|i| cell_at(&app, i % 80, i / 80)).collect();
    assert_eq!(rows, again);
    assert_eq!(before, after);
}

#[test]
fn the_screen_is_redrawn_after_a_while() {
    assert!(redraw_due(bits(-1.0), bits(0.0)));
    for last in [0.0f32, 1.5, 333.25] {
        for k in 0..80 {
            let now = last + k as f32 * 0.001;
            assert_eq!(redraw_due(bits(last), bits(now)), now - last >= 0.033, "{last} {now}");
        }
    }
}

#[test]
fn rows_at_the_end_of_the_screen() {
    let rows = layout(Rect { x: 65535, y: 65535, width: 10, height: 30 });
    assert_eq!(rows.len(), 7);
    for row in rows {
        assert_eq!((row.x, row.y, row.width, row.height), (65535, 65535, 8, 0));
    }
}

fn drawn(app: &mut App) -> (Vec<Rect>, Screen) {
    let (rows, screen) = draw(app, Rect { x: 0, y: 0, width: 80, height: 24 }, &percents(), bits(9.0));
    match screen {
        Some(s) => (rows, s),
        None => panic!("nothing was drawn"),
    }
}

#[test]
fn the_screen_shows_the_panel() {
    let mut app = new_app();
    let _ = app.trigger(2, bits(8.95));
    press(&mut app, Key::Left);
    let (_, screen) = drawn(&mut app);
    assert_eq!(texts(&screen.header), "           KICK (C)       SNARE (D)       HIHAT (E)     ");
    assert_eq!(screen.header[1].tone, Tone::Idle);
    assert_eq!(screen.header[3].tone, Tone::Chosen);
    assert_eq!(screen.header[5].tone, Tone::AccentBold);
    assert_eq!(screen.matrix.len(), 9);
    assert_eq!(
        texts(&screen.matrix[0]),
        "Tune    ▓▓▓░░░░░░░░░░░  ▓▓▓▓▓▓░░░░░░░░  ▓▓▓▓▓▓▓▓▓▓░░░░  "
    );
    let tones: Vec<Tone> = screen.matrix[0].iter().map(|s| s.tone).collect();
    assert_eq!(
        tones,
        vec![Tone::AccentBold, Tone::Dim, Tone::Plain, Tone::AccentBold, Tone::Plain, Tone::Dim, Tone::Plain]
    );
    assert_eq!(screen.matrix[1][3].tone, Tone::Idle);
    assert_eq!(texts(&screen.master[0]), "Drive   ░░░░░░░░░░░░░░ 0%");
    assert_eq!(texts(&screen.master[1]), "Bits    ░░░░░░░░░░░░░░ off");
    assert_eq!(texts(&screen.master[2]), "Volume  ▓▓▓▓▓▓▓▓▓▓░░░░ 70%");
    assert_eq!(texts(&screen.midi), " MIDI ch:Omni · Digitakt · 0 CC maps ");
}

#[test]
fn the_bar_of_the_bit_crusher() {
    let mut app = new_app();
    select_id(&mut app, 28);
    for idx in 0..6usize {
        let (_, screen) = drawn(&mut app);
        let ratio = idx as f32 / 5.0;
        let filled = (ratio * 14.0).round() as usize;
        assert_eq!(screen.master[1][1].text, "▓".repeat(filled) + &"░".repeat(14 - filled));
        assert_eq!(screen.master[1][1].tone, Tone::Accent);
        assert_eq!(screen.master[1][0].tone, Tone::AccentBold);
        assert_eq!(screen.master[0][1].tone, Tone::Dim);
        press(&mut app, Key::Char('='));
    }
}

#[test]
fn the_midi_line_tells_the_news() {
    let mut app = new_app();
    press(&mut app, Key::Char('m'));
    let _ = app.handle_midi(MidiMsg::NoteOn { ch: 0, note: 60, vel: 90 }, bits(0.0));
    let (_, screen) = drawn(&mut app);
    assert_eq!(texts(&screen.midi), " MIDI ch:1 · Digitakt · 0 CC maps · note 60 v90");
    press(&mut app, Key::Enter);
    let (_, screen) = drawn(&mut app);
    assert_eq!(texts(&screen.midi), " MIDI ch:1 · Digitakt · ◉ LEARN KICK Tune (send CC) ");
    let _ = app.handle_midi(MidiMsg::Cc { ch: 0, cc: 10, value: 64 }, bits(0.0));
    let (_, screen) = drawn(&mut app);
    assert_eq!(texts(&screen.midi), " MIDI ch:1 · Digitakt · CC10 -> KICK Tune ");
    app.expire_toast(bits(5.0));
    let (_, screen) = drawn(&mut app);
    assert_eq!(texts(&screen.midi), " MIDI ch:1 · Digitakt · 1 CC maps · CC10 64");
}

#[test]
fn what_is_clicked_is_what_is_seen() {
    let mut app = new_app();
    let (rows, _) = drawn(&mut app);
    let mut seen = [0usize; 30];
    for row in 0..24u16 {
        for col in 0..80u16 {
            if let Some((id, r)) = cell_at(&app, col, row) {
                seen[id] += 1;
                assert!(col >= r.x && col < r.x + r.width && row == r.y);
                let e = handle_mouse(&mut app, Mouse::LeftDown, col, row);
                assert_eq!(app.cur_id(), id);
                if id == 28 {
                    assert_eq!(e, Effect::Nothing);
                    assert_eq!(level(&app, id), 0.0);
                } else {
                    assert_eq!(e, Effect::Moved { id });
                    assert_eq!(level(&app, id), (col - r.x) as f32 / 14.0);
                }
            }
        }
    }
    assert_eq!(seen, [14; 30]);
    assert_eq!(cell_at(&app, rows[1].x + 8 + 16, rows[1].y + 3).map(|h| h.0), Some(12));
    assert_eq!(cell_at(&app, rows[3].x + 8, rows[3].y + 1).map(|h| h.0), Some(28));
    assert_eq!(cell_at(&app, 0, 0), None);
}

#[test]
fn the_wheel_moves_the_control_under_the_mouse() {
    let mut app = new_app();
    let (rows, _) = drawn(&mut app);
    let (x, y) = (rows[1].x + 8 + 32, rows[1].y + 8);
    assert_eq!(handle_mouse(&mut app, Mouse::ScrollUp, x, y), Effect::Moved { id: 26 });
    assert_eq!(level(&app, 26), 0.8 + 0.05);
    assert_eq!(handle_mouse(&mut app, Mouse::ScrollDown, 0, 0), Effect::Moved { id: 26 });
    assert_eq!(level(&app, 26), (0.8 + 0.05) + -0.05);
    let (x, y) = (rows[3].x + 8, rows[3].y + 1);
    assert_eq!(handle_mouse(&mut app, Mouse::ScrollDown, x, y), Effect::Moved { id: 28 });
    assert_eq!(app.bit_levels(), 4);
    assert_eq!(handle_mouse(&mut app, Mouse::ScrollUp, x, y), Effect::Moved { id: 28 });
    assert_eq!(app.bit_levels(), 0);
    assert_eq!(handle_mouse(&mut app, Mouse::Other, x, y), Effect::Nothing);
    assert_eq!(handle_mouse(&mut app, Mouse::LeftDrag, 0, 0), Effect::Nothing);
    assert_eq!(app.cur_id(), 28);
}

#[test]
fn nothing_is_drawn_beyond_the_last_column() {
    let mut app = new_app();
    let (rows, screen) = draw(&mut app, Rect { x: 65500, y: 0, width: 30, height: 24 }, &percents(), bits(0.0));
    assert_eq!(rows.len(), 7);
    assert!(screen.is_none());
    assert_eq!(cell_at(&app, 65510, 3), None);
}
