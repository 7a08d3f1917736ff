use std::collections::HashMap;

use zygdrum::ccmap::{load_cc_map, save_cc_map};
use zygdrum::text::{align_left, cell_bar, center, push_decimal, read_number};

#[test]
fn bindings_survive_a_save_and_a_load() {
    let mut m: HashMap<u8, usize> = HashMap::new();
    m.insert(7, 29);
    m.insert(0, 0);
    m.insert(255, 13);
    m.insert(74, 28);
    let text = save_cc_map(&m);
    assert_eq!(text, "0,0\n7,29\n74,28\n255,13\n");
    assert_eq!(load_cc_map(&text), m);
}

#[test]
fn bindings_that_name_no_control_are_not_loaded_back() {
    let mut m: HashMap<u8, usize> = HashMap::new();
    m.insert(1, 29);
    m.insert(2, 30);
    m.insert(3, usize::MAX);
    m.insert(4, 0);
    let text = save_cc_map(&m);
    assert_eq!(text, format!("1,29\n2,30\n3,{}\n4,0\n", usize::MAX));
    m.remove(&2);
    m.remove(&3);
    assert_eq!(load_cc_map(&text), m);
}

#[test]
fn no_bindings_make_no_text() {
    assert_eq!(save_cc_map(&HashMap::new()), "");
    assert!(load_cc_map("").is_empty());
}

#[test]
fn later_lines_override_earlier_ones() {
    let m = load_cc_map("7,3\n8,4\n7,5\n");
    assert_eq!(m.len(), 2);
    assert_eq!(m.get(&7), Some(&5));
    assert_eq!(m.get(&8), Some(&4));
}

#[test]
fn lines_without_a_binding_are_passed_over() {
    let m = load_cc_map("\nhello\n7\n7,\n,7\n256,1\n-1,1\n1,30\n1,-2\n 1,2\n1, 2\n5,6,7\n");
    assert_eq!(m.len(), 1);
    assert_eq!(m.get(&5), Some(&6));
}

#[test]
fn line_ends_and_signs() {
    let m = load_cc_map("1,2\r\n+3,+4\r\n005,0000000000000000000000006\n7,8");
    assert_eq!(m.len(), 4);
    assert_eq!(m.get(&1), Some(&2));
    assert_eq!(m.get(&3), Some(&4));
    assert_eq!(m.get(&5), Some(&6));
    assert_eq!(m.get(&7), Some(&8));
    // a carriage return counts as part of the line end only before a line feed
    assert!(load_cc_map("7,8\r").is_empty());
    assert!(load_cc_map("7,8\r\r\n").is_empty());
    assert!(load_cc_map("+,8\n").is_empty());
    assert!(load_cc_map("++7,8\n").is_empty());
    assert!(load_cc_map("7,99999999999999999999999999\n").is_empty());
}

#[test]
fn reading_agrees_with_the_standard_library() {
    let texts = [
        "1,2\n3,4", "1,2\r\n", "\r\n", "a,b", "1,2,3", ",", "1,,2", "255,29\n256,29\n255,30", "é,1\n2,é\n3,3",
        "12,+29\n+12,28\n", "9,9\n\n\n10,10\n", "1,2\n1,2\n", "00,00", "+0,+0", "18446744073709551616,1",
    ];
    for text in texts {
        let mut expected: HashMap<u8, usize> = HashMap::new();
        for line in text.lines() {
            let mut it = line.split(',');
            if let (Some(cc), Some(id)) = (it.next(), it.next()) {
                if let (Ok(cc), Ok(id)) = (cc.parse::<u8>(), id.parse::<usize>()) {
                    if id < 30 {
                        expected.insert(cc, id);
                    }
                }
            }
        }
        assert_eq!(load_cc_map(text), expected, "{text:?}");
    }
}

#[test]
fn numbers_are_written_and_read_in_decimal() {
    for n in [0usize, 7, 10, 99, 100, 12345, usize::MAX] {
        let mut s = String::from("x");
        push_decimal(&mut s, n);
        assert_eq!(s, format!("x{n}"));
        let chars: Vec<char> = s.chars().collect();
        assert_eq!(read_number(&chars, 1, chars.len(), usize::MAX), Some(n));
        assert_eq!(read_number(&chars, 1, chars.len(), 99), if n <= 99 { Some(n) } else { None });
    }
    assert_eq!(read_number(&vec!['+'], 0, 1, 9), None);
    assert_eq!(read_number(&vec![], 0, 0, 9), None);
}

#[test]
fn columns() {
    assert_eq!(align_left("FM", 8), format!("{:<8}", "FM"));
    assert_eq!(align_left("a longer text", 8), "a longer text");
    assert_eq!(center("KICK (C)", 14), format!("{:^14}", "KICK (C)"));
    assert_eq!(center("SNARE (D)", 14), format!("{:^14}", "SNARE (D)"));
    assert_eq!(center("é", 4), format!("{:^4}", "é"));
}

#[test]
fn bars_show_levels() {
    assert_eq!(cell_bar(0.6f32.to_bits(), 5), "▓▓▓░░");
    assert_eq!(cell_bar(0, 2), "░░");
    assert_eq!(cell_bar(1.0f32.to_bits(), 2), "▓▓");
    assert_eq!(cell_bar(7.0f32.to_bits(), 2), "▓▓");
    assert_eq!(cell_bar((-1.0f32).to_bits(), 2), "░░");
    assert_eq!(cell_bar((-0.0f32).to_bits(), 2), "░░");
    assert_eq!(cell_bar(f32::NAN.to_bits(), 2), "░░");
    assert_eq!(cell_bar(0.5f32.to_bits(), 1), "▓");
    assert_eq!(cell_bar(0.5f32.to_bits(), 0), "");
    for width in [1usize, 3, 14, 100] {
        for k in 0..=1000 {
            let level = k as f32 / 1000.0;
            let filled = (level.clamp(0.0, 1.0) * width as f32).round() as usize;
            let expected = "▓".repeat(filled) + &"░".repeat(width - filled);
            assert_eq!(cell_bar(level.to_bits(), width), expected);
        }
    }
}
