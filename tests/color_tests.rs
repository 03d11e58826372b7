use lightstage::{match_mode, ColorPicker, KeyInput, Scene};

#[test]
fn color_keys_light_their_channels() {
    assert_eq!(match_mode('r', 200), Some([200, 0, 0, 0, 0, 0, 0, 0, 0]));
    assert_eq!(match_mode('g', 5), Some([0, 5, 0, 0, 0, 0, 0, 0, 0]));
    assert_eq!(match_mode('b', 5), Some([0, 0, 5, 0, 0, 0, 0, 0, 0]));
    assert_eq!(match_mode('c', 5), Some([0, 0, 0, 5, 0, 0, 0, 0, 0]));
    assert_eq!(match_mode('w', 5), Some([0, 0, 0, 0, 5, 0, 0, 0, 0]));
    assert_eq!(match_mode('n', 5), Some([0, 0, 0, 0, 0, 5, 0, 0, 0]));
    assert_eq!(match_mode('v', 5), Some([0, 0, 0, 0, 0, 0, 5, 0, 0]));
    assert_eq!(match_mode('h', 5), Some([0, 0, 0, 0, 0, 0, 0, 5, 0]));
    assert_eq!(match_mode('d', 5), Some([0, 0, 0, 0, 0, 0, 0, 0, 5]));
    assert_eq!(match_mode('p', 30), Some([0, 0, 0, 30, 0, 0, 30, 30, 30]));
    assert_eq!(match_mode('a', 40), Some([40; 9]));
    assert_eq!(match_mode('o', 40), Some([0; 9]));
}

#[test]
fn unknown_key_has_no_mapping() {
    assert_eq!(match_mode('x', 200), None);
    assert_eq!(match_mode('R', 200), None);
    assert_eq!(match_mode(' ', 200), None);
}

#[test]
fn picker_starts_dark() {
    let p = ColorPicker::new();
    assert_eq!(p.pixel, [0; 9]);
    assert_eq!(p.color, 'o');
    assert_eq!(p.brightness, 200);
}

#[test]
fn picker_unknown_key_keeps_color() {
    let mut p = ColorPicker::new();
    assert!(!p.handle_key(KeyInput::Char('g')));
    assert!(!p.handle_key(KeyInput::Char('z')));
    assert_eq!(p.pixel, [0, 200, 0, 0, 0, 0, 0, 0, 0]);
    assert_eq!(p.color, 'g');
    assert!(!p.handle_key(KeyInput::Left));
    assert!(!p.handle_key(KeyInput::Other));
    assert_eq!(p.pixel, [0, 200, 0, 0, 0, 0, 0, 0, 0]);
}

#[test]
fn picker_brightness_steps_and_bounds() {
    let mut p = ColorPicker::new();
    p.handle_key(KeyInput::Char('a'));
    for _ in 0..10 {
        p.handle_key(KeyInput::Up);
    }
    assert_eq!(p.brightness, 250);
    assert_eq!(p.pixel, [250; 9]);
    for _ in 0..30 {
        p.handle_key(KeyInput::Down);
    }
    assert_eq!(p.brightness, 10);
    assert_eq!(p.pixel, [10; 9]);
    p.handle_key(KeyInput::Up);
    assert_eq!(p.pixel, [20; 9]);
}

#[test]
fn picker_quit_turns_off() {
    let mut p = ColorPicker::new();
    p.handle_key(KeyInput::Char('r'));
    assert!(p.handle_key(KeyInput::Quit));
    assert_eq!(p.pixel, [0; 9]);
    assert_eq!(p.color, 'r');
}

#[test]
fn player_arrows_move_cursor() {
    let text: Vec<char> = "0 1\nshow\n0 2\nshow\n".chars().collect();
    let mut s: Scene<1, 1> = Scene::parse_text(&text).unwrap();
    assert!(!s.handle_key(KeyInput::Right));
    assert_eq!(s.get_node(0), Ok([2]));
    assert!(!s.handle_key(KeyInput::Right));
    assert_eq!(s.current_index(), 1);
    assert!(!s.handle_key(KeyInput::Left));
    assert!(!s.handle_key(KeyInput::Char('x')));
    assert_eq!(s.get_node(0), Ok([1]));
    assert!(s.handle_key(KeyInput::Quit));
}
