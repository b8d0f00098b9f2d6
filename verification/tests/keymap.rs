use typepaste::keymap::{get_key_info, KeyAction};

#[test]
fn lowercase_letter() {
    match get_key_info('a').unwrap() {
        KeyAction::Char {
            base,
            shift,
            mac_keycode,
        } => {
            assert_eq!(base, 'a');
            assert!(!shift);
            assert_eq!(mac_keycode, 0);
        }
        _ => panic!(),
    }
}

#[test]
fn uppercase_letter() {
    match get_key_info('Z').unwrap() {
        KeyAction::Char {
            base,
            shift,
            mac_keycode,
        } => {
            assert_eq!(base, 'z');
            assert!(shift);
            assert_eq!(mac_keycode, 6);
        }
        _ => panic!(),
    }
}

#[test]
fn special_chars_need_shift() {
    for (ch, base, kc) in [
        ('!', '1', 18),
        ('@', '2', 19),
        ('{', '[', 33),
        ('"', '\'', 39),
        ('~', '`', 50),
    ] {
        match get_key_info(ch).unwrap() {
            KeyAction::Char {
                base: b,
                shift,
                mac_keycode,
            } => {
                assert_eq!(b, base);
                assert!(shift, "{ch} should need shift");
                assert_eq!(mac_keycode, kc, "{ch} keycode mismatch");
            }
            _ => panic!(),
        }
    }
}

#[test]
fn dot_and_greater_than_same_keycode() {
    // `.` and `>` share the key 47 of the main keyboard, not the 65 of the keypad.
    match get_key_info('.').unwrap() {
        KeyAction::Char { mac_keycode, .. } => assert_eq!(mac_keycode, 47),
        _ => panic!(),
    }
    match get_key_info('>').unwrap() {
        KeyAction::Char {
            mac_keycode, shift, ..
        } => {
            assert_eq!(mac_keycode, 47);
            assert!(shift);
        }
        _ => panic!(),
    }
}

#[test]
fn digit_no_shift() {
    match get_key_info('5').unwrap() {
        KeyAction::Char {
            base,
            shift,
            mac_keycode,
        } => {
            assert_eq!(base, '5');
            assert!(!shift);
            assert_eq!(mac_keycode, 23);
        }
        _ => panic!(),
    }
}

#[test]
fn newline_and_tab() {
    assert!(matches!(get_key_info('\n').unwrap(), KeyAction::Return));
    assert!(matches!(get_key_info('\r').unwrap(), KeyAction::Return));
    assert!(matches!(get_key_info('\t').unwrap(), KeyAction::Tab));
}

#[test]
fn unknown_char_is_none() {
    assert!(get_key_info('中').is_none());
}
