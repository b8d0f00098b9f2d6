//! The keys of a US keyboard: for a character, the key that types it, whether Shift is held, and
//! the key's virtual key code on macOS.
//!
//! On macOS a key is sent by its code, so that the main keyboard's `.` (47) is not mistaken for the
//! one of the keypad (65), for which `>` would come out as `.`. Elsewhere the character on the key is
//! sent.

use vstd::prelude::*;
use crate::encoder::{Encoder, Encoding, alphabet, lower_char};
use crate::radix::{Alphabet, encoded, in_alphabet, lemma_encoded_chars};

verus! {

/// What types one character.
#[derive(Debug, Clone, Copy, PartialEq, Eq, Structural)]
pub enum KeyAction {
    /// The key with the character `base` on it, with Shift held where `shift` says so. On macOS the
    /// key has the code `mac_keycode`.
    Char { base: char, shift: bool, mac_keycode: u16 },
    /// The Return key.
    Return,
    /// The Tab key.
    Tab,
}

/// The code of the key that types a character without Shift.
pub open spec fn plain_code(c: char) -> Option<u16> {
    match c {
        'a' => Some(0),
        'b' => Some(11),
        'c' => Some(8),
        'd' => Some(2),
        'e' => Some(14),
        'f' => Some(3),
        'g' => Some(5),
        'h' => Some(4),
        'i' => Some(34),
        'j' => Some(38),
        'k' => Some(40),
        'l' => Some(37),
        'm' => Some(46),
        'n' => Some(45),
        'o' => Some(31),
        'p' => Some(35),
        'q' => Some(12),
        'r' => Some(15),
        's' => Some(1),
        't' => Some(17),
        'u' => Some(32),
        'v' => Some(9),
        'w' => Some(13),
        'x' => Some(7),
        'y' => Some(16),
        'z' => Some(6),
        ' ' => Some(49),
        '1' => Some(18),
        '2' => Some(19),
        '3' => Some(20),
        '4' => Some(21),
        '5' => Some(23),
        '6' => Some(22),
        '7' => Some(26),
        '8' => Some(28),
        '9' => Some(25),
        '0' => Some(29),
        '-' => Some(27),
        '=' => Some(24),
        '[' => Some(33),
        ']' => Some(30),
        '\\' => Some(42),
        ';' => Some(41),
        '\'' => Some(39),
        ',' => Some(43),
        '.' => Some(47),
        '/' => Some(44),
        '`' => Some(50),
        _ => None,
    }
}

/// For a character that needs Shift, the one that its key types without.
pub open spec fn unshifted(c: char) -> Option<char> {
    if 'A' <= c <= 'Z' {
        Some(lower_char(c))
    } else {
        match c {
            '!' => Some('1'),
            '@' => Some('2'),
            '#' => Some('3'),
            '$' => Some('4'),
            '%' => Some('5'),
            '^' => Some('6'),
            '&' => Some('7'),
            '*' => Some('8'),
            '(' => Some('9'),
            ')' => Some('0'),
            '_' => Some('-'),
            '+' => Some('='),
            '{' => Some('['),
            '}' => Some(']'),
            '|' => Some('\\'),
            ':' => Some(';'),
            '"' => Some('\''),
            '<' => Some(','),
            '>' => Some('.'),
            '?' => Some('/'),
            '~' => Some('`'),
            _ => None,
        }
    }
}

/// What a key types with Shift, given what it types without.
pub open spec fn with_shift(base: char) -> char {
    match base {
        '1' => '!',
        '2' => '@',
        '3' => '#',
        '4' => '$',
        '5' => '%',
        '6' => '^',
        '7' => '&',
        '8' => '*',
        '9' => '(',
        '0' => ')',
        '-' => '_',
        '=' => '+',
        '[' => '{',
        ']' => '}',
        '\\' => '|',
        ';' => ':',
        '\'' => '"',
        ',' => '<',
        '.' => '>',
        '/' => '?',
        '`' => '~',
        _ => if 'a' <= base <= 'z' {
            (base as nat - 32) as char
        } else {
            base
        },
    }
}

/// What types a character.
pub open spec fn key_info(ch: char) -> Option<KeyAction> {
    if ch == '\n' || ch == '\r' {
        Some(KeyAction::Return)
    } else if ch == '\t' {
        Some(KeyAction::Tab)
    } else {
        match plain_code(ch) {
            Some(k) => Some(KeyAction::Char { base: ch, shift: false, mac_keycode: k }),
            None => match unshifted(ch) {
                Some(b) => Some(
                    KeyAction::Char { base: b, shift: true, mac_keycode: plain_code(b)->0 },
                ),
                None => None,
            },
        }
    }
}

fn plain_keycode(c: char) -> (r: Option<u16>)
    ensures
        r == plain_code(c),
{
    match c {
        'a' => Some(0),
        'b' => Some(11),
        'c' => Some(8),
        'd' => Some(2),
        'e' => Some(14),
        'f' => Some(3),
        'g' => Some(5),
        'h' => Some(4),
        'i' => Some(34),
        'j' => Some(38),
        'k' => Some(40),
        'l' => Some(37),
        'm' => Some(46),
        'n' => Some(45),
        'o' => Some(31),
        'p' => Some(35),
        'q' => Some(12),
        'r' => Some(15),
        's' => Some(1),
        't' => Some(17),
        'u' => Some(32),
        'v' => Some(9),
        'w' => Some(13),
        'x' => Some(7),
        'y' => Some(16),
        'z' => Some(6),
        ' ' => Some(49),
        '1' => Some(18),
        '2' => Some(19),
        '3' => Some(20),
        '4' => Some(21),
        '5' => Some(23),
        '6' => Some(22),
        '7' => Some(26),
        '8' => Some(28),
        '9' => Some(25),
        '0' => Some(29),
        '-' => Some(27),
        '=' => Some(24),
        '[' => Some(33),
        ']' => Some(30),
        '\\' => Some(42),
        ';' => Some(41),
        '\'' => Some(39),
        ',' => Some(43),
        '.' => Some(47),
        '/' => Some(44),
        '`' => Some(50),
        _ => None,
    }
}

fn unshift(c: char) -> (r: Option<char>)
    ensures
        r == unshifted(c),
        r matches Some(b) ==> plain_code(b) is Some,
{
    if 'A' <= c && c <= 'Z' {
        return Some((c as u8 + 32) as char);
    }
    match c {
        '!' => Some('1'),
        '@' => Some('2'),
        '#' => Some('3'),
        '$' => Some('4'),
        '%' => Some('5'),
        '^' => Some('6'),
        '&' => Some('7'),
        '*' => Some('8'),
        '(' => Some('9'),
        ')' => Some('0'),
        '_' => Some('-'),
        '+' => Some('='),
        '{' => Some('['),
        '}' => Some(']'),
        '|' => Some('\\'),
        ':' => Some(';'),
        '"' => Some('\''),
        '<' => Some(','),
        '>' => Some('.'),
        '?' => Some('/'),
        '~' => Some('`'),
        _ => None,
    }
}

/// Looks up what types a character: `None` where no key does.
pub fn get_key_info(ch: char) -> (r: Option<KeyAction>)
    ensures
        r == key_info(ch),
{
    if ch == '\n' || ch == '\r' {
        return Some(KeyAction::Return);
    }
    if ch == '\t' {
        return Some(KeyAction::Tab);
    }
    if let Some(k) = plain_keycode(ch) {
        return Some(KeyAction::Char { base: ch, shift: false, mac_keycode: k });
    }
    match unshift(ch) {
        Some(b) => match plain_keycode(b) {
            Some(k) => Some(KeyAction::Char { base: b, shift: true, mac_keycode: k }),
            None => None,
        },
        None => None,
    }
}

/// Whether a character has a key.
pub open spec fn typable(ch: char) -> bool {
    ' ' <= ch <= '~' || ch == '\n' || ch == '\r' || ch == '\t'
}

/// The characters with a key are exactly the printable ones of ASCII, the line breaks and the tab.
pub proof fn law_typable(ch: char)
    ensures
        key_info(ch) is Some <==> typable(ch),
{
}

/// The key of a character gives that character: alone where it needs no Shift, with Shift where it
/// does.
pub proof fn law_key_gives_char(ch: char)
    ensures
        key_info(ch) matches Some(KeyAction::Char { base, shift, .. }) ==> ch == (if shift {
            with_shift(base)
        } else {
            base
        }),
{
}

/// Two characters share a key code exactly if they share a key.
pub proof fn law_keycode_is_key(a: char, b: char)
    requires
        key_info(a) is Some && key_info(a)->0 is Char,
        key_info(b) is Some && key_info(b)->0 is Char,
    ensures
        key_info(a)->0->mac_keycode == key_info(b)->0->mac_keycode <==> key_info(a)->0->base
            == key_info(b)->0->base,
{
}

/// Every character of an encoded text has a key, and none but those of Base64 need Shift.
pub proof fn law_encoded_is_typable(e: Encoding, data: Seq<u8>, i: int)
    requires
        0 <= i < e.chosen().text_of(data).len(),
    ensures
        key_info(e.chosen().text_of(data)[i]) matches Some(KeyAction::Char { shift, .. }) && (shift
            ==> e == Encoding::Base64),
{
    lemma_encoded_chars(alphabet(e), data);
    assert(in_alphabet(alphabet(e), encoded(alphabet(e), data)[i]));
}

} // verus!
