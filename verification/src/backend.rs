//! What the keyboard has to do for a character.
//!
//! Keys are pressed as keys, with Shift pressed and released around them where it is needed: text
//! input would pass through the input method of a remote desktop.

use vstd::prelude::*;
use crate::keymap::{
    get_key_info, key_info, law_key_gives_char, typable, with_shift, KeyAction,
};

verus! {

/// Milliseconds that a change of Shift gets to reach the hardware state on macOS. A key that comes
/// earlier is typed without it, and `>` comes out as `.`.
pub const SHIFT_SETTLE_MS: u64 = 5;

/// One thing that the keyboard does.
#[derive(Debug, Clone, Copy, PartialEq, Eq, Structural)]
pub enum KeyStep {
    /// Press Shift and hold it.
    ShiftDown,
    /// Release Shift.
    ShiftUp,
    /// Let a change of Shift take effect.
    Settle,
    /// Click the key with this code.
    Code(u16),
    /// Click the key with this character on it.
    Key(char),
    /// Click Return.
    Return,
    /// Click Tab.
    Tab,
    /// Put the character in as text: no key types it.
    Text(char),
}

/// The steps that type a character, by key codes (`mac`) or by the characters on the keys.
pub open spec fn steps_for(ch: char, mac: bool) -> Seq<KeyStep> {
    match key_info(ch) {
        Some(KeyAction::Char { base, shift, mac_keycode }) => {
            let click = if mac {
                KeyStep::Code(mac_keycode)
            } else {
                KeyStep::Key(base)
            };
            if shift {
                seq![KeyStep::ShiftDown, KeyStep::Settle, click, KeyStep::ShiftUp, KeyStep::Settle]
            } else {
                seq![click]
            }
        },
        Some(KeyAction::Return) => seq![KeyStep::Return],
        Some(KeyAction::Tab) => seq![KeyStep::Tab],
        None => seq![KeyStep::Text(ch)],
    }
}

/// The steps that type a character, by key codes (`mac`) or by the characters on the keys.
pub fn char_steps(ch: char, mac: bool) -> (r: Vec<KeyStep>)
    ensures
        r@ == steps_for(ch, mac),
{
    match get_key_info(ch) {
        Some(KeyAction::Char { base, shift, mac_keycode }) => {
            let click = if mac {
                KeyStep::Code(mac_keycode)
            } else {
                KeyStep::Key(base)
            };
            if shift {
                vec![KeyStep::ShiftDown, KeyStep::Settle, click, KeyStep::ShiftUp, KeyStep::Settle]
            } else {
                vec![click]
            }
        },
        Some(KeyAction::Return) => vec![KeyStep::Return],
        Some(KeyAction::Tab) => vec![KeyStep::Tab],
        None => vec![KeyStep::Text(ch)],
    }
}

/// What the key with this code types without Shift: the ANSI layout of macOS, row by row of its codes. Codes
/// that no key of the main block has stand for no character.
pub open spec fn on_key(code: u16) -> char {
    match code {
        0 => 'a',
        1 => 's',
        2 => 'd',
        3 => 'f',
        4 => 'h',
        5 => 'g',
        6 => 'z',
        7 => 'x',
        8 => 'c',
        9 => 'v',
        11 => 'b',
        12 => 'q',
        13 => 'w',
        14 => 'e',
        15 => 'r',
        16 => 'y',
        17 => 't',
        18 => '1',
        19 => '2',
        20 => '3',
        21 => '4',
        22 => '6',
        23 => '5',
        24 => '=',
        25 => '9',
        26 => '7',
        27 => '-',
        28 => '8',
        29 => '0',
        30 => ']',
        31 => 'o',
        32 => 'u',
        33 => '[',
        34 => 'i',
        35 => 'p',
        37 => 'l',
        38 => 'j',
        39 => '\'',
        40 => 'k',
        41 => ';',
        42 => '\\',
        43 => ',',
        44 => '/',
        45 => 'n',
        46 => 'm',
        47 => '.',
        49 => ' ',
        50 => '`',
        _ => '\u{0}',
    }
}

/// What a step types on a US keyboard, with Shift held or not.
pub open spec fn types(step: KeyStep, shift: bool) -> Seq<char> {
    match step {
        KeyStep::Code(k) => seq![
            if shift {
                with_shift(on_key(k))
            } else {
                on_key(k)
            },
        ],
        KeyStep::Key(c) => seq![
            if shift {
                with_shift(c)
            } else {
                c
            },
        ],
        KeyStep::Return => seq!['\n'],
        KeyStep::Tab => seq!['\t'],
        KeyStep::Text(c) => seq![c],
        _ => Seq::empty(),
    }
}

/// Whether Shift is held after a step.
pub open spec fn holds(step: KeyStep, shift: bool) -> bool {
    match step {
        KeyStep::ShiftDown => true,
        KeyStep::ShiftUp => false,
        _ => shift,
    }
}

/// What steps type on a US keyboard, and whether Shift is held after them.
pub open spec fn played(steps: Seq<KeyStep>, shift: bool) -> (Seq<char>, bool)
    decreases steps.len(),
{
    if steps.len() == 0 {
        (Seq::empty(), shift)
    } else {
        let rest = played(steps.drop_first(), holds(steps[0], shift));
        (types(steps[0], shift) + rest.0, rest.1)
    }
}

/// The code of a key is that of the key with the character on it, on the ANSI layout of macOS.
pub proof fn law_code_is_on_key(ch: char)
    ensures
        key_info(ch) matches Some(KeyAction::Char { base, mac_keycode, .. }) ==> on_key(mac_keycode) == base,
{
}

/// The steps for a character type it, and leave Shift released. A carriage return is typed as the
/// line break that the Return key gives.
pub proof fn law_steps_type_char(ch: char, mac: bool)
    ensures
        played(steps_for(ch, mac), false) == (
            seq![
                if ch == '\r' {
                    '\n'
                } else {
                    ch
                },
            ],
            false,
        ),
{
    reveal_with_fuel(played, 6);
    law_key_gives_char(ch);
    if let Some(KeyAction::Char { base, shift, mac_keycode }) = key_info(ch) {
        law_code_is_on_key(ch);
        assert(on_key(mac_keycode) == base);
    }
    assert(played(steps_for(ch, mac), false).0 =~= seq![
        if ch == '\r' {
            '\n'
        } else {
            ch
        },
    ]);
}

/// A character that has a key is typed by that key and not put in as text: on macOS by its code, elsewhere by
/// the character on it. Shift is held for nothing but the characters that need it, and each change of it
/// gets time to take effect before the next key.
pub proof fn law_keys_are_pressed(ch: char, mac: bool, i: int)
    requires
        typable(ch),
        0 <= i < steps_for(ch, mac).len(),
    ensures
        ({
            let steps = steps_for(ch, mac);
            &&& !(steps[i] is Text)
            &&& mac ==> !(steps[i] is Key)
            &&& !mac ==> !(steps[i] is Code)
            &&& steps[i] is ShiftDown || steps[i] is ShiftUp ==> i + 1 < steps.len() && steps[i + 1]
                == KeyStep::Settle
            &&& steps[i] is ShiftDown ==> ('A' <= ch <= 'Z' || !('a' <= ch <= 'z' || '0' <= ch <= '9' || ch
                == ' ' || ch == '-' || ch == '=' || ch == '[' || ch == ']' || ch == '\\' || ch == ';' || ch
                == '\'' || ch == ',' || ch == '.' || ch == '/' || ch == '`'))
        }),
{
}

/// The steps for a text, one character after the other.
pub open spec fn steps_for_all(text: Seq<char>, mac: bool) -> Seq<KeyStep>
    decreases text.len(),
{
    if text.len() == 0 {
        Seq::empty()
    } else {
        steps_for_all(text.drop_last(), mac) + steps_for(text.last(), mac)
    }
}

proof fn lemma_played_add(a: Seq<KeyStep>, b: Seq<KeyStep>, shift: bool)
    ensures
        ({
            let first = played(a, shift);
            let second = played(b, first.1);
            played(a + b, shift) == (first.0 + second.0, second.1)
        }),
    decreases a.len(),
{
    let first = played(a, shift);
    let second = played(b, first.1);
    if a.len() == 0 {
        assert(a + b =~= b);
        assert(first.0 + second.0 =~= second.0);
    } else {
        lemma_played_add(a.drop_first(), b, holds(a[0], shift));
        assert((a + b).drop_first() =~= a.drop_first() + b);
        assert(played(a + b, shift).0 =~= first.0 + second.0);
    }
}

/// A text is typed as it is, character for character, with Shift released at its end. A carriage return is
/// typed as a line break.
pub proof fn law_steps_type_text(text: Seq<char>, mac: bool)
    ensures
        played(steps_for_all(text, mac), false) == (
            text.map_values(
                |c: char|
                    if c == '\r' {
                        '\n'
                    } else {
                        c
                    },
            ),
            false,
        ),
    decreases text.len(),
{
    let f = |c: char|
        if c == '\r' {
            '\n'
        } else {
            c
        };
    if text.len() == 0 {
        assert(text.map_values(f) =~= Seq::empty());
    } else {
        law_steps_type_text(text.drop_last(), mac);
        law_steps_type_char(text.last(), mac);
        lemma_played_add(steps_for_all(text.drop_last(), mac), steps_for(text.last(), mac), false);
        assert(text.map_values(f) =~= text.drop_last().map_values(f) + seq![f(text.last())]);
    }
}

} // verus!
