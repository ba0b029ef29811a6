//! Keyboard layouts, and the translation of key presses between them by key position.
use crate::config::config_error::LayoutParseError;
use crate::keys::KeyCode;
use crate::text::{
    chars_of, find_seq, is_whitespace, lemma_find_seq_bound, lines, lines_of, split_once_chars, starts_with,
    starts_with_chars,
    string_of, subslice, trim, trim_chars, trim_end, trim_end_chars,
};
use std::collections::HashMap;
use vstd::prelude::*;

verus! {

broadcast use vstd::std_specs::hash::group_hash_axioms;

/// The character that Shift and the QWERTY key `x` produce together.
pub open spec fn shifted(x: u8) -> u8 {
    if 65 <= x <= 90 {
        x
    } else if 97 <= x <= 122 {
        (x - 32) as u8
    } else {
        match x {
            96 => 126,
            49 => 33,
            50 => 64,
            51 => 35,
            52 => 36,
            53 => 37,
            54 => 94,
            55 => 38,
            56 => 42,
            57 => 40,
            48 => 41,
            45 => 95,
            61 => 43,
            91 => 123,
            93 => 125,
            92 => 124,
            59 => 58,
            39 => 34,
            44 => 60,
            46 => 62,
            47 => 63,
            _ => x,
        }
    }
}

/// The QWERTY key that produces the character `x` when pressed with Shift.
pub open spec fn deshifted(x: u8) -> u8 {
    if 65 <= x <= 90 {
        (x + 32) as u8
    } else {
        match x {
            126 => 96,
            33 => 49,
            64 => 50,
            35 => 51,
            36 => 52,
            37 => 53,
            94 => 54,
            38 => 55,
            42 => 56,
            40 => 57,
            41 => 48,
            95 => 45,
            43 => 61,
            123 => 91,
            125 => 93,
            124 => 92,
            58 => 59,
            34 => 39,
            60 => 44,
            62 => 46,
            63 => 47,
            _ => x,
        }
    }
}

/// Whether `x` is a character of the QWERTY keyboard that is typed without Shift: a
/// lowercase letter, a digit, or one of the unshifted symbols.
pub open spec fn is_unshifted_key(x: u8) -> bool {
    (97 <= x <= 122) || (48 <= x <= 57) || x == 96 || x == 45 || x == 61 || x == 91 || x == 93
        || x == 92 || x == 59 || x == 39 || x == 44 || x == 46 || x == 47
}

/// Whether `x` is a character of the QWERTY keyboard that is typed with Shift.
pub open spec fn is_shifted_key(x: u8) -> bool {
    (65 <= x <= 90) || x == 126 || x == 33 || x == 64 || x == 35 || x == 36 || x == 37
        || x == 94 || x == 38 || x == 42 || x == 40 || x == 41 || x == 95 || x == 43
        || x == 123 || x == 125 || x == 124 || x == 58 || x == 34 || x == 60 || x == 62
        || x == 63
}

/// Shifted characters that the Dvorak translation handles by its unshifted key.
pub open spec fn is_dvorak_shifted(x: u8) -> bool {
    (65 <= x <= 90) || x == 95 || x == 43 || x == 123 || x == 125 || x == 58 || x == 34 || x == 60 || x == 62 || x == 63
}

/// Shifted characters that the Colemak translation handles by its unshifted key.
pub open spec fn is_colemak_shifted(x: u8) -> bool {
    (65 <= x <= 90) || x == 58
}

/// The measure on which the translations recurse: a shifted character is translated
/// through its unshifted key, which is translated directly.
pub open spec fn dvorak_depth(x: u8) -> nat {
    if is_dvorak_shifted(x) { 1 } else { 0 }
}

/// See [`dvorak_depth`].
pub open spec fn colemak_depth(x: u8) -> nat {
    if is_colemak_shifted(x) { 1 } else { 0 }
}

/// The Dvorak character at the position of the QWERTY key `x`.
pub open spec fn dvorak_from_qwerty(x: u8) -> u8
    decreases dvorak_depth(x),
{
    match x {
        113 => 39,
        119 => 44,
        101 => 46,
        114 => 112,
        116 => 121,
        121 => 102,
        117 => 103,
        105 => 99,
        111 => 114,
        112 => 108,
        91 => 47,
        93 => 61,
        97 => 97,
        115 => 111,
        100 => 101,
        102 => 117,
        103 => 105,
        104 => 100,
        106 => 104,
        107 => 116,
        108 => 110,
        59 => 115,
        39 => 45,
        122 => 59,
        120 => 113,
        99 => 106,
        118 => 107,
        98 => 120,
        110 => 98,
        109 => 109,
        44 => 119,
        46 => 118,
        47 => 122,
        45 => 91,
        61 => 93,
        _ => {
            if is_dvorak_shifted(x) {
                shifted(dvorak_from_qwerty(deshifted(x)))
            } else {
                x
            }
        },
    }
}

/// The QWERTY character at the position of the Dvorak key `x`.
pub open spec fn dvorak_to_qwerty(x: u8) -> u8
    decreases dvorak_depth(x),
{
    match x {
        39 => 113,
        44 => 119,
        46 => 101,
        112 => 114,
        121 => 116,
        102 => 121,
        103 => 117,
        99 => 105,
        114 => 111,
        108 => 112,
        47 => 91,
        61 => 93,
        97 => 97,
        111 => 115,
        101 => 100,
        117 => 102,
        105 => 103,
        100 => 104,
        104 => 106,
        116 => 107,
        110 => 108,
        115 => 59,
        45 => 39,
        59 => 122,
        113 => 120,
        106 => 99,
        107 => 118,
        120 => 98,
        98 => 110,
        109 => 109,
        119 => 44,
        118 => 46,
        122 => 47,
        91 => 45,
        93 => 61,
        _ => {
            if is_dvorak_shifted(x) {
                shifted(dvorak_to_qwerty(deshifted(x)))
            } else {
                x
            }
        },
    }
}

/// The Colemak character at the position of the QWERTY key `x`.
pub open spec fn colemak_from_qwerty(x: u8) -> u8
    decreases colemak_depth(x),
{
    match x {
        101 => 102,
        114 => 112,
        116 => 103,
        121 => 106,
        117 => 108,
        105 => 117,
        111 => 121,
        112 => 59,
        115 => 114,
        100 => 115,
        102 => 116,
        103 => 100,
        106 => 110,
        107 => 101,
        108 => 105,
        59 => 111,
        110 => 107,
        _ => {
            if is_colemak_shifted(x) {
                shifted(colemak_from_qwerty(deshifted(x)))
            } else {
                x
            }
        },
    }
}

/// The QWERTY character at the position of the Colemak key `x`.
pub open spec fn colemak_to_qwerty(x: u8) -> u8
    decreases colemak_depth(x),
{
    match x {
        102 => 101,
        112 => 114,
        103 => 116,
        106 => 121,
        108 => 117,
        117 => 105,
        121 => 111,
        59 => 112,
        114 => 115,
        115 => 100,
        116 => 102,
        100 => 103,
        110 => 106,
        101 => 107,
        105 => 108,
        111 => 59,
        107 => 110,
        _ => {
            if is_colemak_shifted(x) {
                shifted(colemak_to_qwerty(deshifted(x)))
            } else {
                x
            }
        },
    }
}

/// Maps an ASCII, QWERTY press into the ASCII character that would be created by pressing
/// Shift and that press at the same time. See also [`deshift_qwerty()`].
pub fn shift_qwerty(qwerty_press: u8) -> (r: u8)
    ensures
        r == shifted(qwerty_press),
{
    // uppercase letters map to themselves, lowercase letters to uppercase letters
    if qwerty_press >= 65 && qwerty_press <= 90 {
        return qwerty_press;
    } else if qwerty_press >= 97 && qwerty_press <= 122 {
        return qwerty_press - 32;
    }
    match qwerty_press {
        96 => 126,
        49 => 33,
        50 => 64,
        51 => 35,
        52 => 36,
        53 => 37,
        54 => 94,
        55 => 38,
        56 => 42,
        57 => 40,
        48 => 41,
        45 => 95,
        61 => 43,
        91 => 123,
        93 => 125,
        92 => 124,
        59 => 58,
        39 => 34,
        44 => 60,
        46 => 62,
        47 => 63,
        _ => qwerty_press,
    }
}

/// Inverse of [`shift_qwerty()`]: given an ASCII character, returns the ASCII character
/// that creates it when pressed together with the Shift key.
pub fn deshift_qwerty(qwerty_shift_press: u8) -> (r: u8)
    ensures
        r == deshifted(qwerty_shift_press),
{
    // uppercase letters map to lowercase letters
    if qwerty_shift_press >= 65 && qwerty_shift_press <= 90 {
        return qwerty_shift_press + 32;
    }
    match qwerty_shift_press {
        126 => 96,
        33 => 49,
        64 => 50,
        35 => 51,
        36 => 52,
        37 => 53,
        94 => 54,
        38 => 55,
        42 => 56,
        40 => 57,
        41 => 48,
        95 => 45,
        43 => 61,
        123 => 91,
        125 => 93,
        124 => 92,
        58 => 59,
        34 => 39,
        60 => 44,
        62 => 46,
        63 => 47,
        _ => qwerty_shift_press,
    }
}


/// The Dvorak translations are inverse to each other on every byte: translating a QWERTY
/// key to Dvorak and back gives the key again, and the other way round.
pub proof fn lemma_dvorak_round_trip(x: u8)
    ensures
        dvorak_to_qwerty(dvorak_from_qwerty(x)) == x,
        dvorak_from_qwerty(dvorak_to_qwerty(x)) == x,
{
    reveal_with_fuel(dvorak_from_qwerty, 2);
    reveal_with_fuel(dvorak_to_qwerty, 2);
}

/// The Colemak translations are inverse to each other on every byte.
pub proof fn lemma_colemak_round_trip(x: u8)
    ensures
        colemak_to_qwerty(colemak_from_qwerty(x)) == x,
        colemak_from_qwerty(colemak_to_qwerty(x)) == x,
{
    reveal_with_fuel(colemak_from_qwerty, 2);
    reveal_with_fuel(colemak_to_qwerty, 2);
}

/// Shift and its inverse: removing Shift from a shifted key gives back the unshifted key, and
/// adding Shift to the unshifted key of a shifted character gives back the character.
pub proof fn lemma_shift_deshift_inverse(x: u8)
    ensures
        is_unshifted_key(x) ==> deshifted(shifted(x)) == x,
        is_shifted_key(x) ==> shifted(deshifted(x)) == x,
        is_unshifted_key(x) ==> is_shifted_key(shifted(x)),
        is_shifted_key(x) ==> is_unshifted_key(deshifted(x)),
        !is_unshifted_key(x) && !is_shifted_key(x) ==> shifted(x) == x && deshifted(x) == x,
{
}

/// The unshifted keys of a US QWERTY keyboard, row by row: the digit row, then the top, home
/// and bottom rows of letters.
pub open spec fn qwerty_rows() -> Seq<char> {
    seq!['`', '1', '2', '3', '4', '5', '6', '7', '8', '9', '0', '-', '=', 'q', 'w', 'e', 'r', 't', 'y', 'u', 'i', 'o', 'p', '[', ']', '\\', 'a', 's', 'd', 'f', 'g', 'h', 'j', 'k', 'l', ';', '\'', 'z', 'x', 'c', 'v', 'b', 'n', 'm', ',', '.', '/']
}

/// The characters of the Dvorak keyboard at the same positions as [`qwerty_rows`].
pub open spec fn dvorak_rows() -> Seq<char> {
    seq!['`', '1', '2', '3', '4', '5', '6', '7', '8', '9', '0', '[', ']', '\'', ',', '.', 'p', 'y', 'f', 'g', 'c', 'r', 'l', '/', '=', '\\', 'a', 'o', 'e', 'u', 'i', 'd', 'h', 't', 'n', 's', '-', ';', 'q', 'j', 'k', 'x', 'b', 'm', 'w', 'v', 'z']
}

/// The characters of the Colemak keyboard at the same positions as [`qwerty_rows`].
pub open spec fn colemak_rows() -> Seq<char> {
    seq!['`', '1', '2', '3', '4', '5', '6', '7', '8', '9', '0', '-', '=', 'q', 'w', 'f', 'p', 'g', 'j', 'l', 'u', 'y', ';', '[', ']', '\\', 'a', 'r', 's', 't', 'd', 'h', 'n', 'e', 'i', 'o', '\'', 'z', 'x', 'c', 'v', 'b', 'k', 'm', ',', '.', '/']
}

/// Whether the translations `from` and `to` agree with the keyboard `rows` at the key in
/// position `i`: the QWERTY key there becomes the layout's key there and back, with and
/// without Shift.
pub open spec fn agrees_at(rows: Seq<char>, i: int, from: spec_fn(u8) -> u8, to: spec_fn(u8) -> u8) -> bool {
    let q = qwerty_rows()[i] as u8;
    let l = rows[i] as u8;
    &&& from(q) == l
    &&& to(l) == q
    &&& from(shifted(q)) == shifted(l)
    &&& to(shifted(l)) == shifted(q)
}

/// The Dvorak translation follows the Dvorak keyboard key by key: each QWERTY key, with or
/// without Shift, becomes the Dvorak character at the same position (the QWERTY top row
/// `qwertyuiop[]` becomes `',.pyfgcrl/=`), and back; any byte that is no key of the
/// keyboard is kept.
pub proof fn lemma_dvorak_keyboard(i: int, x: u8)
    requires
        0 <= i < qwerty_rows().len(),
    ensures
        dvorak_rows().len() == qwerty_rows().len(),
        agrees_at(dvorak_rows(), i, |b: u8| dvorak_from_qwerty(b), |b: u8| dvorak_to_qwerty(b)),
        !is_unshifted_key(x) && !is_shifted_key(x) ==> dvorak_from_qwerty(x) == x
            && dvorak_to_qwerty(x) == x,
{
    reveal_with_fuel(dvorak_from_qwerty, 2);
    reveal_with_fuel(dvorak_to_qwerty, 2);
}

/// The Colemak translation follows the Colemak keyboard key by key: each QWERTY key, with or
/// without Shift, becomes the Colemak character at the same position (the QWERTY home row
/// `asdfghjkl;'` becomes `arstdhneio'`), and back; any byte that is no key of the keyboard is
/// kept.
pub proof fn lemma_colemak_keyboard(i: int, x: u8)
    requires
        0 <= i < qwerty_rows().len(),
    ensures
        colemak_rows().len() == qwerty_rows().len(),
        agrees_at(colemak_rows(), i, |b: u8| colemak_from_qwerty(b), |b: u8| colemak_to_qwerty(b)),
        !is_unshifted_key(x) && !is_shifted_key(x) ==> colemak_from_qwerty(x) == x
            && colemak_to_qwerty(x) == x,
{
    reveal_with_fuel(colemak_from_qwerty, 2);
    reveal_with_fuel(colemak_to_qwerty, 2);
}

/// What a layout does to a key code, given what it does to a single byte: ASCII characters
/// are translated, every other key code is kept.
pub open spec fn translate_keycode(press: KeyCode, f: spec_fn(u8) -> u8) -> KeyCode {
    match press {
        KeyCode::Char(c) => {
            if (c as u32) < 128 {
                KeyCode::Char(f(c as u8) as char)
            } else {
                press
            }
        },
        _ => press,
    }
}


/// Translating a key code from QWERTY to Dvorak and back gives the key code again.
pub proof fn lemma_dvorak_keycode_round_trip(k: KeyCode)
    ensures
        translate_keycode(translate_keycode(k, |b: u8| dvorak_from_qwerty(b)), |b: u8| dvorak_to_qwerty(b)) == k,
{
    if let KeyCode::Char(c) = k {
        if (c as u32) < 128 {
            let b = c as u8;
            lemma_dvorak_round_trip(b);
            reveal_with_fuel(dvorak_from_qwerty, 2);
            assert(dvorak_from_qwerty(b) < 128);
            assert((dvorak_from_qwerty(b) as char) as u32 == dvorak_from_qwerty(b));
            assert(((dvorak_from_qwerty(b) as char) as u8) == dvorak_from_qwerty(b));
            assert((dvorak_to_qwerty(dvorak_from_qwerty(b)) as char) == c);
        }
    }
}

/// Translating a key code from QWERTY to Colemak and back gives the key code again.
pub proof fn lemma_colemak_keycode_round_trip(k: KeyCode)
    ensures
        translate_keycode(translate_keycode(k, |b: u8| colemak_from_qwerty(b)), |b: u8| colemak_to_qwerty(b)) == k,
{
    if let KeyCode::Char(c) = k {
        if (c as u32) < 128 {
            let b = c as u8;
            lemma_colemak_round_trip(b);
            reveal_with_fuel(colemak_from_qwerty, 2);
            assert(colemak_from_qwerty(b) < 128);
            assert((colemak_from_qwerty(b) as char) as u32 == colemak_from_qwerty(b));
            assert(((colemak_from_qwerty(b) as char) as u8) == colemak_from_qwerty(b));
            assert((colemak_to_qwerty(colemak_from_qwerty(b)) as char) == c);
        }
    }
}

/// An interface for keyboard layouts.
pub trait Layout {
    /// What [`Layout::from_qwerty`] returns.
    spec fn spec_from_qwerty(&self, qwerty_press: u8) -> u8;

    /// What [`Layout::to_qwerty`] returns.
    spec fn spec_to_qwerty(&self, layout_press: u8) -> u8;

    /// Translate a QWERTY key press into a key press from this layout, by keyboard position.
    /// For example, a QWERTY 's' translates into a Dvorak 'o' because they are located at
    /// the same place on the keyboard.
    fn from_qwerty(&self, qwerty_press: u8) -> (r: u8)
        ensures
            r == self.spec_from_qwerty(qwerty_press),
    ;

    /// Translate a key press from this layout into a QWERTY key press, by keyboard position.
    /// For example, a Dvorak 'e' translates into a QWERTY 'd' because they are located at
    /// the same place on the keyboard.
    fn to_qwerty(&self, layout_press: u8) -> (r: u8)
        ensures
            r == self.spec_to_qwerty(layout_press),
    ;

    /// Translate a QWERTY key code into a key code from this layout, by keyboard position:
    /// an ASCII character goes through [`Layout::from_qwerty`], anything else is returned
    /// unchanged.
    fn from_qwerty_keycode(&self, qwerty_press: KeyCode) -> (r: KeyCode)
        ensures
            r == translate_keycode(qwerty_press, |b: u8| self.spec_from_qwerty(b)),
    {
        match qwerty_press {
            KeyCode::Char(c) => {
                if (c as u32) >= 128 {
                    qwerty_press
                } else {
                    KeyCode::Char(self.from_qwerty(c as u8) as char)
                }
            },
            _ => qwerty_press,
        }
    }

    /// Translate a key code from this layout into a QWERTY key code, by keyboard position:
    /// an ASCII character goes through [`Layout::to_qwerty`], anything else is returned
    /// unchanged.
    fn to_qwerty_keycode(&self, layout_press: KeyCode) -> (r: KeyCode)
        ensures
            r == translate_keycode(layout_press, |b: u8| self.spec_to_qwerty(b)),
    {
        match layout_press {
            KeyCode::Char(c) => {
                if (c as u32) >= 128 {
                    layout_press
                } else {
                    KeyCode::Char(self.to_qwerty(c as u8) as char)
                }
            },
            _ => layout_press,
        }
    }
}

/// Struct that represents the QWERTY keyboard layout.
pub struct Qwerty;

impl Layout for Qwerty {
    open spec fn spec_from_qwerty(&self, qwerty_press: u8) -> u8 {
        qwerty_press
    }

    open spec fn spec_to_qwerty(&self, layout_press: u8) -> u8 {
        layout_press
    }

    fn from_qwerty(&self, qwerty_press: u8) -> (r: u8) {
        qwerty_press
    }

    fn to_qwerty(&self, layout_press: u8) -> (r: u8) {
        layout_press
    }
}

/// Struct that represents the [Dvorak keyboard
/// layout](https://en.wikipedia.org/wiki/Dvorak_keyboard_layout).
///
/// Note that this is not 'Programmer Dvorak'.
pub struct Dvorak;

impl Layout for Dvorak {
    open spec fn spec_from_qwerty(&self, qwerty_press: u8) -> u8 {
        dvorak_from_qwerty(qwerty_press)
    }

    open spec fn spec_to_qwerty(&self, layout_press: u8) -> u8 {
        dvorak_to_qwerty(layout_press)
    }

    fn from_qwerty(&self, qwerty_press: u8) -> (r: u8)
        decreases dvorak_depth(qwerty_press),
    {
        match qwerty_press {
            113 => 39,
            119 => 44,
            101 => 46,
            114 => 112,
            116 => 121,
            121 => 102,
            117 => 103,
            105 => 99,
            111 => 114,
            112 => 108,
            91 => 47,
            93 => 61,
            97 => 97,
            115 => 111,
            100 => 101,
            102 => 117,
            103 => 105,
            104 => 100,
            106 => 104,
            107 => 116,
            108 => 110,
            59 => 115,
            39 => 45,
            122 => 59,
            120 => 113,
            99 => 106,
            118 => 107,
            98 => 120,
            110 => 98,
            109 => 109,
            44 => 119,
            46 => 118,
            47 => 122,
            45 => 91,
            61 => 93,
            other => {
                // shift + qwerty letter => shift + dvorak equivalent
                // _, +, {, }, :, ", <, >, ? => shift + dvorak equivalent
                if (other >= 65 && other <= 90) || other == 95 || other == 43 || other == 123
                    || other == 125 || other == 58 || other == 34 || other == 60 || other == 62
                    || other == 63 {
                    shift_qwerty(self.from_qwerty(deshift_qwerty(other)))
                } else {
                    other
                }
            },
        }
    }

    fn to_qwerty(&self, layout_press: u8) -> (r: u8)
        decreases dvorak_depth(layout_press),
    {
        match layout_press {
            39 => 113,
            44 => 119,
            46 => 101,
            112 => 114,
            121 => 116,
            102 => 121,
            103 => 117,
            99 => 105,
            114 => 111,
            108 => 112,
            47 => 91,
            61 => 93,
            97 => 97,
            111 => 115,
            101 => 100,
            117 => 102,
            105 => 103,
            100 => 104,
            104 => 106,
            116 => 107,
            110 => 108,
            115 => 59,
            45 => 39,
            59 => 122,
            113 => 120,
            106 => 99,
            107 => 118,
            120 => 98,
            98 => 110,
            109 => 109,
            119 => 44,
            118 => 46,
            122 => 47,
            91 => 45,
            93 => 61,
            other => {
                // shift + dvorak letter => shift + qwerty equivalent
                // _, +, {, }, :, ", <, >, ? => shift + qwerty equivalent
                if (other >= 65 && other <= 90) || other == 95 || other == 43 || other == 123
                    || other == 125 || other == 58 || other == 34 || other == 60 || other == 62
                    || other == 63 {
                    shift_qwerty(self.to_qwerty(deshift_qwerty(other)))
                } else {
                    other
                }
            },
        }
    }
}

/// Struct that represents the [Colemak keyboard layout](https://en.wikipedia.org/wiki/Colemak)
///
/// Note that the caps lock in not replaced by backspace: terminals do not report presses of
/// the caps lock key.
pub struct Colemak;

impl Layout for Colemak {
    open spec fn spec_from_qwerty(&self, qwerty_press: u8) -> u8 {
        colemak_from_qwerty(qwerty_press)
    }

    open spec fn spec_to_qwerty(&self, layout_press: u8) -> u8 {
        colemak_to_qwerty(layout_press)
    }

    fn from_qwerty(&self, qwerty_press: u8) -> (r: u8)
        decreases colemak_depth(qwerty_press),
    {
        match qwerty_press {
            101 => 102,
            114 => 112,
            116 => 103,
            121 => 106,
            117 => 108,
            105 => 117,
            111 => 121,
            112 => 59,
            115 => 114,
            100 => 115,
            102 => 116,
            103 => 100,
            106 => 110,
            107 => 101,
            108 => 105,
            59 => 111,
            110 => 107,
            other => {
                // shift + qwerty letter => shift + colemak equivalent
                // : => O
                if (other >= 65 && other <= 90) || other == 58 {
                    shift_qwerty(self.from_qwerty(deshift_qwerty(other)))
                } else {
                    other
                }
            },
        }
    }

    fn to_qwerty(&self, layout_press: u8) -> (r: u8)
        decreases colemak_depth(layout_press),
    {
        match layout_press {
            102 => 101,
            112 => 114,
            103 => 116,
            106 => 121,
            108 => 117,
            117 => 105,
            121 => 111,
            59 => 112,
            114 => 115,
            115 => 100,
            116 => 102,
            100 => 103,
            110 => 106,
            101 => 107,
            105 => 108,
            111 => 59,
            107 => 110,
            other => {
                // shift + colemak letter => shift + qwerty equivalent
                // O => :
                if (other >= 65 && other <= 90) || other == 58 {
                    shift_qwerty(self.to_qwerty(deshift_qwerty(other)))
                } else {
                    other
                }
            },
        }
    }
}

/// Whether every character of `s` is ASCII.
pub open spec fn is_ascii_text(s: Seq<char>) -> bool {
    forall|i: int| 0 <= i < s.len() ==> (#[trigger] s[i] as u32) < 128
}

/// The name on the first line of a layout file, `layout <name>`, trimmed.
pub open spec fn layout_name(line: Seq<char>) -> Option<Seq<char>> {
    if starts_with(line, "layout "@) {
        Some(trim(line.skip(7)))
    } else {
        None
    }
}

/// The pair on a line `<qwerty character> => <layout character>` of a layout file: an ASCII
/// line whose text, without trailing whitespace, is split at the first ` => ` into two single
/// characters.
pub open spec fn layout_pair(line: Seq<char>) -> Option<(u8, u8)> {
    let t = trim_end(line);
    let i = find_seq(t, " => "@);
    if !is_ascii_text(line) || i < 0 {
        None
    } else if t.take(i).len() == 1 && t.skip(i + 4).len() == 1 {
        Some(((t[0] as u32) as u8, (t[i + 4] as u32) as u8))
    } else {
        None
    }
}

/// The error of a line that [`layout_pair`] does not accept, on line `n` of the file.
pub open spec fn layout_pair_error(line: Seq<char>, n: usize) -> LayoutParseError {
    if !is_ascii_text(line) {
        LayoutParseError::NonAsciiCharacter { line: n }
    } else if find_seq(trim_end(line), " => "@) < 0 {
        LayoutParseError::MalformedLayoutPair { line: n }
    } else {
        LayoutParseError::NonCharacterMapping { line: n }
    }
}

/// The maps from QWERTY to the layout and back that the pairs `ps` give, a later pair
/// replacing an earlier one.
pub open spec fn pair_maps(ps: Seq<(u8, u8)>) -> (Map<u8, u8>, Map<u8, u8>)
    decreases ps.len(),
{
    if ps.len() == 0 {
        (Map::empty(), Map::empty())
    } else {
        let (f, t) = pair_maps(ps.drop_last());
        let (q, l) = ps.last();
        (f.insert(q, l), t.insert(l, q))
    }
}

/// The pairs of the lines `ls` after the first.
pub open spec fn layout_pairs(ls: Seq<Seq<char>>) -> Seq<(u8, u8)> {
    Seq::new((ls.len() - 1) as nat, |k: int| layout_pair(ls[k + 1])->0)
}

/// Whether the text of a layout file is well formed: a name line, then only pairs.
pub open spec fn layout_text_ok(text: Seq<char>) -> bool {
    let ls = lines_of(text);
    &&& ls.len() > 0
    &&& layout_name(ls[0]) is Some
    &&& forall|k: int| 1 <= k < ls.len() ==> #[trigger] layout_pair(ls[k]) is Some
}

/// The error of a layout file whose text [`layout_text_ok`] does not accept: the first
/// problem, where line `k` (counted from 0) is numbered `k + 1`.
pub open spec fn layout_text_error(text: Seq<char>, e: LayoutParseError) -> bool {
    let ls = lines_of(text);
    if ls.len() == 0 {
        e == LayoutParseError::NoFirstLine
    } else if layout_name(ls[0]) is None {
        e == LayoutParseError::NoLayoutName
    } else {
        exists|k: int|
            1 <= k < ls.len() && #[trigger] layout_pair(ls[k]) is None && (forall|j: int|
                1 <= j < k ==> layout_pair(ls[j]) is Some) && k + 1 <= usize::MAX && e
                == layout_pair_error(ls[k], (k + 1) as usize)
    }
}

/// A line `a => b` of a layout file, for ASCII characters `a` and `b` (`b` not whitespace),
/// pairs the QWERTY character `a` with the layout character `b`.
pub proof fn lemma_pair_line(a: char, b: char)
    requires
        (a as u32) < 128,
        (b as u32) < 128,
        !is_whitespace(b),
    ensures
        layout_pair(seq![a, ' ', '=', '>', ' ', b]) == Some(((a as u32) as u8, (b as u32) as u8)),
{
    reveal_strlit(" => ");
    let t = seq![a, ' ', '=', '>', ' ', b];
    assert(t.drop_last().len() == 5);
    assert(trim_end(t) == t);
    assert(t.take(4) != " => "@) by {
        assert(t.take(4)[2] != " => "@[2]);
    }
    assert(t.drop_first() =~= seq![' ', '=', '>', ' ', b]);
    assert(t.drop_first().take(4) =~= " => "@);
    assert(find_seq(t.drop_first(), " => "@) == 0);
    assert(find_seq(t, " => "@) == 1);
    assert(t.take(1).len() == 1);
    assert(t.skip(5) =~= seq![b]);
    assert(is_ascii_text(t));
}

proof fn lemma_last_pair_wins_from(ps: Seq<(u8, u8)>, x: u8, i: int)
    requires
        0 <= i < ps.len(),
        ps[i].0 == x,
        forall|j: int| i < j < ps.len() ==> #[trigger] ps[j].0 != x,
    ensures
        pair_maps(ps).0.contains_key(x),
        pair_maps(ps).0[x] == ps[i].1,
    decreases ps.len(),
{
    let n = ps.len() - 1;
    let p0 = ps.drop_last();
    assert(pair_maps(ps).0 == pair_maps(p0).0.insert(ps[n].0, ps[n].1));
    if i < n {
        assert(ps[n].0 != x);
        assert forall|j: int| i < j < p0.len() implies #[trigger] p0[j].0 != x by {
            assert(p0[j] == ps[j]);
        }
        assert(p0[i] == ps[i]);
        lemma_last_pair_wins_from(p0, x, i);
    }
}

proof fn lemma_last_pair_wins_from_absent(ps: Seq<(u8, u8)>, x: u8)
    requires
        forall|i: int| 0 <= i < ps.len() ==> #[trigger] ps[i].0 != x,
    ensures
        !pair_maps(ps).0.contains_key(x),
    decreases ps.len(),
{
    if ps.len() > 0 {
        let n = ps.len() - 1;
        let p0 = ps.drop_last();
        assert forall|i: int| 0 <= i < p0.len() implies #[trigger] p0[i].0 != x by {
            assert(p0[i] == ps[i]);
        }
        lemma_last_pair_wins_from_absent(p0, x);
        assert(ps[n].0 != x);
    }
}

proof fn lemma_last_pair_wins_to(ps: Seq<(u8, u8)>, x: u8, i: int)
    requires
        0 <= i < ps.len(),
        ps[i].1 == x,
        forall|j: int| i < j < ps.len() ==> #[trigger] ps[j].1 != x,
    ensures
        pair_maps(ps).1.contains_key(x),
        pair_maps(ps).1[x] == ps[i].0,
    decreases ps.len(),
{
    let n = ps.len() - 1;
    let p0 = ps.drop_last();
    assert(pair_maps(ps).1 == pair_maps(p0).1.insert(ps[n].1, ps[n].0));
    if i < n {
        assert(ps[n].1 != x);
        assert forall|j: int| i < j < p0.len() implies #[trigger] p0[j].1 != x by {
            assert(p0[j] == ps[j]);
        }
        assert(p0[i] == ps[i]);
        lemma_last_pair_wins_to(p0, x, i);
    }
}

proof fn lemma_last_pair_wins_to_absent(ps: Seq<(u8, u8)>, x: u8)
    requires
        forall|i: int| 0 <= i < ps.len() ==> #[trigger] ps[i].1 != x,
    ensures
        !pair_maps(ps).1.contains_key(x),
    decreases ps.len(),
{
    if ps.len() > 0 {
        let n = ps.len() - 1;
        let p0 = ps.drop_last();
        assert forall|i: int| 0 <= i < p0.len() implies #[trigger] p0[i].1 != x by {
            assert(p0[i] == ps[i]);
        }
        lemma_last_pair_wins_to_absent(p0, x);
        assert(ps[n].1 != x);
    }
}

/// In a layout file the last pair given for a key is the one in force: a QWERTY character
/// translates to the layout character of the last pair that names it, and back, and a
/// character that no pair names is not translated.
pub proof fn lemma_last_pair_wins(ps: Seq<(u8, u8)>, x: u8)
    ensures
        forall|i: int|
            0 <= i < ps.len() && ps[i].0 == x && (forall|j: int| i < j < ps.len() ==> ps[j].0 != x)
                ==> pair_maps(ps).0.contains_key(x) && pair_maps(ps).0[x] == #[trigger] ps[i].1,
        (forall|i: int| 0 <= i < ps.len() ==> ps[i].0 != x) ==> !pair_maps(ps).0.contains_key(x),
        forall|i: int|
            0 <= i < ps.len() && ps[i].1 == x && (forall|j: int| i < j < ps.len() ==> ps[j].1 != x)
                ==> pair_maps(ps).1.contains_key(x) && pair_maps(ps).1[x] == #[trigger] ps[i].0,
        (forall|i: int| 0 <= i < ps.len() ==> ps[i].1 != x) ==> !pair_maps(ps).1.contains_key(x),
{
    assert forall|i: int|
        0 <= i < ps.len() && ps[i].0 == x && (forall|j: int| i < j < ps.len() ==> ps[j].0 != x)
            implies pair_maps(ps).0.contains_key(x) && pair_maps(ps).0[x] == #[trigger] ps[i].1 by {
        lemma_last_pair_wins_from(ps, x, i);
    }
    assert forall|i: int|
        0 <= i < ps.len() && ps[i].1 == x && (forall|j: int| i < j < ps.len() ==> ps[j].1 != x)
            implies pair_maps(ps).1.contains_key(x) && pair_maps(ps).1[x] == #[trigger] ps[i].0 by {
        lemma_last_pair_wins_to(ps, x, i);
    }
    if forall|i: int| 0 <= i < ps.len() ==> ps[i].0 != x {
        lemma_last_pair_wins_from_absent(ps, x);
    }
    if forall|i: int| 0 <= i < ps.len() ==> ps[i].1 != x {
        lemma_last_pair_wins_to_absent(ps, x);
    }
}

/// Struct that represents custom, user-defined keyboard layouts.
///
/// Its content is read from a layout file: a first line `layout <name>`, then one line
/// `<qwerty character> => <layout character>` per translated key.
#[derive(Debug, Clone)]
pub struct CustomLayout {
    from_qwerty_map: HashMap<u8, u8>,
    to_qwerty_map: HashMap<u8, u8>,
    name: String,
}

fn is_ascii_chars(v: &[char]) -> (b: bool)
    ensures
        b == is_ascii_text(v@),
{
    let mut i: usize = 0;
    while i < v.len()
        invariant
            i <= v@.len(),
            forall|j: int| 0 <= j < i ==> (#[trigger] v@[j] as u32) < 128,
        decreases v@.len() - i,
    {
        if (v[i] as u32) >= 128 {
            return false;
        }
        i += 1;
    }
    true
}

impl CustomLayout {
    /// The map of QWERTY key presses to this layout's.
    pub closed spec fn from_map(&self) -> Map<u8, u8> {
        self.from_qwerty_map@
    }

    /// The map of this layout's key presses to QWERTY ones.
    pub closed spec fn to_map(&self) -> Map<u8, u8> {
        self.to_qwerty_map@
    }

    /// The name of the layout.
    pub closed spec fn name_view(&self) -> Seq<char> {
        self.name@
    }

    /// Parses the text of a layout file.
    pub fn parse(text: &str) -> (r: Result<Self, LayoutParseError>)
        ensures
            r is Ok <==> layout_text_ok(text@),
            r matches Ok(c) ==> ({
                let ls = lines_of(text@);
                &&& c.name_view() == layout_name(ls[0])->0
                &&& c.from_map() == pair_maps(layout_pairs(ls)).0
                &&& c.to_map() == pair_maps(layout_pairs(ls)).1
            }),
            r matches Err(e) ==> layout_text_error(text@, e),
    {
        let v = chars_of(text);
        let ls = lines(v.as_slice());
        let ghost lv = lines_of(text@);
        assert(ls@.len() == lv.len());
        if ls.len() == 0 {
            return Err(LayoutParseError::NoFirstLine);
        }
        assert(ls@[0]@ == lv[0]);
        let name = match Self::parse_name_chars(ls[0].as_slice()) {
            Ok(n) => n,
            Err(e) => return Err(e),
        };
        let mut from_qwerty_map: HashMap<u8, u8> = HashMap::new();
        let mut to_qwerty_map: HashMap<u8, u8> = HashMap::new();
        let mut k: usize = 1;
        assert(pair_maps(layout_pairs(lv.take(1))) == (Map::<u8, u8>::empty(), Map::<u8, u8>::empty()));
        while k < ls.len()
            invariant
                1 <= k <= ls@.len(),
                ls@.len() == lv.len(),
                lv == lines_of(text@),
                layout_name(lv[0]) is Some,
                forall|j: int| 0 <= j < lv.len() ==> #[trigger] ls@[j]@ == lv[j],
                forall|j: int| 1 <= j < k ==> #[trigger] layout_pair(lv[j]) is Some,
                (from_qwerty_map@, to_qwerty_map@) == pair_maps(layout_pairs(lv.take(k as int))),
            decreases ls@.len() - k,
        {
            assert(ls@[k as int]@ == lv[k as int]);
            if k == usize::MAX {
                return Err(LayoutParseError::NonAsciiCharacter { line: 0 });
            }
            let (q, l) = match Self::parse_pair_chars(ls[k].as_slice(), k + 1) {
                Ok(p) => p,
                Err(e) => {
                    assert(layout_pair(lv[k as int]) is None);
                    return Err(e);
                },
            };
            from_qwerty_map.insert(q, l);
            to_qwerty_map.insert(l, q);
            proof {
                let ps = layout_pairs(lv.take(k + 1));
                assert(ps.drop_last() =~= layout_pairs(lv.take(k as int)));
                assert(ps.last() == (q, l));
            }
            k += 1;
        }
        assert(lv.take(lv.len() as int) =~= lv);
        Ok(CustomLayout { from_qwerty_map, to_qwerty_map, name: string_of(name.as_slice()) })
    }

    /// The name of this layout.
    pub fn name(&self) -> (s: &str)
        ensures
            s@ == self.name_view(),
    {
        self.name.as_str()
    }

    /// Parses the first line of a layout file, `layout <name>`.
    pub fn parse_name(line: &str) -> (r: Result<String, LayoutParseError>)
        ensures
            match layout_name(line@) {
                Some(n) => r matches Ok(s) && s@ == n,
                None => r == Err::<String, LayoutParseError>(LayoutParseError::NoLayoutName),
            },
    {
        let v = chars_of(line);
        match Self::parse_name_chars(v.as_slice()) {
            Ok(n) => Ok(string_of(n.as_slice())),
            Err(e) => Err(e),
        }
    }

    fn parse_name_chars(line: &[char]) -> (r: Result<Vec<char>, LayoutParseError>)
        ensures
            match layout_name(line@) {
                Some(n) => r matches Ok(s) && s@ == n,
                None => r == Err::<Vec<char>, LayoutParseError>(LayoutParseError::NoLayoutName),
            },
    {
        let prefix = chars_of("layout ");
        proof {
            reveal_strlit("layout ");
        }
        if starts_with_chars(line, prefix.as_slice()) {
            let rest = subslice(line, 7, line.len());
            assert(rest@ =~= line@.skip(7));
            Ok(trim_chars(rest.as_slice()))
        } else {
            Err(LayoutParseError::NoLayoutName)
        }
    }

    /// Parses a pair line `<qwerty character> => <layout character>`, numbered `line_num`.
    pub fn parse_pair(line: &str, line_num: usize) -> (r: Result<(u8, u8), LayoutParseError>)
        ensures
            match layout_pair(line@) {
                Some(p) => r == Ok::<(u8, u8), LayoutParseError>(p),
                None => r == Err::<(u8, u8), LayoutParseError>(layout_pair_error(line@, line_num)),
            },
    {
        let v = chars_of(line);
        Self::parse_pair_chars(v.as_slice(), line_num)
    }

    fn parse_pair_chars(line: &[char], line_num: usize) -> (r: Result<(u8, u8), LayoutParseError>)
        ensures
            match layout_pair(line@) {
                Some(p) => r == Ok::<(u8, u8), LayoutParseError>(p),
                None => r == Err::<(u8, u8), LayoutParseError>(layout_pair_error(line@, line_num)),
            },
    {
        if !is_ascii_chars(line) {
            return Err(LayoutParseError::NonAsciiCharacter { line: line_num });
        }
        let t = trim_end_chars(line);
        let sep = chars_of(" => ");
        proof {
            reveal_strlit(" => ");
        }
        match split_once_chars(t.as_slice(), sep.as_slice()) {
            Some((a, b)) => {
                if a.len() == 1 && b.len() == 1 {
                    let ghost i = find_seq(t@, " => "@);
                    proof {
                        lemma_find_seq_bound(t@, sep@);
                    }
                    assert(sep@ == " => "@);
                    assert(sep@.len() == 4);
                    assert(a@ == t@.take(i));
                    assert(b@ == t@.skip(i + 4));
                    assert(a@[0] == t@.take(i)[0]);
                    assert(b@[0] == t@.skip(i + 4)[0]);
                    let c0 = a[0];
                    let c1 = b[0];
                    assert(c0 == t@[0]);
                    assert(c1 == t@[i + 4]);
                    let x = (c0 as u32) as u8;
                    let y = (c1 as u32) as u8;
                    assert(t@ == trim_end(line@));
                    assert(x == (t@[0] as u32) as u8);
                    assert(y == (t@[i + 4] as u32) as u8);
                    assert(t@.take(i).len() == 1);
                    assert(layout_pair(line@) == Some((x, y)));
                    Ok((x, y))
                } else {
                    Err(LayoutParseError::NonCharacterMapping { line: line_num })
                }
            },
            None => Err(LayoutParseError::MalformedLayoutPair { line: line_num }),
        }
    }
}

impl Layout for CustomLayout {
    open spec fn spec_from_qwerty(&self, qwerty_press: u8) -> u8 {
        if self.from_map().contains_key(qwerty_press) {
            self.from_map()[qwerty_press]
        } else {
            qwerty_press
        }
    }

    open spec fn spec_to_qwerty(&self, layout_press: u8) -> u8 {
        if self.to_map().contains_key(layout_press) {
            self.to_map()[layout_press]
        } else {
            layout_press
        }
    }

    fn from_qwerty(&self, qwerty_press: u8) -> (r: u8) {
        match self.from_qwerty_map.get(&qwerty_press) {
            Some(l) => *l,
            None => qwerty_press,
        }
    }

    fn to_qwerty(&self, layout_press: u8) -> (r: u8) {
        match self.to_qwerty_map.get(&layout_press) {
            Some(q) => *q,
            None => layout_press,
        }
    }
}

} // verus!
