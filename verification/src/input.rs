//! Keyboard state as bit flags: which keys are held, and which went down
//! since the last frame.

use crate::text::chars_of;
use vstd::prelude::*;

verus! {

/// Bit flags for all keys the controls use.
#[derive(Clone, Copy)]
pub struct KeyState {
    pub pressed: u32,
    pub just_pressed: u32,
}

impl Default for KeyState {
    fn default() -> (k: KeyState)
        ensures
            k.pressed == 0,
            k.just_pressed == 0,
    {
        KeyState { pressed: 0, just_pressed: 0 }
    }
}

impl KeyState {
    pub const K: u32 = 1;
    pub const H: u32 = 2;
    pub const J: u32 = 4;
    pub const L: u32 = 8;
    pub const UP: u32 = 16;
    pub const DOWN: u32 = 32;
    pub const LEFT: u32 = 64;
    pub const RIGHT: u32 = 128;
    pub const Z: u32 = 256;
    pub const X: u32 = 512;
    /// Pause.
    pub const P: u32 = 1024;
    /// Speed up (o for faster).
    pub const O: u32 = 2048;
    /// Speed down (i for slower).
    pub const I: u32 = 4096;
    /// Reload pattern.
    pub const R: u32 = 8192;
    /// Show or hide the HUD and the controls help.
    pub const T: u32 = 16384;
    /// One generation forward while paused.
    pub const STEP_FORWARD: u32 = 32768;
    /// One generation back while paused.
    pub const STEP_BACK: u32 = 65536;

    /// Whether any key of `key` is held.
    pub fn is_pressed(&self, key: u32) -> (b: bool)
        ensures
            b == (self.pressed & key != 0),
    {
        self.pressed & key != 0
    }

    /// Whether any key of `key` went down since the last frame.
    pub fn is_just_pressed(&self, key: u32) -> (b: bool)
        ensures
            b == (self.just_pressed & key != 0),
    {
        self.just_pressed & key != 0
    }

    /// A key went down: unless it was already held, it is now held and
    /// counts as just pressed. Bit 0 (an unknown key) changes nothing.
    pub fn key_down(&mut self, bit: u32)
        ensures
            bit != 0 && old(self).pressed & bit == 0 ==> final(self).pressed == old(self).pressed
                | bit && final(self).just_pressed == old(self).just_pressed | bit,
            !(bit != 0 && old(self).pressed & bit == 0) ==> *final(self) == *old(self),
    {
        if bit != 0 && !self.is_pressed(bit) {
            self.pressed = self.pressed | bit;
            self.just_pressed = self.just_pressed | bit;
        }
    }

    /// A key went up: it is no longer held; whether it was just pressed
    /// stays until the frame takes it. Bit 0 changes nothing.
    pub fn key_up(&mut self, bit: u32)
        ensures
            bit != 0 ==> final(self).pressed == old(self).pressed & !bit,
            bit == 0 ==> final(self).pressed == old(self).pressed,
            final(self).just_pressed == old(self).just_pressed,
    {
        if bit != 0 {
            self.pressed = self.pressed & !bit;
        }
    }

    /// The input for this frame: the keys held and the keys just pressed;
    /// clears the just-pressed keys for the next frame.
    pub fn take_frame(&mut self) -> (frame: KeyState)
        ensures
            frame == *old(self),
            final(self).pressed == old(self).pressed,
            final(self).just_pressed == 0,
    {
        let just = self.just_pressed;
        self.just_pressed = 0;
        KeyState { pressed: self.pressed, just_pressed: just }
    }
}

/// The key flag for a `KeyboardEvent::key` name: the letters k, h, j, l,
/// z, x, p, o, i and r in either case, the four arrows, and 0 for any other
/// key.
pub open spec fn key_flag(key: Seq<char>) -> u32 {
    if key == seq!['k'] || key == seq!['K'] {
        KeyState::K
    } else if key == seq!['h'] || key == seq!['H'] {
        KeyState::H
    } else if key == seq!['j'] || key == seq!['J'] {
        KeyState::J
    } else if key == seq!['l'] || key == seq!['L'] {
        KeyState::L
    } else if key == seq!['A', 'r', 'r', 'o', 'w', 'U', 'p'] {
        KeyState::UP
    } else if key == seq!['A', 'r', 'r', 'o', 'w', 'D', 'o', 'w', 'n'] {
        KeyState::DOWN
    } else if key == seq!['A', 'r', 'r', 'o', 'w', 'L', 'e', 'f', 't'] {
        KeyState::LEFT
    } else if key == seq!['A', 'r', 'r', 'o', 'w', 'R', 'i', 'g', 'h', 't'] {
        KeyState::RIGHT
    } else if key == seq!['z'] || key == seq!['Z'] {
        KeyState::Z
    } else if key == seq!['x'] || key == seq!['X'] {
        KeyState::X
    } else if key == seq!['p'] || key == seq!['P'] {
        KeyState::P
    } else if key == seq!['o'] || key == seq!['O'] {
        KeyState::O
    } else if key == seq!['i'] || key == seq!['I'] {
        KeyState::I
    } else if key == seq!['r'] || key == seq!['R'] {
        KeyState::R
    } else {
        0
    }
}

/// Whether `key` is a single character, either `lower` or `upper`.
fn is_letter(key: &Vec<char>, lower: char, upper: char) -> (b: bool)
    ensures
        b == (key@ == seq![lower] || key@ == seq![upper]),
{
    if key.len() == 1 && (key[0] == lower || key[0] == upper) {
        proof {
            if key[0] == lower {
                assert(key@ =~= seq![lower]);
            } else {
                assert(key@ =~= seq![upper]);
            }
        }
        true
    } else {
        proof {
            if key@.len() == 1 {
                assert(key@ != seq![lower]) by {
                    assert(seq![lower][0] == lower);
                }
                assert(key@ != seq![upper]) by {
                    assert(seq![upper][0] == upper);
                }
            }
        }
        false
    }
}

/// Whether `key` holds exactly the characters of `name`.
fn is_named(key: &Vec<char>, name: &Vec<char>) -> (b: bool)
    ensures
        b == (key@ == name@),
{
    if key.len() != name.len() {
        return false;
    }
    let mut i: usize = 0;
    while i < key.len()
        invariant
            key@.len() == name@.len(),
            i <= key@.len(),
            forall|j: int| 0 <= j < i ==> key@[j] == name@[j],
        decreases key.len() - i,
    {
        if key[i] != name[i] {
            return false;
        }
        i += 1;
    }
    assert(key@ =~= name@);
    true
}

/// The key flag for a `KeyboardEvent::key` name (see `key_flag`).
pub fn key_to_bit(key: &str) -> (bit: u32)
    ensures
        bit == key_flag(key@),
{
    let k = chars_of(key);
    let up: Vec<char> = vec!['A', 'r', 'r', 'o', 'w', 'U', 'p'];
    let down: Vec<char> = vec!['A', 'r', 'r', 'o', 'w', 'D', 'o', 'w', 'n'];
    let left: Vec<char> = vec!['A', 'r', 'r', 'o', 'w', 'L', 'e', 'f', 't'];
    let right: Vec<char> = vec!['A', 'r', 'r', 'o', 'w', 'R', 'i', 'g', 'h', 't'];
    proof {
        assert(up@ =~= seq!['A', 'r', 'r', 'o', 'w', 'U', 'p']);
        assert(down@ =~= seq!['A', 'r', 'r', 'o', 'w', 'D', 'o', 'w', 'n']);
        assert(left@ =~= seq!['A', 'r', 'r', 'o', 'w', 'L', 'e', 'f', 't']);
        assert(right@ =~= seq!['A', 'r', 'r', 'o', 'w', 'R', 'i', 'g', 'h', 't']);
    }
    if is_letter(&k, 'k', 'K') {
        KeyState::K
    } else if is_letter(&k, 'h', 'H') {
        KeyState::H
    } else if is_letter(&k, 'j', 'J') {
        KeyState::J
    } else if is_letter(&k, 'l', 'L') {
        KeyState::L
    } else if is_named(&k, &up) {
        KeyState::UP
    } else if is_named(&k, &down) {
        KeyState::DOWN
    } else if is_named(&k, &left) {
        KeyState::LEFT
    } else if is_named(&k, &right) {
        KeyState::RIGHT
    } else if is_letter(&k, 'z', 'Z') {
        KeyState::Z
    } else if is_letter(&k, 'x', 'X') {
        KeyState::X
    } else if is_letter(&k, 'p', 'P') {
        KeyState::P
    } else if is_letter(&k, 'o', 'O') {
        KeyState::O
    } else if is_letter(&k, 'i', 'I') {
        KeyState::I
    } else if is_letter(&k, 'r', 'R') {
        KeyState::R
    } else {
        0
    }
}

/// A key that goes down shows as held and just pressed, and only its bits
/// change; a key that goes up shows as not held, and only its bits change.
pub proof fn law_key_flags(pressed: u32, just: u32, bit: u32, other: u32)
    requires
        other & bit == 0,
    ensures
        (pressed | bit) & bit == bit,
        (just | bit) & bit == bit,
        (pressed | bit) & other == pressed & other,
        (pressed & !bit) & bit == 0,
        (pressed & !bit) & other == pressed & other,
{
    assert((pressed | bit) & bit == bit) by (bit_vector);
    assert((just | bit) & bit == bit) by (bit_vector);
    assert((pressed | bit) & other == pressed & other) by (bit_vector)
        requires
            other & bit == 0,
    ;
    assert((pressed & !bit) & bit == 0) by (bit_vector);
    assert((pressed & !bit) & other == pressed & other) by (bit_vector)
        requires
            other & bit == 0,
    ;
}


/// Each control key maps to its own flag, as the key table says: a letter
/// in either case gives the flag named after it, each arrow its own, and
/// the flags are distinct single bits, so different keys never share one.
pub proof fn law_key_table()
    ensures
        key_flag(seq!['k']) == KeyState::K,
        key_flag(seq!['K']) == KeyState::K,
        key_flag(seq!['h']) == KeyState::H,
        key_flag(seq!['H']) == KeyState::H,
        key_flag(seq!['j']) == KeyState::J,
        key_flag(seq!['J']) == KeyState::J,
        key_flag(seq!['l']) == KeyState::L,
        key_flag(seq!['L']) == KeyState::L,
        key_flag(seq!['z']) == KeyState::Z,
        key_flag(seq!['Z']) == KeyState::Z,
        key_flag(seq!['x']) == KeyState::X,
        key_flag(seq!['X']) == KeyState::X,
        key_flag(seq!['p']) == KeyState::P,
        key_flag(seq!['P']) == KeyState::P,
        key_flag(seq!['o']) == KeyState::O,
        key_flag(seq!['O']) == KeyState::O,
        key_flag(seq!['i']) == KeyState::I,
        key_flag(seq!['I']) == KeyState::I,
        key_flag(seq!['r']) == KeyState::R,
        key_flag(seq!['R']) == KeyState::R,
        key_flag(seq!['A', 'r', 'r', 'o', 'w', 'U', 'p']) == KeyState::UP,
        key_flag(seq!['A', 'r', 'r', 'o', 'w', 'D', 'o', 'w', 'n']) == KeyState::DOWN,
        key_flag(seq!['A', 'r', 'r', 'o', 'w', 'L', 'e', 'f', 't']) == KeyState::LEFT,
        key_flag(seq!['A', 'r', 'r', 'o', 'w', 'R', 'i', 'g', 'h', 't']) == KeyState::RIGHT,
        KeyState::K == 1 && KeyState::H == 2 && KeyState::J == 4 && KeyState::L == 8 && KeyState::UP == 16 && KeyState::DOWN == 32 && KeyState::LEFT == 64,
        KeyState::RIGHT == 128 && KeyState::Z == 256 && KeyState::X == 512 && KeyState::P == 1024 && KeyState::O == 2048 && KeyState::I == 4096 && KeyState::R == 8192,
{
    assert(seq!['k'][0] == 'k' && seq!['K'][0] == 'K');
    assert(seq!['h'][0] == 'h' && seq!['H'][0] == 'H');
    assert(seq!['j'][0] == 'j' && seq!['J'][0] == 'J');
    assert(seq!['l'][0] == 'l' && seq!['L'][0] == 'L');
    assert(seq!['z'][0] == 'z' && seq!['Z'][0] == 'Z');
    assert(seq!['x'][0] == 'x' && seq!['X'][0] == 'X');
    assert(seq!['p'][0] == 'p' && seq!['P'][0] == 'P');
    assert(seq!['o'][0] == 'o' && seq!['O'][0] == 'O');
    assert(seq!['i'][0] == 'i' && seq!['I'][0] == 'I');
    assert(seq!['r'][0] == 'r' && seq!['R'][0] == 'R');
}

} // verus!
