//! The per-tick input frame of one player: a packed byte of movement axes,
//! fire and revive.
use vstd::prelude::*;

verus! {

pub const INPUT_UP: u8 = 1;
pub const INPUT_DOWN: u8 = 2;
pub const INPUT_LEFT: u8 = 4;
pub const INPUT_RIGHT: u8 = 8;
pub const INPUT_FIRE: u8 = 16;
pub const INPUT_REVIVE: u8 = 32;

/// The bits that carry meaning in an input frame.
pub const INPUT_MASK: u8 = 63;

pub open spec fn bit_value(pressed: bool, bit: u8) -> int {
    if pressed {
        bit as int
    } else {
        0
    }
}

/// Packs the pressed controls of one player into an input frame.
pub fn game_input(up: bool, down: bool, left: bool, right: bool, fire: bool, revive: bool) -> (r: u8)
    ensures
        r as int == bit_value(up, INPUT_UP) + bit_value(down, INPUT_DOWN) + bit_value(left, INPUT_LEFT)
            + bit_value(right, INPUT_RIGHT) + bit_value(fire, INPUT_FIRE) + bit_value(revive, INPUT_REVIVE),
{
    let mut input: u8 = 0;
    if up {
        input = input + INPUT_UP;
    }
    if down {
        input = input + INPUT_DOWN;
    }
    if left {
        input = input + INPUT_LEFT;
    }
    if right {
        input = input + INPUT_RIGHT;
    }
    if fire {
        input = input + INPUT_FIRE;
    }
    if revive {
        input = input + INPUT_REVIVE;
    }
    input
}

/// The horizontal movement axis of an input: -1 (left), 0 or 1 (right).
pub open spec fn axis_x(input: u8) -> int {
    (if input & INPUT_RIGHT != 0 { 1int } else { 0int }) - (if input & INPUT_LEFT != 0 { 1int } else { 0int })
}

/// The vertical movement axis of an input: -1 (down), 0 or 1 (up).
pub open spec fn axis_y(input: u8) -> int {
    (if input & INPUT_UP != 0 { 1int } else { 0int }) - (if input & INPUT_DOWN != 0 { 1int } else { 0int })
}

/// The movement direction an input asks for, as a pair of axes; opposite
/// keys cancel out.
pub fn direction(input: u8) -> (r: (i32, i32))
    ensures
        r.0 as int == axis_x(input),
        r.1 as int == axis_y(input),
{
    let mut x: i32 = 0;
    let mut y: i32 = 0;
    if input & INPUT_UP != 0 {
        y = y + 1;
    }
    if input & INPUT_DOWN != 0 {
        y = y - 1;
    }
    if input & INPUT_RIGHT != 0 {
        x = x + 1;
    }
    if input & INPUT_LEFT != 0 {
        x = x - 1;
    }
    (x, y)
}

/// Reading the action bits of an input frame.
pub trait GameInput {
    spec fn spec_is_fire(&self) -> bool;

    spec fn spec_is_revive(&self) -> bool;

    fn is_fire(&self) -> (r: bool)
        ensures
            r == self.spec_is_fire(),
    ;

    fn is_revive(&self) -> (r: bool)
        ensures
            r == self.spec_is_revive(),
    ;
}

impl GameInput for u8 {
    open spec fn spec_is_fire(&self) -> bool {
        *self & INPUT_FIRE != 0
    }

    open spec fn spec_is_revive(&self) -> bool {
        *self & INPUT_REVIVE != 0
    }

    fn is_fire(&self) -> (r: bool) {
        *self & INPUT_FIRE != 0
    }

    fn is_revive(&self) -> (r: bool) {
        *self & INPUT_REVIVE != 0
    }
}

/// The input frame received from a peer, or the neutral frame where the
/// bytes do not decode: a frame is one byte with no bit outside the known
/// controls. Gives the frame and whether it was malformed.
pub fn decode_input_frame(bytes: &[u8]) -> (r: (u8, bool))
    ensures
        bytes@.len() == 1 && bytes@[0] & !INPUT_MASK == 0 ==> r == (bytes@[0], false),
        !(bytes@.len() == 1 && bytes@[0] & !INPUT_MASK == 0) ==> r == (0u8, true),
{
    if bytes.len() == 1 && bytes[0] & !INPUT_MASK == 0 {
        (bytes[0], false)
    } else {
        (0, true)
    }
}

} // verus!
