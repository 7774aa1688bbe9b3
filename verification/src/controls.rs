//! What one frame's keyboard input asks for: pan direction, zoom, pause,
//! simulation speed, and a pattern reload.

use crate::camera::Camera;
use crate::config::{DEFAULT_SPEED_EXPONENT, MAX_SPEED_EXPONENT, MIN_SPEED_EXPONENT};
use crate::input::KeyState;
use vstd::prelude::*;

verus! {

/// The speed exponent after one doubling, capped at the fastest speed.
pub open spec fn faster_exponent(e: int) -> int {
    if e < MAX_SPEED_EXPONENT {
        e + 1
    } else {
        e
    }
}

/// The speed exponent after one halving, capped at the slowest speed.
pub open spec fn slower_exponent(e: int) -> int {
    if e > MIN_SPEED_EXPONENT {
        e - 1
    } else {
        e
    }
}

/// Simulation speed: `2^exponent` ticks per second, the exponent kept
/// within `MIN_SPEED_EXPONENT..=MAX_SPEED_EXPONENT`. Doubling and halving a
/// power of two within that range is exact, so this is the same speed as
/// a floating-point rate doubled and halved between the same bounds.
pub struct TickSpeed {
    exponent: i32,
}

impl View for TickSpeed {
    type V = int;

    closed spec fn view(&self) -> int {
        self.exponent as int
    }
}

impl TickSpeed {
    #[verifier::type_invariant]
    closed spec fn exponent_in_range(self) -> bool {
        MIN_SPEED_EXPONENT <= self.exponent <= MAX_SPEED_EXPONENT
    }

    /// The starting speed, 8 ticks per second.
    pub fn new() -> (s: TickSpeed)
        ensures
            s@ == DEFAULT_SPEED_EXPONENT,
    {
        TickSpeed { exponent: DEFAULT_SPEED_EXPONENT }
    }

    /// The speed as a power of two ticks per second.
    pub fn exponent(&self) -> (e: i32)
        ensures
            e == self@,
            MIN_SPEED_EXPONENT <= e <= MAX_SPEED_EXPONENT,
    {
        proof {
            use_type_invariant(self);
        }
        self.exponent
    }

    /// Twice as fast, up to the fastest speed.
    pub fn faster(&mut self)
        ensures
            final(self)@ == faster_exponent(old(self)@),
    {
        proof {
            use_type_invariant(&*self);
        }
        if self.exponent < MAX_SPEED_EXPONENT {
            self.exponent = self.exponent + 1;
        }
    }

    /// Half as fast, down to the slowest speed.
    pub fn slower(&mut self)
        ensures
            final(self)@ == slower_exponent(old(self)@),
    {
        proof {
            use_type_invariant(&*self);
        }
        if self.exponent > MIN_SPEED_EXPONENT {
            self.exponent = self.exponent - 1;
        }
    }
}

/// Whether any of the keys `a` or `b` is held in `keys`.
pub open spec fn held(keys: KeyState, a: u32, b: u32) -> bool {
    keys.pressed & a != 0 || keys.pressed & b != 0
}

/// Whether the key `a` went down this frame in `keys`.
pub open spec fn tapped(keys: KeyState, a: u32) -> bool {
    keys.just_pressed & a != 0
}

/// The pan direction `keys` ask for along one axis: +1, -1, or 0 when
/// both or neither way is held.
pub open spec fn axis(forward: bool, backward: bool) -> int {
    (if forward { 1int } else { 0 }) - (if backward { 1int } else { 0 })
}

/// The pause flag and speed the simulation runs at, and whether the HUD is
/// shown.
pub struct ControlState {
    pub paused: bool,
    pub speed: TickSpeed,
    pub hud_visible: bool,
}

/// What one frame's keys ask of the world outside the controls: the pan
/// direction, a pattern reload, and single steps of a paused simulation.
#[derive(Clone, Copy, PartialEq, Eq, Structural, Debug)]
pub struct FrameRequest {
    pub dx: i32,
    pub dy: i32,
    pub reload: bool,
    pub step_forward: bool,
    pub step_back: bool,
}

impl ControlState {
    /// Running, at the starting speed, with the HUD shown.
    pub fn new() -> (c: ControlState)
        ensures
            !c.paused,
            c.speed@ == DEFAULT_SPEED_EXPONENT,
            c.hud_visible,
    {
        ControlState { paused: false, speed: TickSpeed::new(), hud_visible: true }
    }

    /// Applies one frame's keys: `z` zooms in and `x` out, `p` toggles
    /// pause, `o` doubles and `i` halves the speed, `t` shows or hides the
    /// HUD (each on the frame its key goes down). Returns the pan direction
    /// asked for by the held keys (`h`/left and `l`/right, `k`/up and
    /// `j`/down), whether `r` asked for a pattern reload, and, when the
    /// simulation is paused after this frame's keys, whether the step keys
    /// asked for one generation forward or back.
    pub fn handle_input(&mut self, keys: &KeyState, camera: &mut Camera) -> (r: FrameRequest)
        ensures
            r.dx == axis(held(*keys, KeyState::L, KeyState::RIGHT), held(*keys, KeyState::H, KeyState::LEFT)),
            r.dy == axis(held(*keys, KeyState::J, KeyState::DOWN), held(*keys, KeyState::K, KeyState::UP)),
            r.reload == tapped(*keys, KeyState::R),
            r.step_forward == (final(self).paused && tapped(*keys, KeyState::STEP_FORWARD)),
            r.step_back == (final(self).paused && tapped(*keys, KeyState::STEP_BACK)),
            final(self).hud_visible == (old(self).hud_visible != tapped(*keys, KeyState::T)),
            final(camera)@ == ({
                let z = if tapped(*keys, KeyState::Z) {
                    old(camera)@.zoomed_in()
                } else {
                    old(camera)@
                };
                if tapped(*keys, KeyState::X) {
                    z.zoomed_out()
                } else {
                    z
                }
            }),
            final(self).paused == (old(self).paused != tapped(*keys, KeyState::P)),
            final(self).speed@ == ({
                let s = if tapped(*keys, KeyState::O) {
                    faster_exponent(old(self).speed@)
                } else {
                    old(self).speed@
                };
                if tapped(*keys, KeyState::I) {
                    slower_exponent(s)
                } else {
                    s
                }
            }),
    {
        let mut dx: i32 = 0;
        let mut dy: i32 = 0;
        if keys.is_pressed(KeyState::K) || keys.is_pressed(KeyState::UP) {
            dy -= 1;
        }
        if keys.is_pressed(KeyState::J) || keys.is_pressed(KeyState::DOWN) {
            dy += 1;
        }
        if keys.is_pressed(KeyState::H) || keys.is_pressed(KeyState::LEFT) {
            dx -= 1;
        }
        if keys.is_pressed(KeyState::L) || keys.is_pressed(KeyState::RIGHT) {
            dx += 1;
        }
        if keys.is_just_pressed(KeyState::Z) {
            camera.zoom_in();
        }
        if keys.is_just_pressed(KeyState::X) {
            camera.zoom_out();
        }
        if keys.is_just_pressed(KeyState::P) {
            self.paused = !self.paused;
        }
        if keys.is_just_pressed(KeyState::O) {
            self.speed.faster();
        }
        if keys.is_just_pressed(KeyState::I) {
            self.speed.slower();
        }
        if keys.is_just_pressed(KeyState::T) {
            self.hud_visible = !self.hud_visible;
        }
        let step_forward = self.paused && keys.is_just_pressed(KeyState::STEP_FORWARD);
        let step_back = self.paused && keys.is_just_pressed(KeyState::STEP_BACK);
        let reload = keys.is_just_pressed(KeyState::R);
        FrameRequest { dx, dy, reload, step_forward, step_back }
    }
}

/// Speeding up and then slowing down returns to the same speed, except at
/// the fastest speed; and the other way round, except at the slowest. The
/// speed never leaves its range.
pub proof fn law_speed_round_trip(e: int)
    requires
        MIN_SPEED_EXPONENT <= e <= MAX_SPEED_EXPONENT,
    ensures
        e < MAX_SPEED_EXPONENT ==> slower_exponent(faster_exponent(e)) == e,
        e > MIN_SPEED_EXPONENT ==> faster_exponent(slower_exponent(e)) == e,
        MIN_SPEED_EXPONENT <= faster_exponent(e) <= MAX_SPEED_EXPONENT,
        MIN_SPEED_EXPONENT <= slower_exponent(e) <= MAX_SPEED_EXPONENT,
{
}

} // verus!
