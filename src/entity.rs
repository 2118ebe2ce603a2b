use vstd::prelude::*;

verus! {

/// The kinds of actor that walk the world.
#[allow(non_camel_case_types)]
#[derive(Clone, Copy, Debug, PartialEq, Eq, Structural)]
pub enum EntityType {
    PLAYER,
    ZOMBIE,
}

/// What a zombie is doing: standing still or chasing the player.
#[allow(non_camel_case_types)]
#[derive(Clone, Copy, Debug, PartialEq, Eq, Structural)]
pub enum Behavior {
    STATIC,
    CHASING,
}

/// The movement keys.
#[derive(Clone, Copy, Debug, PartialEq, Eq, Structural)]
pub enum MoveKey {
    W,
    A,
    S,
    D,
}

/// Which movement keys are held down.
#[derive(Clone, Copy, Debug, PartialEq, Eq, Structural)]
pub struct KeyboardData {
    pub w: bool,
    pub a: bool,
    pub s: bool,
    pub d: bool,
}

impl KeyboardData {
    /// No key held.
    pub fn new() -> (r: KeyboardData)
        ensures
            !r.w && !r.a && !r.s && !r.d,
    {
        KeyboardData { w: false, a: false, s: false, d: false }
    }

    /// Records that `key` went down (`pressed`) or up; the other keys keep
    /// their state.
    pub fn set_key(&mut self, key: MoveKey, pressed: bool)
        ensures
            final(self).w == if key == MoveKey::W { pressed } else { old(self).w },
            final(self).a == if key == MoveKey::A { pressed } else { old(self).a },
            final(self).s == if key == MoveKey::S { pressed } else { old(self).s },
            final(self).d == if key == MoveKey::D { pressed } else { old(self).d },
    {
        match key {
            MoveKey::W => self.w = pressed,
            MoveKey::A => self.a = pressed,
            MoveKey::S => self.s = pressed,
            MoveKey::D => self.d = pressed,
        }
    }

    /// The direction that the held keys ask for, one step per axis: `d`
    /// pushes right and `a` left, `s` down and `w` up, and opposite keys
    /// cancel.
    pub fn direction(&self) -> (r: (i32, i32))
        ensures
            r.0 == (if self.d { 1int } else { 0int }) - (if self.a { 1int } else { 0int }),
            r.1 == (if self.s { 1int } else { 0int }) - (if self.w { 1int } else { 0int }),
    {
        let mut dx: i32 = 0;
        let mut dy: i32 = 0;
        if self.w {
            dy = dy - 1;
        }
        if self.s {
            dy = dy + 1;
        }
        if self.a {
            dx = dx - 1;
        }
        if self.d {
            dx = dx + 1;
        }
        (dx, dy)
    }
}

} // verus!
