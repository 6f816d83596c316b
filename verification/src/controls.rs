//! The discrete state of the pointer and keyboard controls: trackball modes, first-person
//! buttons, fly and flare key maps, the text field and the example toggles.
use vstd::prelude::*;

verus! {

/// What a trackball drag does.
#[derive(Clone, Copy, PartialEq, Eq, Debug, Structural)]
pub enum Mode {
    Idle,
    Rotate,
    Zoom,
    Pan,
}

/// The mode of a mouse button: left rotates, middle zooms, right pans.
pub open spec fn button_mode(button: u32) -> Mode {
    if button == 0 {
        Mode::Rotate
    } else if button == 1 {
        Mode::Zoom
    } else if button == 2 {
        Mode::Pan
    } else {
        Mode::Idle
    }
}

/// The mode of a held key: `A` rotates, `S` zooms, `D` pans.
pub open spec fn key_mode(code: u32) -> Mode {
    if code == 65 {
        Mode::Rotate
    } else if code == 83 {
        Mode::Zoom
    } else if code == 68 {
        Mode::Pan
    } else {
        Mode::Idle
    }
}

/// A held key's mode wins over the button's.
pub open spec fn active_mode(state: Mode, key_state: Mode) -> Mode {
    if key_state != Mode::Idle {
        key_state
    } else {
        state
    }
}

/// What a pointer event asks of the trackball.
#[derive(Clone, Copy, PartialEq, Eq, Debug)]
pub enum PointerAction {
    /// A button went down: start a drag in this mode at the pointer.
    Begin(Mode),
    /// The pointer moved: continue the drag in this mode.
    Move(Mode),
    /// A button went up: the drag ends.
    End,
}

/// The trackball's button and key modes.
pub struct TrackballModes {
    pub state: Mode,
    pub key_state: Mode,
}

impl TrackballModes {
    /// No button and no key held.
    pub fn new() -> (t: Self)
        ensures
            t.state == Mode::Idle,
            t.key_state == Mode::Idle,
    {
        TrackballModes { state: Mode::Idle, key_state: Mode::Idle }
    }

    /// A pointer event: kinds 10 to 19 press button `kind - 10`, 20 to 29 release a button,
    /// any other kind moves the pointer.
    pub fn pointer(&mut self, kind: u32) -> (a: PointerAction)
        ensures
            10 <= kind <= 19 ==> final(self).state == button_mode((kind - 10) as u32)
                && a == PointerAction::Begin(active_mode(final(self).state, old(self).key_state)),
            20 <= kind <= 29 ==> final(self).state == Mode::Idle && a == PointerAction::End,
            !(10 <= kind <= 29) ==> final(self).state == old(self).state && a
                == PointerAction::Move(active_mode(old(self).state, old(self).key_state)),
            final(self).key_state == old(self).key_state,
    {
        if 10 <= kind && kind <= 19 {
            let b = kind - 10;
            self.state = if b == 0 {
                Mode::Rotate
            } else if b == 1 {
                Mode::Zoom
            } else if b == 2 {
                Mode::Pan
            } else {
                Mode::Idle
            };
            PointerAction::Begin(self.active())
        } else if 20 <= kind && kind <= 29 {
            self.state = Mode::Idle;
            PointerAction::End
        } else {
            PointerAction::Move(self.active())
        }
    }

    /// The mode a drag uses now.
    pub fn active(&self) -> (m: Mode)
        ensures
            m == active_mode(self.state, self.key_state),
    {
        if self.key_state != Mode::Idle {
            self.key_state
        } else {
            self.state
        }
    }

    /// A key event: releasing any key clears the key mode; pressing sets it from `A`, `S`
    /// or `D` only while no key mode is held.
    pub fn key(&mut self, code: u32, down: bool)
        ensures
            final(self).state == old(self).state,
            !down ==> final(self).key_state == Mode::Idle,
            down && old(self).key_state == Mode::Idle ==> final(self).key_state == key_mode(code),
            down && old(self).key_state != Mode::Idle ==> final(self).key_state == old(
                self,
            ).key_state,
    {
        if !down {
            self.key_state = Mode::Idle;
        } else if self.key_state == Mode::Idle {
            self.key_state = if code == 65 {
                Mode::Rotate
            } else if code == 83 {
                Mode::Zoom
            } else if code == 68 {
                Mode::Pan
            } else {
                Mode::Idle
            };
        }
    }
}

/// What a pointer event does to the first-person look drag.
#[derive(Clone, Copy, PartialEq, Eq, Debug)]
pub enum LookAction {
    /// A button went down: the drag starts at the pointer, the look offset resets.
    Press,
    /// A button went up during a drag: the look offset resets.
    Release,
    /// The pointer moved during a drag: the look offset follows it.
    Drag,
    /// Nothing changes.
    Ignore,
}

/// The first-person controls' buttons: how many are held, whether a drag is on, whether the
/// left or right button drives forward or backward, and the six movement keys.
pub struct FirstPersonButtons {
    pub count: u32,
    pub drag: bool,
    pub forward: bool,
    pub backward: bool,
    pub keys: [bool; 6],
}

impl FirstPersonButtons {
    /// Nothing held.
    pub fn new() -> (b: Self)
        ensures
            b.count == 0,
            !b.drag,
            !b.forward,
            !b.backward,
            forall|i: int| 0 <= i < 6 ==> !#[trigger] b.keys@[i],
    {
        FirstPersonButtons { count: 0, drag: false, forward: false, backward: false, keys: [false; 6] }
    }

    /// A pointer event: a press (kinds 10 to 19) counts the button, starts the drag and,
    /// while neither forward nor backward key is held, lets the left button drive forward
    /// and the right one backward; a release (20 to 29) during a drag uncounts it, stops that
    /// drive and ends the drag with the last button; a move drags while a drag is on.
    pub fn pointer(&mut self, kind: u32) -> (a: LookAction)
        requires
            old(self).count < u32::MAX,
        ensures
            final(self).keys == old(self).keys,
            10 <= kind <= 19 ==> {
                let idle = !old(self).keys@[0] && !old(self).keys@[1];
                &&& a == LookAction::Press
                &&& final(self).count == old(self).count + 1
                &&& final(self).drag
                &&& final(self).forward == (old(self).forward || (kind == 10 && idle))
                &&& final(self).backward == (old(self).backward || (kind == 12 && idle))
            },
            20 <= kind <= 29 && !old(self).drag ==> a == LookAction::Ignore && final(self).count
                == old(self).count && !final(self).drag && final(self).forward == old(self).forward
                && final(self).backward == old(self).backward,
            20 <= kind <= 29 && old(self).drag ==> {
                let count = if old(self).count > 0 {
                    old(self).count - 1
                } else {
                    0
                };
                &&& a == LookAction::Release
                &&& final(self).count == count
                &&& final(self).drag == (count != 0)
                &&& final(self).forward == (old(self).forward && kind != 20)
                &&& final(self).backward == (old(self).backward && kind != 22)
            },
            !(10 <= kind <= 29) ==> final(self).count == old(self).count && final(self).drag == old(
                self,
            ).drag && final(self).forward == old(self).forward && final(self).backward == old(
                self,
            ).backward && a == (if old(self).drag {
                LookAction::Drag
            } else {
                LookAction::Ignore
            }),
    {
        if 10 <= kind && kind <= 19 {
            let idle = !self.keys[0] && !self.keys[1];
            if kind == 10 && idle {
                self.forward = true;
            }
            if kind == 12 && idle {
                self.backward = true;
            }
            self.count = self.count + 1;
            self.drag = true;
            LookAction::Press
        } else if 20 <= kind && kind <= 29 {
            if !self.drag {
                return LookAction::Ignore;
            }
            self.count = if self.count > 0 {
                self.count - 1
            } else {
                0
            };
            if kind == 20 {
                self.forward = false;
            }
            if kind == 22 {
                self.backward = false;
            }
            if self.count == 0 {
                self.drag = false;
            }
            LookAction::Release
        } else if self.drag {
            LookAction::Drag
        } else {
            LookAction::Ignore
        }
    }
}

/// The movement key of a first-person walker: W or Up, S or Down, A or Left, D or Right,
/// R and F.
pub open spec fn walker_key_spec(code: u32) -> Option<usize> {
    if code == 87 || code == 38 {
        Some(0usize)
    } else if code == 83 || code == 40 {
        Some(1usize)
    } else if code == 65 || code == 37 {
        Some(2usize)
    } else if code == 68 || code == 39 {
        Some(3usize)
    } else if code == 82 {
        Some(4usize)
    } else if code == 70 {
        Some(5usize)
    } else {
        None
    }
}

/// The walker's movement key for a key code.
pub fn walker_key(code: u32) -> (k: Option<usize>)
    ensures
        k == walker_key_spec(code),
{
    if code == 87 || code == 38 {
        Some(0)
    } else if code == 83 || code == 40 {
        Some(1)
    } else if code == 65 || code == 37 {
        Some(2)
    } else if code == 68 || code == 39 {
        Some(3)
    } else if code == 82 {
        Some(4)
    } else if code == 70 {
        Some(5)
    } else {
        None
    }
}

/// The twelve fly keys in the order forward, back, left, right, up, down, pitch up, pitch
/// down, yaw left, yaw right, roll left, roll right: W S A D R F, the arrows, Q and E.
pub open spec fn fly_key_spec(code: u32) -> Option<usize> {
    if code == 87 {
        Some(0usize)
    } else if code == 83 {
        Some(1usize)
    } else if code == 65 {
        Some(2usize)
    } else if code == 68 {
        Some(3usize)
    } else if code == 82 {
        Some(4usize)
    } else if code == 70 {
        Some(5usize)
    } else if code == 38 {
        Some(6usize)
    } else if code == 40 {
        Some(7usize)
    } else if code == 37 {
        Some(8usize)
    } else if code == 39 {
        Some(9usize)
    } else if code == 81 {
        Some(10usize)
    } else if code == 69 {
        Some(11usize)
    } else {
        None
    }
}

/// The fly control a key code drives.
pub fn fly_key(code: u32) -> (k: Option<usize>)
    ensures
        k == fly_key_spec(code),
{
    if code == 87 {
        Some(0)
    } else if code == 83 {
        Some(1)
    } else if code == 65 {
        Some(2)
    } else if code == 68 {
        Some(3)
    } else if code == 82 {
        Some(4)
    } else if code == 70 {
        Some(5)
    } else if code == 38 {
        Some(6)
    } else if code == 40 {
        Some(7)
    } else if code == 37 {
        Some(8)
    } else if code == 39 {
        Some(9)
    } else if code == 81 {
        Some(10)
    } else if code == 69 {
        Some(11)
    } else {
        None
    }
}

/// The lens-flare fly state entry a key code drives: up, down, left, right, forward, back
/// and the rotations, with R and F moving up and down and W and S forward and back.
pub open spec fn flare_key_spec(code: u32) -> Option<usize> {
    if code == 87 {
        Some(4usize)
    } else if code == 83 {
        Some(5usize)
    } else if code == 65 {
        Some(2usize)
    } else if code == 68 {
        Some(3usize)
    } else if code == 82 {
        Some(0usize)
    } else if code == 70 {
        Some(1usize)
    } else if code == 38 {
        Some(6usize)
    } else if code == 40 {
        Some(7usize)
    } else if code == 37 {
        Some(8usize)
    } else if code == 39 {
        Some(9usize)
    } else if code == 81 {
        Some(10usize)
    } else if code == 69 {
        Some(11usize)
    } else {
        None
    }
}

/// The lens-flare state entry for a key code.
pub fn flare_key(code: u32) -> (k: Option<usize>)
    ensures
        k == flare_key_spec(code),
{
    if code == 87 {
        Some(4)
    } else if code == 83 {
        Some(5)
    } else if code == 65 {
        Some(2)
    } else if code == 68 {
        Some(3)
    } else if code == 82 {
        Some(0)
    } else if code == 70 {
        Some(1)
    } else if code == 38 {
        Some(6)
    } else if code == 40 {
        Some(7)
    } else if code == 37 {
        Some(8)
    } else if code == 39 {
        Some(9)
    } else if code == 81 {
        Some(10)
    } else if code == 69 {
        Some(11)
    } else {
        None
    }
}

/// A fly-through pointer event on the forward and back buttons: the left button (events 10
/// and 20) drives forward, the right one (12 and 22) backward; other kinds leave them.
pub fn fly_buttons(buttons: &mut [bool; 2], kind: u32)
    ensures
        kind == 10 ==> final(buttons)@ == seq![true, old(buttons)@[1]],
        kind == 12 ==> final(buttons)@ == seq![old(buttons)@[0], true],
        kind == 20 ==> final(buttons)@ == seq![false, old(buttons)@[1]],
        kind == 22 ==> final(buttons)@ == seq![old(buttons)@[0], false],
        kind != 10 && kind != 12 && kind != 20 && kind != 22 ==> final(buttons)@ == old(buttons)@,
{
    let b0 = buttons[0];
    let b1 = buttons[1];
    if kind == 10 {
        *buttons = [true, b1];
    } else if kind == 12 {
        *buttons = [b0, true];
    } else if kind == 20 {
        *buttons = [false, b1];
    } else if kind == 22 {
        *buttons = [b0, false];
    }
    proof {
        assert(final(buttons)@ =~= (if kind == 10 {
            seq![true, old(buttons)@[1]]
        } else if kind == 12 {
            seq![old(buttons)@[0], true]
        } else if kind == 20 {
            seq![false, old(buttons)@[1]]
        } else if kind == 22 {
            seq![old(buttons)@[0], false]
        } else {
            old(buttons)@
        }));
    }
}

/// The walker moves the way its keys are labelled: `A` and `ArrowLeft` drive movement 2
/// (left) and nothing else does, `D` and `ArrowRight` drive movement 3 (right), `W`/`Up`
/// drive 0 (forward), `S`/`Down` 1 (back), `R` 4 (up) and `F` 5 (down); each arrow drives
/// the same movement as its letter, each letter the same entry as on the fly controls, and
/// every other key drives nothing.
pub proof fn lemma_walker_keys(code: u32)
    ensures
        (walker_key_spec(code) == Some(2usize)) <==> (code == 65 || code == 37),
        (walker_key_spec(code) == Some(3usize)) <==> (code == 68 || code == 39),
        (walker_key_spec(code) == Some(0usize)) <==> (code == 87 || code == 38),
        (walker_key_spec(code) == Some(1usize)) <==> (code == 83 || code == 40),
        (walker_key_spec(code) == Some(4usize)) <==> code == 82,
        (walker_key_spec(code) == Some(5usize)) <==> code == 70,
        walker_key_spec(code) is None <==> !(code == 65 || code == 37 || code == 68 || code
            == 39 || code == 87 || code == 38 || code == 83 || code == 40 || code == 82 || code
            == 70),
        walker_key_spec(37) == walker_key_spec(65) && walker_key_spec(39) == walker_key_spec(68)
            && walker_key_spec(38) == walker_key_spec(87) && walker_key_spec(40)
            == walker_key_spec(83),
        code == 87 || code == 83 || code == 65 || code == 68 || code == 82 || code == 70
            ==> walker_key_spec(code) == fly_key_spec(code),
{
}

} // verus!
