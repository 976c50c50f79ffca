//! The integer side of input handling: the screen rectangle that the mouse
//! is held in while it is captured, its centre and the cursor's offset from
//! it, and the rule by which a held mouse button fires again.
use vstd::prelude::*;

verus! {

/// A screen rectangle, in pixels; `right` and `bottom` lie just outside it.
#[derive(Clone, Copy, Debug, Default)]
pub struct Rect {
    pub left: i32,
    pub top: i32,
    pub right: i32,
    pub bottom: i32,
}

/// Half of `s`, rounded toward zero, as integer division does.
pub open spec fn half_toward_zero(s: int) -> int {
    if s >= 0 {
        s / 2
    } else {
        -((-s) / 2)
    }
}

fn half_i64(s: i64) -> (r: i64)
    requires
        s > i64::MIN,
    ensures
        r == half_toward_zero(s as int),
{
    if s >= 0 {
        s / 2
    } else {
        -((-s) / 2)
    }
}

impl Rect {
    /// Whether the sums of opposite edges fit an `i32`.
    pub open spec fn edges_add_up(&self) -> bool {
        &&& i32::MIN <= self.left + self.right <= i32::MAX
        &&& i32::MIN <= self.top + self.bottom <= i32::MAX
    }

    /// The centre that the cursor is put back to while the mouse is
    /// captured: the middle of each pair of edges, rounded toward zero.
    pub fn center(&self) -> (r: (i32, i32))
        requires
            self.edges_add_up(),
        ensures
            r.0 == half_toward_zero(self.left + self.right),
            r.1 == half_toward_zero(self.top + self.bottom),
    {
        let cx = half_i64(self.left as i64 + self.right as i64);
        let cy = half_i64(self.top as i64 + self.bottom as i64);
        (cx as i32, cy as i32)
    }
}

/// The screen rectangle of a window's client area, from the screen position
/// of its top-left corner and its client rectangle (whose left and top are 0).
pub fn client_area_on_screen(origin: (i32, i32), client: Rect) -> (r: Rect)
    requires
        i32::MIN <= origin.0 + client.right <= i32::MAX,
        i32::MIN <= origin.1 + client.bottom <= i32::MAX,
    ensures
        r.left == origin.0,
        r.top == origin.1,
        r.right == origin.0 + client.right,
        r.bottom == origin.1 + client.bottom,
{
    Rect {
        left: origin.0,
        top: origin.1,
        right: origin.0 + client.right,
        bottom: origin.1 + client.bottom,
    }
}

/// How far the cursor has moved from the centre it was put back to.
pub fn cursor_offset(pos: (i32, i32), center: (i32, i32)) -> (r: (i32, i32))
    requires
        i32::MIN <= pos.0 - center.0 <= i32::MAX,
        i32::MIN <= pos.1 - center.1 <= i32::MAX,
    ensures
        r.0 == pos.0 - center.0,
        r.1 == pos.1 - center.1,
{
    (pos.0 - center.0, pos.1 - center.1)
}

/// A mouse button that fires once when pressed and, while it is held, again
/// each time its repeat interval has passed.
#[derive(Clone, Copy, Debug, Default)]
pub struct ButtonRepeat {
    /// Whether the button was down at the last sample.
    pub was_pressed: bool,
}

impl ButtonRepeat {
    pub fn new() -> (r: ButtonRepeat)
        ensures
            !r.was_pressed,
    {
        ButtonRepeat { was_pressed: false }
    }

    /// Takes one sample of the button: it fires when it is down and either
    /// was up at the last sample or its repeat interval has passed.
    pub fn sample(&mut self, pressed: bool, interval_passed: bool) -> (fires: bool)
        ensures
            fires == (pressed && (!old(self).was_pressed || interval_passed)),
            final(self).was_pressed == pressed,
    {
        let fires = pressed && (!self.was_pressed || interval_passed);
        self.was_pressed = pressed;
        fires
    }

    /// Forgets the button's state, while input is not sampled.
    pub fn forget(&mut self)
        ensures
            !final(self).was_pressed,
    {
        self.was_pressed = false;
    }
}


/// What a frame does to a block under the crosshair.
#[derive(Clone, Copy, Debug, PartialEq, Eq)]
pub enum BlockAction {
    Nothing,
    /// Dig out the block that was hit.
    Break,
    /// Place a block in front of the face that was hit.
    Place,
}

/// What a frame decides about the captured mouse.
#[derive(Clone, Copy, Debug)]
pub struct CapturePlan {
    /// Release the captured mouse.
    pub release_mouse: bool,
    /// The player is steered this frame (turning, walking, jumping); when
    /// not, the player's vertical speed is cleared.
    pub steer: bool,
}

/// Decides what becomes of a captured mouse: Esc releases it, and so does
/// the window losing the foreground (say, to Alt+Tab), so that the cursor is
/// never held in a window in the background. The player is steered only
/// while the mouse stays captured.
pub fn plan_capture(captured: bool, escape: bool, window_in_front: bool) -> (r: CapturePlan)
    ensures
        r.release_mouse == (captured && (escape || !window_in_front)),
        r.steer == (captured && !escape && window_in_front),
{
    let mut still_captured = captured;
    let mut release_mouse = false;
    if escape && still_captured {
        still_captured = false;
        release_mouse = true;
    }
    if still_captured && !window_in_front {
        still_captured = false;
        release_mouse = true;
    }
    CapturePlan { release_mouse, steer: still_captured }
}

/// What a frame does to the block under the crosshair: only while the
/// player is steered and a block is hit, and a dig wins over a placement.
pub fn block_action(steer: bool, has_hit: bool, break_block: bool, place_block: bool) -> (r:
    BlockAction)
    ensures
        r == if steer && has_hit && break_block {
            BlockAction::Break
        } else if steer && has_hit && place_block {
            BlockAction::Place
        } else {
            BlockAction::Nothing
        },
{
    if steer && has_hit {
        if break_block {
            BlockAction::Break
        } else if place_block {
            BlockAction::Place
        } else {
            BlockAction::Nothing
        }
    } else {
        BlockAction::Nothing
    }
}


/// Halving toward zero, as integer division does: twice the half gives back
/// an even number, and an odd one less one step toward zero, with its sign.
pub proof fn law_half_rounds_toward_zero(s: int)
    ensures
        s % 2 == 0 ==> 2 * half_toward_zero(s) == s,
        s > 0 && s % 2 == 1 ==> 2 * half_toward_zero(s) == s - 1,
        s < 0 && s % 2 == 1 ==> 2 * half_toward_zero(s) == s + 1,
{
}

} // verus!
