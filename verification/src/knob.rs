use vstd::prelude::*;

verus! {

/// What one frame of pointer input does to a knob.
#[derive(Clone, Copy, Debug, PartialEq, Eq, Structural)]
pub struct KnobStep {
    /// The knob is being dragged after this frame.
    pub dragging: bool,
    /// A drag starts this frame: the pointer went down on the knob.
    pub grab: bool,
    /// The knob's value follows the pointer this frame.
    pub follow: bool,
}

/// The drag decisions of a knob for one frame, from whether the primary button
/// is down, whether the knob was being dragged, whether the pointer has a
/// position, and whether that position lies on the knob.
/// A drag starts when the button is down on the knob while no drag is going
/// on; while dragging, the value follows the pointer whenever it has a
/// position (from the frame the drag starts); releasing the button ends it.
pub fn knob_step(pointer_down: bool, dragging: bool, has_pointer: bool, inside: bool) -> (s:
    KnobStep)
    ensures
        s.grab == (pointer_down && !dragging && has_pointer && inside),
        s.follow == ((dragging || s.grab) && pointer_down && has_pointer),
        s.dragging == ((dragging || s.grab) && pointer_down),
        !pointer_down ==> !s.dragging,
        dragging && pointer_down ==> s.dragging,
{
    let grab = pointer_down && !dragging && has_pointer && inside;
    let held = dragging || grab;
    if held {
        if pointer_down {
            KnobStep { dragging: true, grab, follow: has_pointer }
        } else {
            KnobStep { dragging: false, grab, follow: false }
        }
    } else {
        KnobStep { dragging: false, grab, follow: false }
    }
}

} // verus!
