//! The logic of a delay effect: the circular buffer that the effect reads its
//! echoes from, proved against an abstract model of the line; its stereo use,
//! where the line holds frames and each channel of an interleaved buffer is
//! delayed on its own; and the drag decisions of its parameter knobs.

pub mod delay_line;
pub mod knob;
pub mod stereo;
