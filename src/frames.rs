//! The stack of quoting frames that the renderer keeps while it walks a token
//! stream. Its storage is a `smallvec::SmallVec` with two inline slots, since
//! the depth is that of string interpolation nesting, almost always one or two.

use vstd::prelude::*;

verus! {

/// One quoting frame: `(in_quote, has_eval, end_on_eval)`.
pub type Frame = (bool, bool, bool);

/// A stack of quoting frames, held in a `SmallVec` with two inline slots.
#[verifier::external_body]
pub struct FrameVec {
    v: smallvec::SmallVec<[Frame; 2]>,
}

/// The frames held by a frame stack, bottom first.
pub uninterp spec fn frames_of(v: FrameVec) -> Seq<Frame>;

/// The most frames a stack may hold before a push: `SmallVec::push` panics
/// when the next power of two above its length overflows `usize`.
pub const MAX_FRAMES: usize = 0x4000_0000;

/// Relies on `SmallVec::new`: an empty vector.
#[verifier::external_body]
pub(crate) fn frames_new() -> (r: FrameVec)
    ensures
        frames_of(r) == Seq::<Frame>::empty(),
{
    FrameVec { v: smallvec::SmallVec::new() }
}

/// Relies on `SmallVec::push`: appends the value at the end.
#[verifier::external_body]
pub(crate) fn frames_push(v: &mut FrameVec, f: Frame)
    requires
        frames_of(*old(v)).len() < MAX_FRAMES,
    ensures
        frames_of(*final(v)) == frames_of(*old(v)).push(f),
{
    v.v.push(f)
}

/// Relies on `SmallVec::pop`: removes and returns the last value, or `None`
/// on an empty vector.
#[verifier::external_body]
pub(crate) fn frames_pop(v: &mut FrameVec) -> (r: Option<Frame>)
    ensures
        frames_of(*old(v)).len() == 0 ==> r is None && frames_of(*final(v)) == frames_of(*old(v)),
        frames_of(*old(v)).len() > 0 ==> r == Some(frames_of(*old(v)).last())
            && frames_of(*final(v)) == frames_of(*old(v)).drop_last(),
{
    v.v.pop()
}

/// Relies on `SmallVec` dereferencing to a slice, and `<[T]>::last`: the last
/// value, or `None` on an empty vector.
#[verifier::external_body]
pub(crate) fn frames_last(v: &FrameVec) -> (r: Option<Frame>)
    ensures
        frames_of(*v).len() == 0 ==> r is None,
        frames_of(*v).len() > 0 ==> r == Some(frames_of(*v).last()),
{
    v.v.last().copied()
}

} // verus!
