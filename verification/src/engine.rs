//! The engine that renders blocks of sound: its master settings, its output block, and how a
//! stereo sample is laid out over the channels of a device.
//!
//! Master settings are single-precision numbers, held by their bits. Samples and parameters are of
//! a type `T` that the engine stores and hands out but does not look into.

use vstd::prelude::*;

use crate::controls::{NP, START_VOLUME};
use crate::single::{clamp_unit, clamped, in_unit, ZERO};

verus! {

/// Number of frames in a block.
pub const BLOCK: usize = 128;

/// One hit: the parameters of the left and of the right channel, and how far the right channel
/// departs from the left one, from 0 to 1.
pub struct Voice<T: Copy> {
    pub left: [T; 9],
    pub right: [T; 9],
    pub width: u32,
}

/// The engine.
pub struct Engine<T: Copy> {
    drive: u32,
    reverb: u32,
    comp: u32,
    volume: u32,
    levels: u32,
    buf_l: [T; 128],
    buf_r: [T; 128],
}

/// What the engine holds.
#[verifier::ext_equal]
pub struct EngineState<T> {
    pub drive: u32,
    pub reverb: u32,
    pub comp: u32,
    pub volume: u32,
    /// Quantization levels of the bit crusher; zero leaves the sound as it is.
    pub levels: u32,
    /// The block rendered last, by channel.
    pub left: Seq<T>,
    pub right: Seq<T>,
}

impl<T> EngineState<T> {
    /// What holds of every engine: the settings with a range are from 0 to 1.
    pub open spec fn wf(self) -> bool {
        &&& in_unit(self.drive)
        &&& in_unit(self.reverb)
        &&& in_unit(self.comp)
        &&& in_unit(self.volume)
        &&& self.left.len() == BLOCK
        &&& self.right.len() == BLOCK
    }
}

impl<T: Copy> View for Engine<T> {
    type V = EngineState<T>;

    closed spec fn view(&self) -> EngineState<T> {
        EngineState {
            drive: self.drive,
            reverb: self.reverb,
            comp: self.comp,
            volume: self.volume,
            levels: self.levels,
            left: self.buf_l@,
            right: self.buf_r@,
        }
    }
}

/// The number of frames to render when `frames` are asked for.
pub open spec fn block_frames(frames: int) -> int {
    if frames < BLOCK {
        frames
    } else {
        BLOCK as int
    }
}

/// The number of frames to render when `frames` are asked for.
pub fn block_len(frames: usize) -> (n: usize)
    ensures
        n == block_frames(frames as int),
        n <= BLOCK,
{
    if frames < BLOCK {
        frames
    } else {
        BLOCK
    }
}

/// `block` with its beginning taken from `rendered`.
pub open spec fn overlaid<T>(block: Seq<T>, rendered: Seq<T>) -> Seq<T> {
    Seq::new(
        block.len(),
        |i: int|
            if i < rendered.len() {
                rendered[i]
            } else {
                block[i]
            },
    )
}

impl<T: Copy> Engine<T> {
    /// An engine without effects, at the starting volume, with a block of silence.
    pub fn new(silence: T) -> (r: Engine<T>)
        ensures
            r@ == (EngineState {
                drive: ZERO,
                reverb: ZERO,
                comp: ZERO,
                volume: START_VOLUME,
                levels: ZERO,
                left: Seq::new(BLOCK as nat, |i: int| silence),
                right: Seq::new(BLOCK as nat, |i: int| silence),
            }),
            r@.wf(),
    {
        let r = Engine {
            drive: ZERO,
            reverb: ZERO,
            comp: ZERO,
            volume: START_VOLUME,
            levels: ZERO,
            buf_l: [silence; 128],
            buf_r: [silence; 128],
        };
        assert(r@.left =~= Seq::new(BLOCK as nat, |i: int| silence));
        assert(r@.right =~= Seq::new(BLOCK as nat, |i: int| silence));
        r
    }

    /// Sets how hard the sound is driven, moved into the range from 0 to 1.
    pub fn set_drive(&mut self, v: u32)
        requires
            old(self)@.wf(),
        ensures
            final(self)@ == (EngineState { drive: clamped(v), ..old(self)@ }),
            final(self)@.wf(),
    {
        self.drive = clamp_unit(v);
    }

    /// Sets the share of reverb, moved into the range from 0 to 1.
    pub fn set_reverb(&mut self, v: u32)
        requires
            old(self)@.wf(),
        ensures
            final(self)@ == (EngineState { reverb: clamped(v), ..old(self)@ }),
            final(self)@.wf(),
    {
        self.reverb = clamp_unit(v);
    }

    /// Sets the amount of compression, moved into the range from 0 to 1.
    pub fn set_comp(&mut self, v: u32)
        requires
            old(self)@.wf(),
        ensures
            final(self)@ == (EngineState { comp: clamped(v), ..old(self)@ }),
            final(self)@.wf(),
    {
        self.comp = clamp_unit(v);
    }

    /// Sets the volume, moved into the range from 0 to 1.
    pub fn set_volume(&mut self, v: u32)
        requires
            old(self)@.wf(),
        ensures
            final(self)@ == (EngineState { volume: clamped(v), ..old(self)@ }),
            final(self)@.wf(),
    {
        self.volume = clamp_unit(v);
    }

    /// Sets the quantization levels of the bit crusher, as they are.
    pub fn set_bits_levels(&mut self, levels: u32)
        requires
            old(self)@.wf(),
        ensures
            final(self)@ == (EngineState { levels, ..old(self)@ }),
            final(self)@.wf(),
    {
        self.levels = levels;
    }

    /// The voice of one hit. There is none where a channel lacks parameters; parameters beyond the
    /// ninth do not matter.
    pub fn trigger_voice(&self, vl: &[T], vr: &[T], width: u32) -> (voice: Option<Voice<T>>)
        ensures
            match voice {
                Some(v) => {
                    &&& vl@.len() >= NP
                    &&& vr@.len() >= NP
                    &&& v.left@ == vl@.take(NP as int)
                    &&& v.right@ == vr@.take(NP as int)
                    &&& v.width == clamped(width)
                },
                None => vl@.len() < NP || vr@.len() < NP,
            },
    {
        if vl.len() < NP || vr.len() < NP {
            return None;
        }
        Some(Voice { left: nine(vl, vl[0]), right: nine(vr, vr[0]), width: clamp_unit(width) })
    }

    /// Takes a rendered block of `frames` frames, or of a whole block where more are asked for.
    pub fn process(&mut self, frames: usize, rendered: &[(T, T)])
        requires
            old(self)@.wf(),
            rendered@.len() == block_frames(frames as int),
        ensures
            final(self)@ == (EngineState {
                left: overlaid(old(self)@.left, rendered@.map_values(|s: (T, T)| s.0)),
                right: overlaid(old(self)@.right, rendered@.map_values(|s: (T, T)| s.1)),
                ..old(self)@
            }),
            final(self)@.wf(),
    {
        let n = block_len(frames);
        let mut i: usize = 0;
        while i < n
            invariant
                i <= n,
                n <= BLOCK,
                n == rendered@.len(),
                self@.left.len() == BLOCK,
                self@.right.len() == BLOCK,
                self@ == (EngineState {
                    left: self@.left,
                    right: self@.right,
                    ..old(self)@
                }),
                forall|k: int| 0 <= k < i ==> #[trigger] self@.left[k] == rendered@[k].0,
                forall|k: int| 0 <= k < i ==> #[trigger] self@.right[k] == rendered@[k].1,
                forall|k: int|
                    i <= k < BLOCK ==> #[trigger] self@.left[k] == old(self)@.left[k],
                forall|k: int|
                    i <= k < BLOCK ==> #[trigger] self@.right[k] == old(self)@.right[k],
            decreases n - i,
        {
            let (l, r) = rendered[i];
            self.buf_l[i] = l;
            self.buf_r[i] = r;
            i = i + 1;
        }
        assert(self@.left =~= overlaid(
            old(self)@.left,
            rendered@.map_values(|s: (T, T)| s.0),
        ));
        assert(self@.right =~= overlaid(
            old(self)@.right,
            rendered@.map_values(|s: (T, T)| s.1),
        ));
    }

    /// The left channel of the block.
    pub fn left(&self) -> (r: &[T; 128])
        ensures
            r@ == self@.left,
    {
        &self.buf_l
    }

    /// The right channel of the block.
    pub fn right(&self) -> (r: &[T; 128])
        ensures
            r@ == self@.right,
    {
        &self.buf_r
    }

    /// How hard the sound is driven.
    pub fn drive(&self) -> (v: u32)
        ensures
            v == self@.drive,
    {
        self.drive
    }

    /// The share of reverb.
    pub fn reverb(&self) -> (v: u32)
        ensures
            v == self@.reverb,
    {
        self.reverb
    }

    /// The amount of compression.
    pub fn comp(&self) -> (v: u32)
        ensures
            v == self@.comp,
    {
        self.comp
    }

    /// The volume.
    pub fn volume(&self) -> (v: u32)
        ensures
            v == self@.volume,
    {
        self.volume
    }

    /// The quantization levels of the bit crusher.
    pub fn bits_levels(&self) -> (v: u32)
        ensures
            v == self@.levels,
    {
        self.levels
    }
}

/// The first nine of `params`, with `rest` in place of those that are missing.
pub open spec fn nine_of<T>(params: Seq<T>, rest: T) -> Seq<T> {
    Seq::new(
        NP as nat,
        |i: int|
            if i < params.len() {
                params[i]
            } else {
                rest
            },
    )
}

/// The first nine of `params`, with `rest` in place of those that are missing.
pub fn nine<T: Copy>(params: &[T], rest: T) -> (r: [T; 9])
    ensures
        r@ == nine_of(params@, rest),
        params@.len() >= NP ==> r@ == params@.take(NP as int),
{
    let mut out = [rest; 9];
    let mut i: usize = 0;
    while i < NP && i < params.len()
        invariant
            i <= NP,
            i <= params@.len(),
            forall|k: int| 0 <= k < i ==> #[trigger] out@[k] == params@[k],
            forall|k: int| i <= k < NP ==> #[trigger] out@[k] == rest,
        decreases NP - i,
    {
        out[i] = params[i];
        i = i + 1;
    }
    assert(out@ =~= nine_of(params@, rest));
    proof {
        if params@.len() >= NP {
            assert(out@ =~= params@.take(NP as int));
        }
    }
    out
}

/// Filling up nine parameters changes nothing: a short list, the same list filled up, and one that
/// goes on beyond it all give the same nine.
pub proof fn law_padding_is_stable<T>(params: Seq<T>, rest: T)
    ensures
        nine_of(nine_of(params, rest), rest) == nine_of(params, rest),
        params.len() >= NP ==> nine_of(params, rest) == nine_of(params.take(NP as int), rest),
{
    assert(nine_of(nine_of(params, rest), rest) =~= nine_of(params, rest));
    if params.len() >= NP {
        assert(nine_of(params, rest) =~= nine_of(params.take(NP as int), rest));
    }
}

/// A frame of `n` channels: the left sample on the first, third and so on, the right one on the
/// others.
pub open spec fn spread<T>(n: nat, l: T, r: T) -> Seq<T> {
    Seq::new(
        n,
        |i: int|
            if i % 2 == 0 {
                l
            } else {
                r
            },
    )
}

/// Lays a stereo sample out over the channels of a frame.
pub fn fill_frame<T: Copy>(frame: &mut [T], l: T, r: T)
    ensures
        final(frame)@ == spread(old(frame)@.len(), l, r),
{
    let n = frame.len();
    let mut i: usize = 0;
    while i < n
        invariant
            i <= n,
            n == frame@.len(),
            n == old(frame)@.len(),
            forall|k: int| 0 <= k < i ==> #[trigger] frame@[k] == spread(n as nat, l, r)[k],
        decreases n - i,
    {
        frame[i] = if i % 2 == 0 {
            l
        } else {
            r
        };
        i = i + 1;
    }
    assert(frame@ =~= spread(n as nat, l, r));
}

// ---------- laws ----------

/// Whatever the number of channels, the first carries the left sample and the second the right one,
/// and each further channel what the channel two before it does.
pub proof fn law_channels_alternate<T>(n: nat, l: T, r: T, i: int)
    ensures
        spread(n, l, r).len() == n,
        n > 0 ==> spread(n, l, r)[0] == l,
        n > 1 ==> spread(n, l, r)[1] == r,
        0 <= i && i + 2 < n ==> spread(n, l, r)[i + 2] == spread(n, l, r)[i],
{
}

/// Of two frames, the one with more channels begins like the other.
pub proof fn law_frames_begin_alike<T>(n: nat, more: nat, l: T, r: T)
    requires
        n <= more,
    ensures
        spread(more, l, r).take(n as int) == spread(n, l, r),
{
    assert(spread(more, l, r).take(n as int) =~= spread(n, l, r));
}

/// A parameter that was given is kept in its place, one that was not is filled up, and there are nine.
pub proof fn law_parameters_keep_their_places<T>(params: Seq<T>, rest: T, i: int)
    requires
        0 <= i < 9,
    ensures
        nine_of(params, rest).len() == 9,
        i < params.len() ==> nine_of(params, rest)[i] == params[i],
        i >= params.len() ==> nine_of(params, rest)[i] == rest,
{
}

/// What was rendered stands at the beginning of the block, what was there before stays behind it, and
/// the block stays as long as it was.
pub proof fn law_block_is_overlaid<T>(block: Seq<T>, rendered: Seq<T>)
    requires
        rendered.len() <= block.len(),
    ensures
        overlaid(block, rendered) == rendered + block.skip(rendered.len() as int),
        overlaid(block, rendered).len() == block.len(),
{
    assert(overlaid(block, rendered) =~= rendered + block.skip(rendered.len() as int));
}

/// As many frames are rendered as are asked for, but never more than a block.
pub proof fn law_block_bounds_frames(frames: int)
    ensures
        block_frames(frames) <= frames,
        block_frames(frames) <= 128,
        block_frames(frames) == frames || block_frames(frames) == 128,
{
}

} // verus!
