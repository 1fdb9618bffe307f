//! Checks on decoded frames before they are encoded, and the bounded buffer
//! that keeps the tail of the encoder's diagnostics.

use vstd::prelude::*;
use crate::decoder::{DecodedFrame, DecodedFrameView};

verus! {

/// The size in bytes of an RGB24 frame of the given dimensions.
pub open spec fn spec_frame_size(width: u32, height: u32) -> int {
    width * height * 3
}

/// The size in bytes of an RGB24 frame of the given dimensions, where it is
/// a `usize`.
pub fn frame_size(width: u32, height: u32) -> (r: Option<usize>)
    ensures
        match r {
            Some(n) => n == spec_frame_size(width, height),
            None => spec_frame_size(width, height) > usize::MAX,
        },
{
    let w = width as u128;
    let h = height as u128;
    assert(w * h <= 0xffff_ffff * 0xffff_ffff) by (nonlinear_arith)
        requires
            w <= 0xffff_ffff,
            h <= 0xffff_ffff,
    ;
    let n = w * h * 3;
    if n > usize::MAX as u128 {
        None
    } else {
        Some(n as usize)
    }
}

/// Get frame dimensions (assumes all frames have same dimensions)
pub fn get_frame_dimensions(frames: &[DecodedFrame]) -> (r: Option<(u32, u32)>)
    ensures
        match r {
            Some((w, h)) => frames.len() > 0 && w == frames@[0].width && h == frames@[0].height,
            None => frames.len() == 0,
        },
{
    if frames.len() == 0 {
        None
    } else {
        Some((frames[0].width, frames[0].height))
    }
}

/// Why the decoded frames cannot be encoded together.
#[derive(Debug, Clone, Copy, PartialEq, Eq, Structural)]
pub enum FrameDimensionError {
    /// Frame `index` has other dimensions than the first frame.
    Inconsistent { index: usize, width: u32, height: u32, expected_width: u32, expected_height: u32 },
    /// Frame `index` holds `size` bytes where its dimensions call for `expected`.
    WrongSize { index: usize, size: usize, expected: usize, width: u32, height: u32 },
}

/// The frame has the given dimensions and RGB24 data of the given size.
pub open spec fn frame_matches(f: DecodedFrameView, width: u32, height: u32, size: int) -> bool {
    f.width == width && f.height == height && f.rgb_data.len() == size
}

/// What `validate_frame_dimensions` finds: nothing for no frames; else the
/// first frame that differs from the first one in dimensions or whose data
/// is not of the first one's RGB24 size.
pub open spec fn spec_validate_frames(frames: Seq<DecodedFrameView>) -> Result<(), FrameDimensionError> {
    if frames.len() == 0 {
        Ok(())
    } else {
        let w = frames[0].width;
        let h = frames[0].height;
        let size = spec_frame_size(w, h);
        if forall|i: int| 0 <= i < frames.len() ==> frame_matches(#[trigger] frames[i], w, h, size) {
            Ok(())
        } else {
            let i = choose|i: int|
                0 <= i < frames.len() && !frame_matches(frames[i], w, h, size) && forall|j: int|
                    0 <= j < i ==> frame_matches(#[trigger] frames[j], w, h, size);
            if frames[i].width != w || frames[i].height != h {
                Err(
                    FrameDimensionError::Inconsistent {
                        index: i as usize,
                        width: frames[i].width,
                        height: frames[i].height,
                        expected_width: w,
                        expected_height: h,
                    },
                )
            } else {
                Err(
                    FrameDimensionError::WrongSize {
                        index: i as usize,
                        size: frames[i].rgb_data.len() as usize,
                        expected: size as usize,
                        width: w,
                        height: h,
                    },
                )
            }
        }
    }
}

/// Frames pass the check exactly when each has the first frame's width and
/// height and three bytes (RGB24) per pixel of it, as decoding gives them.
pub proof fn law_validate_accepts_uniform_rgb24(frames: Seq<DecodedFrameView>)
    ensures
        spec_validate_frames(frames) is Ok <==> forall|i: int|
            0 <= i < frames.len() ==> {
                &&& (#[trigger] frames[i]).width == frames[0].width
                &&& frames[i].height == frames[0].height
                &&& frames[i].rgb_data.len() == 3 * frames[0].width * frames[0].height
            },
{
    if frames.len() > 0 {
        let w = frames[0].width;
        let h = frames[0].height;
        assert(spec_frame_size(w, h) == 3 * w * h) by (nonlinear_arith);
        assert forall|i: int| 0 <= i < frames.len() implies (frame_matches(#[trigger] frames[i], w, h, spec_frame_size(w, h)) <==> {
            &&& frames[i].width == w
            &&& frames[i].height == h
            &&& frames[i].rgb_data.len() == 3 * w * h
        }) by {}
    }
}

pub open spec fn decoded_views(frames: Seq<DecodedFrame>) -> Seq<DecodedFrameView> {
    frames.map_values(|f: DecodedFrame| f@)
}

/// Validate that all frames have consistent dimensions
pub fn validate_frame_dimensions(frames: &[DecodedFrame]) -> (r: Result<(), FrameDimensionError>)
    requires
        frames.len() > 0 ==> spec_frame_size(frames@[0].width, frames@[0].height) <= usize::MAX,
    ensures
        r == spec_validate_frames(decoded_views(frames@)),
{
    let ghost fv = decoded_views(frames@);
    if frames.len() == 0 {
        return Ok(());
    }
    let expected_width = frames[0].width;
    let expected_height = frames[0].height;
    let expected_size = match frame_size(expected_width, expected_height) {
        Some(n) => n,
        None => {
            return Ok(());
        },
    };
    let mut i: usize = 0;
    while i < frames.len()
        invariant
            fv == decoded_views(frames@),
            fv.len() == frames.len(),
            frames.len() > 0,
            expected_width == fv[0].width,
            expected_height == fv[0].height,
            expected_size == spec_frame_size(expected_width, expected_height),
            i <= frames.len(),
            forall|j: int|
                0 <= j < i ==> frame_matches(
                    #[trigger] fv[j],
                    expected_width,
                    expected_height,
                    expected_size as int,
                ),
        decreases frames.len() - i,
    {
        let frame = &frames[i];
        proof {
            assert(fv[i as int] == frame@);
        }
        if frame.width != expected_width || frame.height != expected_height
            || frame.rgb_data.len() != expected_size {
            proof {
                let w = expected_width;
                let h = expected_height;
                let size = expected_size as int;
                assert(!frame_matches(fv[i as int], w, h, size));
                let k = choose|k: int|
                    0 <= k < fv.len() && !frame_matches(fv[k], w, h, size) && forall|j: int|
                        0 <= j < k ==> frame_matches(#[trigger] fv[j], w, h, size);
                if k < i {
                    assert(frame_matches(fv[k], w, h, size));
                }
                if k > i {
                    assert(frame_matches(fv[i as int], w, h, size));
                }
                assert(k == i);
            }
            if frame.width != expected_width || frame.height != expected_height {
                return Err(
                    FrameDimensionError::Inconsistent {
                        index: i,
                        width: frame.width,
                        height: frame.height,
                        expected_width,
                        expected_height,
                    },
                );
            }
            return Err(
                FrameDimensionError::WrongSize {
                    index: i,
                    size: frame.rgb_data.len(),
                    expected: expected_size,
                    width: expected_width,
                    height: expected_height,
                },
            );
        }
        i = i + 1;
    }
    Ok(())
}

/// How many bytes of the encoder's diagnostics are kept.
pub const STDERR_TAIL_LIMIT: usize = 65536;

/// The last `limit` bytes of `s` (all of it where it is shorter).
pub open spec fn last_bytes(s: Seq<u8>, limit: nat) -> Seq<u8> {
    if s.len() > limit {
        s.skip(s.len() - limit)
    } else {
        s
    }
}

/// Appends `chunk` to `buf` and drops bytes from the front so that at most
/// `limit` bytes remain.
pub fn append_bounded(buf: &mut Vec<u8>, chunk: &[u8], limit: usize)
    requires
        chunk.len() <= limit,
        old(buf).len() <= limit,
    ensures
        final(buf)@ == last_bytes(old(buf)@ + chunk@, limit as nat),
        final(buf).len() <= limit,
{
    let ghost joined = old(buf)@ + chunk@;
    if chunk.len() > limit - buf.len() {
        let drop = buf.len() - (limit - chunk.len());
        let mut kept: Vec<u8> = Vec::new();
        let mut i: usize = drop;
        while i < buf.len()
            invariant
                drop <= buf.len(),
                drop <= i <= buf.len(),
                buf@ == old(buf)@,
                kept@ == buf@.subrange(drop as int, i as int),
            decreases buf.len() - i,
        {
            kept.push(buf[i]);
            i = i + 1;
            assert(kept@ =~= buf@.subrange(drop as int, i as int));
        }
        *buf = kept;
    }
    let ghost mid = buf@;
    let mut j: usize = 0;
    while j < chunk.len()
        invariant
            j <= chunk.len(),
            buf@ == mid + chunk@.take(j as int),
        decreases chunk.len() - j,
    {
        buf.push(chunk[j]);
        j = j + 1;
        assert(buf@ =~= mid + chunk@.take(j as int));
    }
    assert(chunk@.take(chunk.len() as int) =~= chunk@);
    assert(buf@ =~= last_bytes(joined, limit as nat));
}

} // verus!
