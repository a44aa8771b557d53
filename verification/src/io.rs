//! The raw pixel stream format: frames of pixels, each pixel three
//! little-endian unsigned 16-bit samples (red, green, blue).

use byteorder::{ByteOrder, LittleEndian};
use vstd::prelude::*;
use vstd::slice::slice_subrange;

verus! {

broadcast use vstd::slice::group_slice_axioms;

/// Bytes taken by one sample.
pub const SAMPLE_BYTES: usize = 2;

/// Bytes taken by one pixel.
pub const PIXEL_BYTES: usize = 6;

/// One pixel of a raw frame: three PQ code values scaled by 65535.
#[derive(Debug, Clone, Copy, PartialEq, Eq, Structural)]
pub struct Pixel {
    pub red: u16,
    pub green: u16,
    pub blue: u16,
}

/// Why a frame could not be read in full.
#[derive(Debug, Clone, Copy, PartialEq, Eq, Structural)]
pub enum FrameError {
    /// The input ended on a pixel boundary before the frame was complete:
    /// the stream is over.
    EndOfStream,
    /// The input ended inside a pixel.
    Truncated,
}

/// The `k`-th sample of a byte stream, low byte first.
pub open spec fn sample_at(bytes: Seq<u8>, k: int) -> u16 {
    (bytes[2 * k] as int + 256 * (bytes[2 * k + 1] as int)) as u16
}

/// The `i`-th pixel of a byte stream.
pub open spec fn pixel_at(bytes: Seq<u8>, i: int) -> Pixel {
    Pixel {
        red: sample_at(bytes, 3 * i),
        green: sample_at(bytes, 3 * i + 1),
        blue: sample_at(bytes, 3 * i + 2),
    }
}

/// How many whole pixels a byte stream holds.
pub open spec fn whole_pixels(bytes: Seq<u8>) -> int {
    bytes.len() as int / 6
}

/// The error that reading a frame of `count` pixels from `bytes` meets, if any.
pub open spec fn frame_error(bytes: Seq<u8>, count: int) -> Option<FrameError> {
    if whole_pixels(bytes) >= count {
        None
    } else if bytes.len() % 6 == 0 {
        Some(FrameError::EndOfStream)
    } else {
        Some(FrameError::Truncated)
    }
}

/// The largest of the first `n` samples of a byte stream, 0 where `n` is 0.
pub open spec fn max_sample(bytes: Seq<u8>, n: nat) -> u16
    decreases n,
{
    if n == 0 {
        0
    } else {
        let rest = max_sample(bytes, (n - 1) as nat);
        let last = sample_at(bytes, n - 1);
        if last > rest {
            last
        } else {
            rest
        }
    }
}

/// Decodes the two bytes at the start of `buf` with byteorder's
/// `LittleEndian::read_u16`, which takes the first byte as the low one and
/// panics on fewer than two bytes.
#[verifier::external_body]
fn read_u16_le(buf: &[u8]) -> (v: u16)
    requires
        buf@.len() >= 2,
    ensures
        v as int == buf@[0] as int + 256 * (buf@[1] as int),
{
    LittleEndian::read_u16(buf)
}

/// Reads the `k`-th sample of `input`.
fn read_sample(input: &[u8], k: usize) -> (v: u16)
    requires
        2 * k + 2 <= input.len(),
    ensures
        v == sample_at(input@, k as int),
{
    let at: usize = SAMPLE_BYTES * k;
    let pair = slice_subrange(input, at, at + SAMPLE_BYTES);
    read_u16_le(pair)
}

/// Reads the `i`-th pixel of `input`.
fn read_pixel(input: &[u8], i: usize) -> (p: Pixel)
    requires
        6 * i + 6 <= input.len(),
    ensures
        p == pixel_at(input@, i as int),
{
    Pixel {
        red: read_sample(input, 3 * i),
        green: read_sample(input, 3 * i + 1),
        blue: read_sample(input, 3 * i + 2),
    }
}

/// Fills `frame` with the pixels at the start of `input`.
///
/// The pixels that `input` holds in full are written in order; where it
/// holds fewer than `frame` has room for, the rest of `frame` keeps its
/// contents and the error says how the input ended.
pub fn read_frame(input: &[u8], frame: &mut [Pixel]) -> (r: Result<(), FrameError>)
    ensures
        final(frame)@.len() == old(frame)@.len(),
        forall|i: int|
            0 <= i < old(frame)@.len() ==> #[trigger] final(frame)@[i] == if i < whole_pixels(
                input@,
            ) {
                pixel_at(input@, i)
            } else {
                old(frame)@[i]
            },
        r == match frame_error(input@, old(frame)@.len() as int) {
            None => Ok::<(), FrameError>(()),
            Some(e) => Err(e),
        },
{
    let held: usize = input.len() / PIXEL_BYTES;
    let wanted: usize = frame.len();
    let n: usize = if held < wanted {
        held
    } else {
        wanted
    };
    let mut i: usize = 0;
    while i < n
        invariant
            i <= n,
            n <= held,
            n <= wanted,
            held == whole_pixels(input@),
            wanted == old(frame)@.len(),
            frame@.len() == old(frame)@.len(),
            forall|j: int| 0 <= j < i ==> #[trigger] frame@[j] == pixel_at(input@, j),
            forall|j: int| i <= j < wanted ==> #[trigger] frame@[j] == old(frame)@[j],
        decreases n - i,
    {
        let p = read_pixel(input, i);
        frame[i] = p;
        i = i + 1;
    }
    if held >= wanted {
        Ok(())
    } else if input.len() % PIXEL_BYTES == 0 {
        Err(FrameError::EndOfStream)
    } else {
        Err(FrameError::Truncated)
    }
}

/// The largest sample of the frame of `count` pixels at the start of `input`.
///
/// Fails, as `read_frame` does, where `input` holds fewer than `count` whole
/// pixels.
pub fn read_frame_max_channel(input: &[u8], count: usize) -> (r: Result<u16, FrameError>)
    ensures
        r == match frame_error(input@, count as int) {
            None => Ok::<u16, FrameError>(max_sample(input@, (3 * count) as nat)),
            Some(e) => Err(e),
        },
{
    let held: usize = input.len() / PIXEL_BYTES;
    if held < count {
        if input.len() % PIXEL_BYTES == 0 {
            return Err(FrameError::EndOfStream);
        } else {
            return Err(FrameError::Truncated);
        }
    }
    let samples: usize = 3 * count;
    let mut max_channel: u16 = 0;
    let mut k: usize = 0;
    while k < samples
        invariant
            k <= samples,
            samples == 3 * count,
            6 * count <= input.len(),
            max_channel == max_sample(input@, k as nat),
        decreases samples - k,
    {
        let v = read_sample(input, k);
        if v > max_channel {
            max_channel = v;
        }
        k = k + 1;
    }
    Ok(max_channel)
}

/// No sample among the first `n` exceeds `max_sample`, and where `n` is not 0
/// one of them equals it.
pub proof fn lemma_max_sample_is_maximum(bytes: Seq<u8>, n: nat)
    ensures
        forall|k: int| 0 <= k < n ==> #[trigger] sample_at(bytes, k) <= max_sample(bytes, n),
        n > 0 ==> exists|k: int| 0 <= k < n && #[trigger] sample_at(bytes, k) == max_sample(bytes, n),
        n == 0 ==> max_sample(bytes, n) == 0,
    decreases n,
{
    if n > 0 {
        lemma_max_sample_is_maximum(bytes, (n - 1) as nat);
        let rest = max_sample(bytes, (n - 1) as nat);
        let last = sample_at(bytes, n - 1);
        if last > rest {
            assert(sample_at(bytes, n - 1) == max_sample(bytes, n));
        } else if n > 1 {
            let k = choose|k: int| 0 <= k < n - 1 && #[trigger] sample_at(bytes, k) == rest;
            assert(sample_at(bytes, k) == max_sample(bytes, n));
        } else {
            assert(rest == 0);
            assert(last == 0);
            assert(sample_at(bytes, 0) == max_sample(bytes, n));
        }
    }
}

} // verus!
