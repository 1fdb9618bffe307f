//! Decoding video frames to RGB24.

use vstd::prelude::*;
use vstd::multiset::Multiset;
use crate::mcap_reader::{FrameData, FrameDataView, VideoFrame, VideoFrameView};
use crate::ros2_msgs::Time;
use crate::text::{has_substring, str_contains, str_is};
use crate::sorting::{sort_by_key, sorted_by_key, stable_sort_by_key, KeyOrder};

verus! {

broadcast use vstd::seq_lib::group_to_multiset_ensures;

/// A decoded frame ready for encoding. Its Unix timestamp is that of `stamp`.
#[derive(Debug, Clone)]
pub struct DecodedFrame {
    pub stamp: Time,
    pub sequence: u64,
    pub width: u32,
    pub height: u32,
    pub rgb_data: Vec<u8>,  // RGB24 format
}

pub struct DecodedFrameView {
    pub stamp: Time,
    pub sequence: u64,
    pub width: u32,
    pub height: u32,
    pub rgb_data: Seq<u8>,
}

impl View for DecodedFrame {
    type V = DecodedFrameView;

    open spec fn view(&self) -> DecodedFrameView {
        DecodedFrameView {
            stamp: self.stamp,
            sequence: self.sequence,
            width: self.width,
            height: self.height,
            rgb_data: self.rgb_data@,
        }
    }
}

/// Why a frame could not be decoded.
#[derive(Debug, Clone)]
pub enum DecodeError {
    /// Unsupported image encoding; holds the encoding
    UnsupportedEncoding(String),
    /// Insufficient image data: fewer bytes than stride times height
    InsufficientData { got: usize, need: usize },
    /// The compressed image could not be decoded
    Image,
}

pub enum DecodeErrorView {
    UnsupportedEncoding(Seq<char>),
    InsufficientData { got: usize, need: usize },
    Image,
}

impl View for DecodeError {
    type V = DecodeErrorView;

    open spec fn view(&self) -> DecodeErrorView {
        match self {
            DecodeError::UnsupportedEncoding(e) => DecodeErrorView::UnsupportedEncoding(e@),
            DecodeError::InsufficientData { got, need } => DecodeErrorView::InsufficientData {
                got: *got,
                need: *need,
            },
            DecodeError::Image => DecodeErrorView::Image,
        }
    }
}

// ---- Raw pixel layouts ----

/// How the pixels of a raw image are laid out.
#[derive(Debug, Clone, Copy, PartialEq, Eq, Structural)]
pub enum PixelLayout {
    Rgb,
    Bgr,
    Rgba,
    Bgra,
    Mono8,
    Mono16,
}

/// The layout that a ROS2 image encoding names.
pub open spec fn spec_pixel_layout(encoding: Seq<char>) -> Option<PixelLayout> {
    if encoding == "rgb8"@ || encoding == "RGB8"@ || encoding == "8UC3"@ {
        Some(PixelLayout::Rgb)
    } else if encoding == "bgr8"@ || encoding == "BGR8"@ {
        Some(PixelLayout::Bgr)
    } else if encoding == "rgba8"@ || encoding == "RGBA8"@ || encoding == "8UC4"@ {
        Some(PixelLayout::Rgba)
    } else if encoding == "bgra8"@ || encoding == "BGRA8"@ {
        Some(PixelLayout::Bgra)
    } else if encoding == "mono8"@ || encoding == "MONO8"@ || encoding == "8UC1"@ {
        Some(PixelLayout::Mono8)
    } else if encoding == "16UC1"@ || encoding == "mono16"@ {
        Some(PixelLayout::Mono16)
    } else {
        None
    }
}

pub open spec fn layout_bpp(l: PixelLayout) -> nat {
    match l {
        PixelLayout::Rgb | PixelLayout::Bgr => 3,
        PixelLayout::Rgba | PixelLayout::Bgra => 4,
        PixelLayout::Mono8 => 1,
        PixelLayout::Mono16 => 2,
    }
}

/// Channel `k` (0 red, 1 green, 2 blue) of pixel `p` of a row: colour
/// channels are reordered, alpha dropped, grey repeated, and of a 16-bit grey
/// value its high (second, little-endian) byte kept.
pub open spec fn pixel_byte(l: PixelLayout, row: Seq<u8>, p: int, k: int) -> u8 {
    match l {
        PixelLayout::Rgb => row[3 * p + k],
        PixelLayout::Bgr => row[3 * p + 2 - k],
        PixelLayout::Rgba => row[4 * p + k],
        PixelLayout::Bgra => row[4 * p + 2 - k],
        PixelLayout::Mono8 => row[p],
        PixelLayout::Mono16 => row[2 * p + 1],
    }
}

/// The RGB24 bytes of the first `width` pixels of a row.
pub open spec fn convert_row(l: PixelLayout, row: Seq<u8>, width: nat) -> Seq<u8> {
    Seq::new(3 * width, |j: int| pixel_byte(l, row, j / 3, j % 3))
}

/// The RGB24 bytes of the first `n` rows, the rows `stride` bytes apart.
pub open spec fn rgb_rows(l: PixelLayout, data: Seq<u8>, stride: int, width: nat, n: nat) -> Seq<u8>
    decreases n,
{
    if n == 0 {
        Seq::empty()
    } else {
        let start = (n - 1) * stride;
        rgb_rows(l, data, stride, width, (n - 1) as nat) + convert_row(
            l,
            data.subrange(start, start + layout_bpp(l) * width),
            width,
        )
    }
}

proof fn lemma_rgb_rows_len(l: PixelLayout, data: Seq<u8>, stride: int, width: nat, n: nat)
    ensures
        rgb_rows(l, data, stride, width, n).len() == 3 * width * n,
    decreases n,
{
    if n > 0 {
        lemma_rgb_rows_len(l, data, stride, width, (n - 1) as nat);
        let start = (n - 1) * stride;
        assert(convert_row(l, data.subrange(start, start + layout_bpp(l) * width), width).len()
            == 3 * width);
        assert(3 * width * (n - 1) + 3 * width == 3 * width * n) by (nonlinear_arith);
    } else {
        assert(3 * width * n == 0) by (nonlinear_arith)
            requires
                n == 0,
        ;
    }
}

/// A raw image converts to exactly three bytes per pixel.
pub proof fn law_raw_decode_size(width: u32, height: u32, step: u32, encoding: Seq<char>, data: Seq<u8>)
    ensures
        spec_decode_raw(width, height, step, encoding, data) matches Ok(rgb) ==> rgb.len() == 3
            * width * height,
{
    if let Some(l) = spec_pixel_layout(encoding) {
        let stride = raw_stride(width, height, step, data.len() as int, layout_bpp(l));
        lemma_rgb_rows_len(l, data, stride, width as nat, height as nat);
    }
}

/// Byte `k` of pixel `p` of row `r` of the converted rows is that channel of
/// that pixel of the row's bytes.
proof fn lemma_rgb_rows_index(
    l: PixelLayout,
    data: Seq<u8>,
    stride: int,
    width: nat,
    n: nat,
    r: int,
    p: int,
    k: int,
)
    requires
        0 <= r < n,
        0 <= p < width,
        0 <= k < 3,
    ensures
        3 * (r * width + p) + k < rgb_rows(l, data, stride, width, n).len(),
        rgb_rows(l, data, stride, width, n)[3 * (r * width + p) + k] == pixel_byte(
            l,
            data.subrange(r * stride, r * stride + layout_bpp(l) * width),
            p,
            k,
        ),
    decreases n,
{
    lemma_rgb_rows_len(l, data, stride, width, n);
    lemma_rgb_rows_len(l, data, stride, width, (n - 1) as nat);
    let prev = rgb_rows(l, data, stride, width, (n - 1) as nat);
    assert(3 * (r * width + p) + k < 3 * width * n) by (nonlinear_arith)
        requires
            0 <= r < n,
            0 <= p < width,
            0 <= k < 3,
    ;
    if r < n - 1 {
        lemma_rgb_rows_index(l, data, stride, width, (n - 1) as nat, r, p, k);
    } else {
        assert(3 * (r * width + p) + k - 3 * width * (n - 1) == 3 * p + k) by (nonlinear_arith)
            requires
                r == n - 1,
        ;
        assert((3 * p + k) / 3 == p && (3 * p + k) % 3 == k) by (nonlinear_arith)
            requires
                0 <= p,
                0 <= k < 3,
        ;
    }
}

/// The layout that each encoding name gives.
#[verifier::spinoff_prover]
proof fn lemma_layout_names()
    ensures
        spec_pixel_layout("rgb8"@) == Some(PixelLayout::Rgb),
        spec_pixel_layout("RGB8"@) == Some(PixelLayout::Rgb),
        spec_pixel_layout("8UC3"@) == Some(PixelLayout::Rgb),
        spec_pixel_layout("bgr8"@) == Some(PixelLayout::Bgr),
        spec_pixel_layout("BGR8"@) == Some(PixelLayout::Bgr),
        spec_pixel_layout("rgba8"@) == Some(PixelLayout::Rgba),
        spec_pixel_layout("RGBA8"@) == Some(PixelLayout::Rgba),
        spec_pixel_layout("8UC4"@) == Some(PixelLayout::Rgba),
        spec_pixel_layout("bgra8"@) == Some(PixelLayout::Bgra),
        spec_pixel_layout("BGRA8"@) == Some(PixelLayout::Bgra),
        spec_pixel_layout("mono8"@) == Some(PixelLayout::Mono8),
        spec_pixel_layout("MONO8"@) == Some(PixelLayout::Mono8),
        spec_pixel_layout("8UC1"@) == Some(PixelLayout::Mono8),
        spec_pixel_layout("16UC1"@) == Some(PixelLayout::Mono16),
        spec_pixel_layout("mono16"@) == Some(PixelLayout::Mono16),
{
    reveal_strlit("rgb8");
    reveal_strlit("RGB8");
    reveal_strlit("8UC3");
    reveal_strlit("bgr8");
    reveal_strlit("BGR8");
    reveal_strlit("rgba8");
    reveal_strlit("RGBA8");
    reveal_strlit("8UC4");
    reveal_strlit("bgra8");
    reveal_strlit("BGRA8");
    reveal_strlit("mono8");
    reveal_strlit("MONO8");
    reveal_strlit("8UC1");
    reveal_strlit("16UC1");
    reveal_strlit("mono16");
    assert("rgb8"@.len() == 4);
    assert("RGB8"@.len() == 4);
    assert("8UC3"@.len() == 4);
    assert("bgr8"@.len() == 4);
    assert("BGR8"@.len() == 4);
    assert("rgba8"@.len() == 5);
    assert("RGBA8"@.len() == 5);
    assert("8UC4"@.len() == 4);
    assert("bgra8"@.len() == 5);
    assert("BGRA8"@.len() == 5);
    assert("mono8"@.len() == 5);
    assert("MONO8"@.len() == 5);
    assert("8UC1"@.len() == 4);
    assert("16UC1"@.len() == 5);
    assert("mono16"@.len() == 6);
    assert("rgb8"@[0] != "RGB8"@[0]);
    assert("rgb8"@[0] != "8UC3"@[0]);
    assert("rgb8"@[0] != "bgr8"@[0]);
    assert("rgb8"@[0] != "BGR8"@[0]);
    assert("rgb8"@[0] != "8UC4"@[0]);
    assert("rgb8"@[0] != "8UC1"@[0]);
    assert("RGB8"@[0] != "8UC3"@[0]);
    assert("RGB8"@[0] != "bgr8"@[0]);
    assert("RGB8"@[0] != "BGR8"@[0]);
    assert("RGB8"@[0] != "8UC4"@[0]);
    assert("RGB8"@[0] != "8UC1"@[0]);
    assert("8UC3"@[0] != "bgr8"@[0]);
    assert("8UC3"@[0] != "BGR8"@[0]);
    assert("8UC3"@[3] != "8UC4"@[3]);
    assert("8UC3"@[3] != "8UC1"@[3]);
    assert("bgr8"@[0] != "BGR8"@[0]);
    assert("bgr8"@[0] != "8UC4"@[0]);
    assert("bgr8"@[0] != "8UC1"@[0]);
    assert("BGR8"@[0] != "8UC4"@[0]);
    assert("BGR8"@[0] != "8UC1"@[0]);
    assert("rgba8"@[0] != "RGBA8"@[0]);
    assert("rgba8"@[0] != "bgra8"@[0]);
    assert("rgba8"@[0] != "BGRA8"@[0]);
    assert("rgba8"@[0] != "mono8"@[0]);
    assert("rgba8"@[0] != "MONO8"@[0]);
    assert("rgba8"@[0] != "16UC1"@[0]);
    assert("RGBA8"@[0] != "bgra8"@[0]);
    assert("RGBA8"@[0] != "BGRA8"@[0]);
    assert("RGBA8"@[0] != "mono8"@[0]);
    assert("RGBA8"@[0] != "MONO8"@[0]);
    assert("RGBA8"@[0] != "16UC1"@[0]);
    assert("8UC4"@[3] != "8UC1"@[3]);
    assert("bgra8"@[0] != "BGRA8"@[0]);
    assert("bgra8"@[0] != "mono8"@[0]);
    assert("bgra8"@[0] != "MONO8"@[0]);
    assert("bgra8"@[0] != "16UC1"@[0]);
    assert("BGRA8"@[0] != "mono8"@[0]);
    assert("BGRA8"@[0] != "MONO8"@[0]);
    assert("BGRA8"@[0] != "16UC1"@[0]);
    assert("mono8"@[0] != "MONO8"@[0]);
    assert("mono8"@[0] != "16UC1"@[0]);
    assert("MONO8"@[0] != "16UC1"@[0]);
}

/// Converting a raw image takes, for byte `k` (red, green, blue) of pixel
/// `p` of row `r`, the bytes that its encoding lays out: rows lie `stride`
/// bytes apart (the step, else the data length over the height, else one
/// packed row); `rgb8` pixels are red, green, blue, `bgr8` blue, green, red,
/// `rgba8` red, green, blue, alpha, `bgra8` blue, green, red, alpha; a grey
/// byte is repeated, and of a 16-bit grey value its high (second) byte
/// (for a frame that `decode_raw` takes).
#[verifier::spinoff_prover]
pub proof fn law_raw_pixel_bytes(
    width: u32,
    height: u32,
    step: u32,
    encoding: Seq<char>,
    data: Seq<u8>,
    r: int,
    p: int,
)
    requires
        raw_frame_fits(width, height, step, encoding, data.len() as int),
        spec_decode_raw(width, height, step, encoding, data) is Ok,
        0 <= r < height,
        0 <= p < width,
    ensures
        ({
            let rgb = spec_decode_raw(width, height, step, encoding, data)->Ok_0;
            let o = 3 * (r * width + p);
            let stride = |bpp: int|
                if step > 0 {
                    step as int
                } else if data.len() > 0 && height > 0 {
                    (data.len() as int) / (height as int)
                } else {
                    width * bpp
                };
            &&& rgb.len() == 3 * width * height
            &&& (encoding == "rgb8"@ || encoding == "RGB8"@ || encoding == "8UC3"@) ==> {
                let b = r * stride(3) + 3 * p;
                rgb[o] == data[b] && rgb[o + 1] == data[b + 1] && rgb[o + 2] == data[b + 2]
            }
            &&& (encoding == "bgr8"@ || encoding == "BGR8"@) ==> {
                let b = r * stride(3) + 3 * p;
                rgb[o] == data[b + 2] && rgb[o + 1] == data[b + 1] && rgb[o + 2] == data[b]
            }
            &&& (encoding == "rgba8"@ || encoding == "RGBA8"@ || encoding == "8UC4"@) ==> {
                let b = r * stride(4) + 4 * p;
                rgb[o] == data[b] && rgb[o + 1] == data[b + 1] && rgb[o + 2] == data[b + 2]
            }
            &&& (encoding == "bgra8"@ || encoding == "BGRA8"@) ==> {
                let b = r * stride(4) + 4 * p;
                rgb[o] == data[b + 2] && rgb[o + 1] == data[b + 1] && rgb[o + 2] == data[b]
            }
            &&& (encoding == "mono8"@ || encoding == "MONO8"@ || encoding == "8UC1"@) ==> {
                let b = r * stride(1) + p;
                rgb[o] == data[b] && rgb[o + 1] == data[b] && rgb[o + 2] == data[b]
            }
            &&& (encoding == "16UC1"@ || encoding == "mono16"@) ==> {
                let b = r * stride(2) + 2 * p + 1;
                rgb[o] == data[b] && rgb[o + 1] == data[b] && rgb[o + 2] == data[b]
            }
        }),
{
    lemma_layout_names();
    law_raw_decode_size(width, height, step, encoding, data);
    let l = spec_pixel_layout(encoding)->Some_0;
    let bpp = layout_bpp(l);
    let stride = raw_stride(width, height, step, data.len() as int, bpp);
    let row = data.subrange(r * stride, r * stride + bpp * width);
    assert(r * stride <= (height - 1) * stride) by (nonlinear_arith)
        requires
            0 <= r < height,
            stride >= 0,
    ;
    assert(stride >= 0) by (nonlinear_arith)
        requires
            stride == raw_stride(width, height, step, data.len() as int, bpp),
    ;
    let o = 3 * (r * width + p);
    let b = r * stride + bpp * p;
    assert(bpp * p + bpp <= bpp * width) by (nonlinear_arith)
        requires
            0 <= p < width,
            bpp >= 0,
    ;
    lemma_rgb_rows_index(l, data, stride, width as nat, height as nat, r, p, 0);
    lemma_rgb_rows_index(l, data, stride, width as nat, height as nat, r, p, 1);
    lemma_rgb_rows_index(l, data, stride, width as nat, height as nat, r, p, 2);
    let rgb = spec_decode_raw(width, height, step, encoding, data)->Ok_0;
    assert(rgb == rgb_rows(l, data, stride, width as nat, height as nat));
    assert(rgb[o] == pixel_byte(l, row, p, 0));
    assert(rgb[o + 1] == pixel_byte(l, row, p, 1));
    assert(rgb[o + 2] == pixel_byte(l, row, p, 2));
    match l {
        PixelLayout::Rgb | PixelLayout::Bgr => {
            assert(row[3 * p] == data[b]);
            assert(row[3 * p + 1] == data[b + 1]);
            assert(row[3 * p + 2] == data[b + 2]);
        },
        PixelLayout::Rgba | PixelLayout::Bgra => {
            assert(row[4 * p] == data[b]);
            assert(row[4 * p + 1] == data[b + 1]);
            assert(row[4 * p + 2] == data[b + 2]);
        },
        PixelLayout::Mono8 => {
            assert(row[p] == data[b]);
        },
        PixelLayout::Mono16 => {
            assert(row[2 * p + 1] == data[b + 1]);
        },
    }
}

/// The stride of a raw image: its step when set, else the data length over
/// the height, else one packed row.
pub open spec fn raw_stride(width: u32, height: u32, step: u32, len: int, bpp: nat) -> int {
    if step > 0 {
        step as int
    } else if len > 0 && height > 0 {
        len / (height as int)
    } else {
        width * bpp
    }
}

/// A raw frame that is refused for too little data, or whose every row lies
/// within its data and whose RGB24 size fits in memory.
pub open spec fn raw_frame_fits(width: u32, height: u32, step: u32, encoding: Seq<char>, len: int) -> bool {
    match spec_pixel_layout(encoding) {
        None => true,
        Some(l) => {
            let bpp = layout_bpp(l);
            let stride = raw_stride(width, height, step, len, bpp);
            ||| len < stride * height
            ||| {
                &&& 3 * width * height <= usize::MAX
                &&& (height == 0 || (height - 1) * stride + bpp * width <= len)
            }
        }
    }
}

/// The RGB24 bytes of a raw image, or why it cannot be converted.
pub open spec fn spec_decode_raw(
    width: u32,
    height: u32,
    step: u32,
    encoding: Seq<char>,
    data: Seq<u8>,
) -> Result<Seq<u8>, DecodeErrorView> {
    match spec_pixel_layout(encoding) {
        None => Err(DecodeErrorView::UnsupportedEncoding(encoding)),
        Some(l) => {
            let stride = raw_stride(width, height, step, data.len() as int, layout_bpp(l));
            let need = stride * height;
            if data.len() < need {
                Err(
                    DecodeErrorView::InsufficientData {
                        got: data.len() as usize,
                        need: if need <= usize::MAX {
                            need as usize
                        } else {
                            usize::MAX
                        },
                    },
                )
            } else {
                Ok(rgb_rows(l, data, stride, width as nat, height as nat))
            }
        },
    }
}

/// Get the pixel layout for an encoding
fn pixel_layout(encoding: &str) -> (r: Option<PixelLayout>)
    ensures
        r == spec_pixel_layout(encoding@),
{
    if str_is(encoding, "rgb8") || str_is(encoding, "RGB8") || str_is(encoding, "8UC3") {
        Some(PixelLayout::Rgb)
    } else if str_is(encoding, "bgr8") || str_is(encoding, "BGR8") {
        Some(PixelLayout::Bgr)
    } else if str_is(encoding, "rgba8") || str_is(encoding, "RGBA8") || str_is(encoding, "8UC4") {
        Some(PixelLayout::Rgba)
    } else if str_is(encoding, "bgra8") || str_is(encoding, "BGRA8") {
        Some(PixelLayout::Bgra)
    } else if str_is(encoding, "mono8") || str_is(encoding, "MONO8") || str_is(encoding, "8UC1") {
        Some(PixelLayout::Mono8)
    } else if str_is(encoding, "16UC1") || str_is(encoding, "mono16") {
        Some(PixelLayout::Mono16)
    } else {
        None
    }
}

impl PixelLayout {
    fn bytes_per_pixel(self) -> (r: usize)
        ensures
            r == layout_bpp(self),
    {
        match self {
            PixelLayout::Rgb | PixelLayout::Bgr => 3,
            PixelLayout::Rgba | PixelLayout::Bgra => 4,
            PixelLayout::Mono8 => 1,
            PixelLayout::Mono16 => 2,
        }
    }
}

/// Get bytes per pixel for an encoding
pub fn bytes_per_pixel(encoding: &str) -> (r: Option<usize>)
    ensures
        r == (match spec_pixel_layout(encoding@) {
            Some(l) => Some(layout_bpp(l) as usize),
            None => None,
        }),
{
    match pixel_layout(encoding) {
        Some(l) => Some(l.bytes_per_pixel()),
        None => None,
    }
}

/// Appends the RGB24 bytes of the first `width` pixels of `row` to `out`.
#[verifier::spinoff_prover]
#[verifier::rlimit(40)]
fn convert_row_into(l: PixelLayout, row: &[u8], width: usize, out: &mut Vec<u8>)
    requires
        row.len() >= layout_bpp(l) * width,
        old(out).len() + 3 * width <= usize::MAX,
    ensures
        final(out)@ == old(out)@ + convert_row(l, row@, width as nat),
{
    let ghost base = old(out)@;
    let mut c: usize = 0;
    while c < width
        invariant
            row.len() >= layout_bpp(l) * width,
            c <= width,
            out@.len() == base.len() + 3 * c,
            out@ == base + convert_row(l, row@, width as nat).take(3 * c),
        decreases width - c,
    {
        let (r, g, b) = match l {
            PixelLayout::Rgb => (row[3 * c], row[3 * c + 1], row[3 * c + 2]),
            PixelLayout::Bgr => (row[3 * c + 2], row[3 * c + 1], row[3 * c]),
            PixelLayout::Rgba => (row[4 * c], row[4 * c + 1], row[4 * c + 2]),
            PixelLayout::Bgra => (row[4 * c + 2], row[4 * c + 1], row[4 * c]),
            PixelLayout::Mono8 => (row[c], row[c], row[c]),
            PixelLayout::Mono16 => (row[2 * c + 1], row[2 * c + 1], row[2 * c + 1]),
        };
        out.push(r);
        out.push(g);
        out.push(b);
        proof {
            let full = convert_row(l, row@, width as nat);
            assert(full[3 * c as int] == r);
            assert(full[3 * c + 1] == g);
            assert(full[3 * c + 2] == b);
            assert(out@ =~= base + full.take(3 * (c + 1)));
        }
        c = c + 1;
    }
    assert(convert_row(l, row@, width as nat).take(3 * width) =~= convert_row(l, row@, width as nat));
}

/// Decode raw image data based on encoding
fn decode_raw(
    stamp: Time,
    sequence: u64,
    width: u32,
    height: u32,
    step: u32,
    encoding: &str,
    data: &[u8],
) -> (r: Result<DecodedFrame, DecodeError>)
    requires
        raw_frame_fits(width, height, step, encoding@, data.len() as int),
    ensures
        match spec_decode_raw(width, height, step, encoding@, data@) {
            Ok(rgb) => r matches Ok(f) && f@ == (DecodedFrameView {
                stamp,
                sequence,
                width,
                height,
                rgb_data: rgb,
            }),
            Err(e) => r matches Err(e2) && e2@ == e,
        },
{
    let l = match pixel_layout(encoding) {
        Some(l) => l,
        None => return Err(DecodeError::UnsupportedEncoding(encoding.to_owned())),
    };
    let bpp = l.bytes_per_pixel();
    let len = data.len() as u128;
    let w = width as u128;
    let h = height as u128;
    assert(bpp * w <= 4 * 0xffff_ffff) by (nonlinear_arith)
        requires
            w <= 0xffff_ffff,
            bpp <= 4,
    ;
    // Use step from message if valid, otherwise calculate from data
    let wide_stride: u128 = if step > 0 {
        step as u128
    } else if len > 0 && h > 0 {
        // Calculate stride from data size
        len / h
    } else {
        bpp as u128 * w
    };
    assert(wide_stride <= 0x1_0000_0000_0000_0000) by (nonlinear_arith)
        requires
            wide_stride == raw_stride(width, height, step, data.len() as int, bpp as nat),
            bpp <= 4,
            len <= usize::MAX,
    ;
    assert(wide_stride * h <= 0x1_0000_0000_0000_0000 * 0xffff_ffff) by (nonlinear_arith)
        requires
            wide_stride <= 0x1_0000_0000_0000_0000,
            h <= 0xffff_ffff,
    ;
    // Validate we have enough data
    let wide_need = wide_stride * h;
    if len < wide_need {
        let need = if wide_need <= usize::MAX as u128 {
            wide_need as usize
        } else {
            usize::MAX
        };
        return Err(DecodeError::InsufficientData { got: data.len(), need });
    }
    if height == 0 {
        return Ok(DecodedFrame { stamp, sequence, width, height, rgb_data: Vec::new() });
    }
    assert(wide_stride <= wide_need) by (nonlinear_arith)
        requires
            wide_need == wide_stride * h,
            h >= 1,
    ;
    let stride = wide_stride as usize;
    let row_size = bpp * (width as usize);
    let ghost w = width as nat;
    let ghost h = height as nat;
    let mut rgb_data: Vec<u8> = Vec::new();
    // Process row by row to handle stride
    let mut row: usize = 0;
    while row < height as usize
        invariant
            raw_frame_fits(width, height, step, encoding@, data.len() as int),
            spec_pixel_layout(encoding@) == Some(l),
            bpp == layout_bpp(l),
            row_size == bpp * width,
            w == width,
            stride == raw_stride(width, height, step, data.len() as int, layout_bpp(l)),
            data.len() >= stride * height,
            row <= height,
            rgb_data@.len() == 3 * width * row,
            rgb_data@ == rgb_rows(l, data@, stride as int, w, row as nat),
        decreases height - row,
    {
        proof {
            assert(row * stride <= (height - 1) * stride) by (nonlinear_arith)
                requires
                    row < height,
            ;
            assert(3 * width * (row + 1) <= 3 * width * height) by (nonlinear_arith)
                requires
                    row < height,
            ;
            assert(3 * width * (row + 1) == 3 * width * row + 3 * width) by (nonlinear_arith);
        }
        let row_start = row * stride;
        let ghost before = rgb_data@;
        convert_row_into(l, &data[row_start..row_start + row_size], width as usize, &mut rgb_data);
        proof {
            let n = (row + 1) as nat;
            assert((n - 1) * stride == row_start);
            assert(row_size == layout_bpp(l) * w);
            assert(data@.subrange(row_start as int, row_start + row_size) =~= data@.subrange(row_start as int, row_start + layout_bpp(l) * w));
            assert(rgb_data@ == before + convert_row(
                l,
                data@.subrange(row_start as int, row_start + layout_bpp(l) * w),
                w,
            ));
            assert(rgb_rows(l, data@, stride as int, w, n) == before + convert_row(
                l,
                data@.subrange(row_start as int, row_start + layout_bpp(l) * w),
                w,
            ));
        }
        row = row + 1;
    }
    Ok(DecodedFrame { stamp, sequence, width, height, rgb_data })
}

// ---- Compressed images ----

/// The still-image formats that a compressed frame's format string can name.
#[derive(Debug, Clone, Copy, PartialEq, Eq, Structural)]
pub enum StillFormat {
    Jpeg,
    Png,
}

#[verifier::external_type_specification]
#[verifier::external_body]
pub struct ExImageError(image::ImageError);

/// Width, height and RGB8 pixels of the image that
/// `image::load_from_memory_with_format` decodes from `data` in the given
/// format, as `DynamicImage::to_rgb8` converts it; `None` where decoding fails.
pub uninterp spec fn image_rgb8_of_format(data: Seq<u8>, format: StillFormat) -> Option<
    (u32, u32, Seq<u8>),
>;

/// Width, height and RGB8 pixels of the image that `image::load_from_memory`
/// decodes from `data`, guessing its format, as `DynamicImage::to_rgb8`
/// converts it; `None` where decoding fails.
pub uninterp spec fn image_rgb8_guessed(data: Seq<u8>) -> Option<(u32, u32, Seq<u8>)>;

/// `image::load_from_memory_with_format`, the result taken as RGB8.
#[verifier::external_body]
fn load_rgb8_with_format(data: &[u8], format: StillFormat) -> (r: Result<
    (u32, u32, Vec<u8>),
    image::ImageError,
>)
    ensures
        match image_rgb8_of_format(data@, format) {
            Some((w, h, px)) => r matches Ok((a, b, v)) && a == w && b == h && v@ == px,
            None => r is Err,
        },
{
    let fmt = match format {
        StillFormat::Jpeg => image::ImageFormat::Jpeg,
        StillFormat::Png => image::ImageFormat::Png,
    };
    let rgb = image::load_from_memory_with_format(data, fmt)?.to_rgb8();
    Ok((rgb.width(), rgb.height(), rgb.into_raw()))
}

/// `image::load_from_memory`, the result taken as RGB8.
#[verifier::external_body]
fn load_rgb8_guessed(data: &[u8]) -> (r: Result<(u32, u32, Vec<u8>), image::ImageError>)
    ensures
        match image_rgb8_guessed(data@) {
            Some((w, h, px)) => r matches Ok((a, b, v)) && a == w && b == h && v@ == px,
            None => r is Err,
        },
{
    let rgb = image::load_from_memory(data)?.to_rgb8();
    Ok((rgb.width(), rgb.height(), rgb.into_raw()))
}

/// The format a compressed frame's format string names: JPEG when it
/// mentions `jpeg` or `jpg`, else PNG when it mentions `png`.
pub open spec fn spec_still_format(format: Seq<char>) -> Option<StillFormat> {
    if has_substring(format, "jpeg"@) || has_substring(format, "jpg"@) {
        Some(StillFormat::Jpeg)
    } else if has_substring(format, "png"@) {
        Some(StillFormat::Png)
    } else {
        None
    }
}

/// Width, height and RGB8 pixels of a compressed frame.
pub open spec fn spec_decode_compressed(format: Seq<char>, data: Seq<u8>) -> Option<
    (u32, u32, Seq<u8>),
> {
    match spec_still_format(format) {
        Some(f) => image_rgb8_of_format(data, f),
        None => image_rgb8_guessed(data),
    }
}

/// A format naming JPEG (`jpeg` or `jpg` anywhere in it) is decoded as
/// JPEG; one naming PNG and not JPEG as PNG; any other has its format
/// guessed from the bytes.
pub proof fn law_still_format_by_name(format: Seq<char>)
    ensures
        has_substring(format, "jpeg"@) || has_substring(format, "jpg"@) ==> spec_still_format(format)
            == Some(StillFormat::Jpeg),
        !has_substring(format, "jpeg"@) && !has_substring(format, "jpg"@) && has_substring(
            format,
            "png"@,
        ) ==> spec_still_format(format) == Some(StillFormat::Png),
        !has_substring(format, "jpeg"@) && !has_substring(format, "jpg"@) && !has_substring(
            format,
            "png"@,
        ) ==> spec_still_format(format) is None,
{
}

/// Decode compressed image (JPEG/PNG)
fn decode_compressed(stamp: Time, sequence: u64, format: &str, data: &[u8]) -> (r: Result<
    DecodedFrame,
    DecodeError,
>)
    ensures
        match spec_decode_compressed(format@, data@) {
            Some((w, h, px)) => r matches Ok(f) && f@ == (DecodedFrameView {
                stamp,
                sequence,
                width: w,
                height: h,
                rgb_data: px,
            }),
            None => r matches Err(e) && e@ == DecodeErrorView::Image,
        },
{
    // Determine image format from the format string
    let img_format = if str_contains(format, "jpeg") || str_contains(format, "jpg") {
        Some(StillFormat::Jpeg)
    } else if str_contains(format, "png") {
        Some(StillFormat::Png)
    } else {
        None
    };
    let img = match img_format {
        Some(fmt) => load_rgb8_with_format(data, fmt),
        // Try to guess format from data
        None => load_rgb8_guessed(data),
    };
    match img {
        Ok((width, height, rgb_data)) => Ok(DecodedFrame { stamp, sequence, width, height, rgb_data }),
        Err(_) => Err(DecodeError::Image),
    }
}

// ---- Frames ----

/// A frame that `decode_frame` handles without running out of its data.
pub open spec fn spec_frame_fits(frame: VideoFrameView) -> bool {
    match frame.data {
        FrameDataView::Raw { width, height, encoding, step, data } => raw_frame_fits(
            width,
            height,
            step,
            encoding,
            data.len() as int,
        ),
        FrameDataView::Compressed { .. } => true,
    }
}

/// The RGB24 frame decoded from a video frame, or why it cannot be.
pub open spec fn spec_decode_frame(frame: VideoFrameView) -> Result<DecodedFrameView, DecodeErrorView> {
    match frame.data {
        FrameDataView::Compressed { format, data } => match spec_decode_compressed(format, data) {
            Some((w, h, px)) => Ok(
                DecodedFrameView {
                    stamp: frame.stamp,
                    sequence: frame.sequence,
                    width: w,
                    height: h,
                    rgb_data: px,
                },
            ),
            None => Err(DecodeErrorView::Image),
        },
        FrameDataView::Raw { width, height, encoding, step, data } => match spec_decode_raw(
            width,
            height,
            step,
            encoding,
            data,
        ) {
            Ok(px) => Ok(
                DecodedFrameView {
                    stamp: frame.stamp,
                    sequence: frame.sequence,
                    width,
                    height,
                    rgb_data: px,
                },
            ),
            Err(e) => Err(e),
        },
    }
}

/// Whether `decode_frame` accepts the frame: every row of a raw frame lies
/// within its data (unless it is refused for too little data first), and its
/// sizes fit in memory.
pub fn frame_fits(frame: &VideoFrame) -> (r: bool)
    ensures
        r == spec_frame_fits(frame@),
{
    match &frame.data {
        FrameData::Compressed { .. } => true,
        FrameData::Raw { width, height, encoding, step, data } => {
            let l = match pixel_layout(encoding.as_str()) {
                Some(l) => l,
                None => return true,
            };
            let bpp = l.bytes_per_pixel() as u128;
            let w = *width as u128;
            let h = *height as u128;
            let len = data.len() as u128;
            assert(bpp * w <= 4 * 0xffff_ffff) by (nonlinear_arith)
                requires
                    w <= 0xffff_ffff,
                    bpp <= 4,
            ;
            assert(3 * w * h <= 3 * 0xffff_ffff * 0xffff_ffff) by (nonlinear_arith)
                requires
                    w <= 0xffff_ffff,
                    h <= 0xffff_ffff,
            ;
            let stride: u128 = if *step > 0 {
                *step as u128
            } else if len > 0 && h > 0 {
                len / h
            } else {
                bpp * w
            };
            assert(stride == raw_stride(*width, *height, *step, data.len() as int, bpp as nat)) by {
                if *step == 0 && len > 0 && h > 0 {
                    assert(len / h == (data.len() as int) / (*height as int));
                }
            }
            assert(stride <= 0x1_0000_0000_0000_0000) by (nonlinear_arith)
                requires
                    stride == raw_stride(*width, *height, *step, data.len() as int, bpp as nat),
                    bpp <= 4,
                    len <= usize::MAX,
            ;
            assert(stride * h <= 0x1_0000_0000_0000_0000 * 0xffff_ffff) by (nonlinear_arith)
                requires
                    stride <= 0x1_0000_0000_0000_0000,
                    h <= 0xffff_ffff,
            ;
            if len < stride * h {
                return true;
            }
            let size_fits = 3 * w * h <= usize::MAX as u128;
            let rows_fit = if h == 0 {
                true
            } else {
                assert((h - 1) * stride <= stride * h) by (nonlinear_arith)
                    requires
                        h >= 1,
                ;
                assert((h - 1) * stride + bpp * w <= 0x1_0000_0000_0000_0000 * 0xffff_ffff + 4
                    * 0xffff_ffff);
                (h - 1) * stride + bpp * w <= len
            };
            size_fits && rows_fit
        },
    }
}

/// Decoding keeps a frame's stamp and number; a raw frame keeps its width
/// and height and gives three bytes per pixel.
pub proof fn law_decode_frame_keeps_identity(frame: VideoFrameView)
    ensures
        spec_decode_frame(frame) matches Ok(d) ==> {
            &&& d.stamp == frame.stamp
            &&& d.sequence == frame.sequence
            &&& frame.data matches FrameDataView::Raw { width, height, .. } ==> {
                &&& d.width == width
                &&& d.height == height
                &&& d.rgb_data.len() == 3 * width * height
            }
        },
{
    if let FrameDataView::Raw { width, height, encoding, step, data } = frame.data {
        law_raw_decode_size(width, height, step, encoding, data);
    }
}

/// Decode a single frame to RGB24 format
pub fn decode_frame(frame: &VideoFrame) -> (r: Result<DecodedFrame, DecodeError>)
    requires
        spec_frame_fits(frame@),
    ensures
        match spec_decode_frame(frame@) {
            Ok(v) => r matches Ok(f) && f@ == v,
            Err(e) => r matches Err(e2) && e2@ == e,
        },
{
    match &frame.data {
        FrameData::Compressed { format, data } => decode_compressed(
            frame.stamp,
            frame.sequence,
            format.as_str(),
            data.as_slice(),
        ),
        FrameData::Raw { width, height, encoding, step, data } => decode_raw(
            frame.stamp,
            frame.sequence,
            *width,
            *height,
            *step,
            encoding.as_str(),
            data.as_slice(),
        ),
    }
}

impl KeyOrder for DecodedFrame {
    open spec fn key_le(a: Self, b: Self) -> bool {
        a.sequence <= b.sequence
    }

    fn key_le_exec(&self, other: &Self) -> (r: bool) {
        self.sequence <= other.sequence
    }

    proof fn lemma_key_total(a: Self, b: Self) {
    }

    proof fn lemma_key_transitive(a: Self, b: Self, c: Self) {
    }
}

/// Index of the first failed decoding among `results`, if any.
pub open spec fn first_failure(results: Seq<Result<DecodedFrame, DecodeError>>) -> Option<int> {
    if exists|i: int| 0 <= i < results.len() && results[i] is Err {
        Some(
            choose|i: int|
                0 <= i < results.len() && results[i] is Err && forall|j: int|
                    0 <= j < i ==> results[j] is Ok,
        )
    } else {
        None
    }
}

/// The frames of a run of successful decodings.
pub open spec fn decoded_frames(results: Seq<Result<DecodedFrame, DecodeError>>) -> Seq<DecodedFrame> {
    results.map_values(|r: Result<DecodedFrame, DecodeError>| r->Ok_0)
}

proof fn lemma_first_failure(results: Seq<Result<DecodedFrame, DecodeError>>, i: int)
    requires
        0 <= i < results.len(),
        results[i] is Err,
        forall|j: int| 0 <= j < i ==> results[j] is Ok,
    ensures
        first_failure(results) == Some(i),
{
    let k = choose|k: int|
        0 <= k < results.len() && results[k] is Err && forall|j: int| 0 <= j < k ==> results[j] is Ok;
    assert(0 <= k < results.len() && results[k] is Err && forall|j: int| 0 <= j < k ==> results[j] is Ok);
    if k < i {
        assert(results[k] is Ok);
    } else if k > i {
        assert(results[i] is Ok);
    }
}

/// `r` is the first error among `results`, or, when there is none, their
/// frames sorted stably by sequence number.
pub open spec fn collected(
    results: Seq<Result<DecodedFrame, DecodeError>>,
    r: Result<Vec<DecodedFrame>, DecodeError>,
) -> bool {
    match first_failure(results) {
        Some(i) => r == Err::<Vec<DecodedFrame>, DecodeError>(results[i]->Err_0),
        None => r matches Ok(v) && v@ == stable_sort_by_key(decoded_frames(results)),
    }
}

/// The decoded frames in sequence order, or the first error among them
/// (the collecting half of parallel decoding).
pub fn collect_decoded(mut results: Vec<Result<DecodedFrame, DecodeError>>) -> (r: Result<
    Vec<DecodedFrame>,
    DecodeError,
>)
    ensures
        collected(results@, r),
{
    let ghost orig = results@;
    // Collect results, propagating first error
    let mut i: usize = 0;
    while i < results.len() && results[i].is_ok()
        invariant
            results@ == orig,
            i <= results.len(),
            forall|j: int| 0 <= j < i ==> orig[j] is Ok,
        decreases results.len() - i,
    {
        i = i + 1;
    }
    if i < results.len() {
        proof {
            lemma_first_failure(orig, i as int);
        }
        return match results.remove(i) {
            Err(e) => Err(e),
            Ok(_) => Err(DecodeError::Image),
        };
    }
    proof {
        if exists|k: int| 0 <= k < orig.len() && orig[k] is Err {
            let k = choose|k: int| 0 <= k < orig.len() && orig[k] is Err;
            assert(orig[k] is Ok);
        }
    }
    let mut decoded: Vec<DecodedFrame> = Vec::new();
    for r in it: results.into_iter()
        invariant
            it.seq() == orig,
            forall|j: int| 0 <= j < orig.len() ==> #[trigger] orig[j] is Ok,
            decoded@ == decoded_frames(orig.take(it.index())),
    {
        let ghost k = it.index();
        proof {
            assert(orig[k] == r);
        }
        if let Ok(f) = r {
            decoded.push(f);
        }
        proof {
            assert(decoded_frames(orig.take(k + 1)) =~= decoded_frames(orig.take(k)).push(
                orig[k]->Ok_0,
            ));
        }
    }
    proof {
        assert(orig.take(orig.len() as int) =~= orig);
    }
    // Sort by sequence to maintain order
    sort_by_key(&mut decoded);
    Ok(decoded)
}

} // verus!
