use vstd::prelude::*;

use crate::rgba::{pack, Rgba};

verus! {

/// An image of `width` by `height` colours, row by row from the top left.
pub struct RgbaImage {
    pub width: usize,
    pub height: usize,
    pub data: Vec<Rgba>,
}

/// Why an encoded image could not be loaded.
#[derive(Copy, Clone, PartialEq, Eq, Structural, Debug)]
pub enum LoadError {
    /// The decoder refused the stream.
    Decode,
    /// The image is not RGBA; the colour type that it has.
    NotRgba(u8),
    /// The image does not have 8 bits a channel; the depth that it has.
    NotEightBit(u8),
    /// A row does not hold four bytes for each pixel.
    LineSize,
    /// The frame does not hold one row for each line of the image.
    DataSize,
}

/// The header and the first frame of a decoded PNG stream.
pub struct PngFrame {
    pub width: u32,
    pub height: u32,
    /// The colour type, as the PNG header codes it (6 for RGBA).
    pub color_type: u8,
    /// Bits in each sample.
    pub bit_depth: u8,
    /// Bytes in each row.
    pub line_size: usize,
    pub data: Vec<u8>,
}

/// The header of a PNG stream, as the decoder reports it.
pub struct PngHeader {
    pub width: u32,
    pub height: u32,
    pub color_type: u8,
    pub bit_depth: u8,
    pub line_size: usize,
}

pub const COLOR_TYPE_RGBA: u8 = 6;

/// A PNG stream's header as the decoder reports it: width, height, colour
/// type, bit depth and bytes in a row of the decoded frame; none where the
/// decoder refuses the stream.
pub uninterp spec fn png_header(png: Seq<u8>) -> Option<(u32, u32, u8, u8, usize)>;

/// The bytes of a PNG stream's first frame as the decoder hands them out;
/// none where it refuses the frame.
pub uninterp spec fn png_frame(png: Seq<u8>) -> Option<Seq<u8>>;

/// Whether the stream's header describes an 8-bit RGBA image with four
/// bytes to a pixel in each row.
pub open spec fn rgba8_header(png: Seq<u8>) -> bool {
    match png_header(png) {
        Some((w, h, ct, bd, ls)) => header_error(w, ct, bd, ls) is None,
        None => false,
    }
}

#[verifier::external_type_specification]
#[verifier::external_body]
pub struct ExDecodingError(png::DecodingError);

/// Relies on png's `Decoder::read_info`: the header values of its
/// `OutputInfo`. What comes back depends on the bytes alone.
#[verifier::external_body]
fn read_png_header(png: &[u8]) -> (r: Result<PngHeader, png::DecodingError>)
    ensures
        match r {
            Ok(h) => png_header(png@) == Some(
                (h.width, h.height, h.color_type, h.bit_depth, h.line_size),
            ),
            Err(_) => png_header(png@) is None,
        },
{
    let (info, _) = png::Decoder::new(std::io::Cursor::new(png)).read_info()?;
    Ok(
        PngHeader {
            width: info.width,
            height: info.height,
            color_type: info.color_type as u8,
            bit_depth: info.bit_depth as u8,
            line_size: info.line_size,
        },
    )
}

/// Relies on png's `Reader::next_frame`, on a reader that `Decoder::read_info`
/// made, into a buffer of `OutputInfo::buffer_size` bytes. The decoder does
/// not check that colour type and bit depth go together, and `next_frame`
/// can write past the buffer where they do not; it is called only where the
/// header gives 8-bit RGBA with four bytes a pixel in a row, which leaves 8
/// or 16 bits a sample (the decoder strips 16 to 8). What comes back depends
/// on the bytes alone.
#[verifier::external_body]
fn read_png_frame(png: &[u8]) -> (r: Result<Vec<u8>, png::DecodingError>)
    requires
        rgba8_header(png@),
    ensures
        match r {
            Ok(d) => png_frame(png@) == Some(d@),
            Err(_) => png_frame(png@) is None,
        },
{
    let (info, mut reader) = png::Decoder::new(std::io::Cursor::new(png)).read_info()?;
    let mut data = vec![0u8; info.buffer_size()];
    reader.next_frame(&mut data)?;
    Ok(data)
}

/// The colours that the bytes hold, four bytes (red, green, blue, alpha)
/// to a colour.
pub open spec fn rgba_of_bytes(b: Seq<u8>) -> Seq<Rgba> {
    Seq::new(
        b.len() / 4,
        |i: int| Rgba(pack(b[4 * i], b[4 * i + 1], b[4 * i + 2], b[4 * i + 3])),
    )
}

/// Why a header describes no 8-bit RGBA image with four bytes a pixel in a
/// row, checked in this order; none where it describes one.
pub open spec fn header_error(width: u32, color_type: u8, bit_depth: u8, line_size: usize) -> Option<
    LoadError,
> {
    if color_type != COLOR_TYPE_RGBA {
        Some(LoadError::NotRgba(color_type))
    } else if bit_depth != 8 {
        Some(LoadError::NotEightBit(bit_depth))
    } else if 4 * width != line_size {
        Some(LoadError::LineSize)
    } else {
        None
    }
}

/// Why a decoded frame is no 8-bit RGBA image, checked in this order; none
/// where it is one.
pub open spec fn frame_error(
    width: u32,
    height: u32,
    color_type: u8,
    bit_depth: u8,
    line_size: usize,
    data_len: nat,
) -> Option<LoadError> {
    if header_error(width, color_type, bit_depth, line_size) is Some {
        header_error(width, color_type, bit_depth, line_size)
    } else if data_len != line_size * height {
        Some(LoadError::DataSize)
    } else {
        None
    }
}

/// Checks a header the way `header_error` does.
fn check_header(width: u32, color_type: u8, bit_depth: u8, line_size: usize) -> (r: Option<
    LoadError,
>)
    ensures
        r == header_error(width, color_type, bit_depth, line_size),
{
    if color_type != COLOR_TYPE_RGBA {
        return Some(LoadError::NotRgba(color_type));
    }
    if bit_depth != 8 {
        return Some(LoadError::NotEightBit(bit_depth));
    }
    let w = width as usize;
    if w > usize::MAX / 4 || 4 * w != line_size {
        return Some(LoadError::LineSize);
    }
    None
}

pub proof fn lemma_index_in_grid(x: int, y: int, w: int, h: int)
    requires
        0 <= x < w,
        0 <= y < h,
    ensures
        0 <= y * w + x < w * h,
{
    assert(0 <= y * w + x < w * h) by (nonlinear_arith)
        requires
            0 <= x < w,
            0 <= y < h,
    ;
}

impl RgbaImage {
    pub open spec fn wf(&self) -> bool {
        self.data@.len() == self.width * self.height
    }

    /// All colours, row by row.
    pub open spec fn pixels(&self) -> Seq<Rgba> {
        self.data@
    }

    /// The colour at column `x` of row `y`.
    pub open spec fn pixel(&self, x: int, y: int) -> Rgba {
        self.pixels()[y * self.width + x]
    }

    /// The image of `width` by `height` that holds `data` row by row; none
    /// where `data` does not hold `width * height` colours.
    pub fn from_pixels(width: usize, height: usize, data: Vec<Rgba>) -> (r: Option<RgbaImage>)
        ensures
            r is Some <==> data@.len() == width * height,
            r matches Some(img) ==> img.wf() && img.width == width && img.height == height
                && img.pixels() == data@,
    {
        let len = data.len();
        match width.checked_mul(height) {
            Some(n) => {
                if len == n {
                    Some(RgbaImage { width, height, data })
                } else {
                    None
                }
            },
            None => {
                proof {
                    assert(width * height >= data@.len()) by (nonlinear_arith)
                        requires
                            width * height > usize::MAX,
                            data@.len() == len,
                    ;
                }
                None
            },
        }
    }

    pub fn get(&self, at: (usize, usize)) -> (c: Rgba)
        requires
            self.wf(),
            at.0 < self.width,
            at.1 < self.height,
        ensures
            c == self.pixel(at.0 as int, at.1 as int),
    {
        let (x, y) = at;
        let len = self.data.len();
        proof {
            lemma_index_in_grid(x as int, y as int, self.width as int, self.height as int);
            assert(y * self.width <= y * self.width + x);
        }
        self.data[y * self.width + x]
    }
}

fn bytes_to_rgba(bytes: &Vec<u8>) -> (v: Vec<Rgba>)
    requires
        bytes@.len() % 4 == 0,
    ensures
        v@ == rgba_of_bytes(bytes@),
{
    let len = bytes.len();
    let n = len / 4;
    let mut v: Vec<Rgba> = Vec::with_capacity(n);
    let mut i: usize = 0;
    while i < n
        invariant
            len == bytes@.len(),
            n == len / 4,
            i <= n,
            v@ =~= rgba_of_bytes(bytes@).take(i as int),
        decreases n - i,
    {
        proof {
            assert(4 * i + 3 < len) by (nonlinear_arith)
                requires
                    i < n,
                    n == len / 4,
            ;
        }
        let c = Rgba::from_u8s(bytes[4 * i], bytes[4 * i + 1], bytes[4 * i + 2], bytes[4 * i + 3]);
        v.push(c);
        i = i + 1;
    }
    assert(rgba_of_bytes(bytes@).take(n as int) =~= rgba_of_bytes(bytes@));
    v
}

/// Checks that a decoded frame is an 8-bit RGBA image and reads its colours.
pub fn image_from_frame(frame: &PngFrame) -> (r: Result<RgbaImage, LoadError>)
    ensures
        match frame_error(
            frame.width,
            frame.height,
            frame.color_type,
            frame.bit_depth,
            frame.line_size,
            frame.data@.len(),
        ) {
            Some(e) => r == Err::<RgbaImage, LoadError>(e),
            None => r matches Ok(img) && img.wf() && img.width == frame.width && img.height
                == frame.height && img.pixels() == rgba_of_bytes(frame.data@),
        },
{
    match check_header(frame.width, frame.color_type, frame.bit_depth, frame.line_size) {
        Some(e) => {
            return Err(e);
        },
        None => {},
    }
    let width = frame.width as usize;
    let height = frame.height as usize;
    let len = frame.data.len();
    match frame.line_size.checked_mul(height) {
        Some(n) => {
            if frame.data.len() != n {
                return Err(LoadError::DataSize);
            }
        },
        None => {
            proof {
                assert(frame.data@.len() != frame.line_size * height);
            }
            return Err(LoadError::DataSize);
        },
    }
    proof {
        assert(frame.data@.len() == 4 * (width * height)) by (nonlinear_arith)
            requires
                frame.data@.len() == frame.line_size * height,
                frame.line_size == 4 * width,
        ;
        assert(frame.data@.len() % 4 == 0);
    }
    let data = bytes_to_rgba(&frame.data);
    proof {
        assert(frame.data@.len() / 4 == width * height) by (nonlinear_arith)
            requires
                frame.data@.len() == frame.line_size * height,
                frame.line_size == 4 * width,
        ;
    }
    Ok(RgbaImage { width, height, data })
}

/// Decodes a PNG stream into an image; only 8-bit RGBA images are taken.
/// The header is checked before the frame is decoded.
pub fn load_png(png: &[u8]) -> (r: Result<RgbaImage, LoadError>)
    ensures
        match png_header(png@) {
            None => r == Err::<RgbaImage, LoadError>(LoadError::Decode),
            Some((w, h, ct, bd, ls)) => match header_error(w, ct, bd, ls) {
                Some(e) => r == Err::<RgbaImage, LoadError>(e),
                None => match png_frame(png@) {
                    None => r == Err::<RgbaImage, LoadError>(LoadError::Decode),
                    Some(data) => if data.len() != ls * h {
                        r == Err::<RgbaImage, LoadError>(LoadError::DataSize)
                    } else {
                        r matches Ok(img) && img.wf() && img.width == w && img.height == h
                            && img.pixels() == rgba_of_bytes(data)
                    },
                },
            },
        },
{
    let header = match read_png_header(png) {
        Ok(h) => h,
        Err(_) => {
            return Err(LoadError::Decode);
        },
    };
    match check_header(header.width, header.color_type, header.bit_depth, header.line_size) {
        Some(e) => {
            return Err(e);
        },
        None => {},
    }
    let data = match read_png_frame(png) {
        Ok(d) => d,
        Err(_) => {
            return Err(LoadError::Decode);
        },
    };
    let frame = PngFrame {
        width: header.width,
        height: header.height,
        color_type: header.color_type,
        bit_depth: header.bit_depth,
        line_size: header.line_size,
        data,
    };
    image_from_frame(&frame)
}

} // verus!
