use nart::img::{image_from_frame, load_png, LoadError, PngFrame, RgbaImage};
use nart::rgba::Rgba;

fn frame(width: u32, height: u32, color_type: u8, bit_depth: u8, line_size: usize, data: Vec<u8>) -> PngFrame {
    PngFrame { width, height, color_type, bit_depth, line_size, data }
}

#[test]
fn image_get_reads_row_major() {
    let px: Vec<Rgba> = (0..6u8).map(|i| Rgba::grey(i, 255)).collect();
    let img = RgbaImage::from_pixels(3, 2, px).unwrap();
    assert_eq!(img.get((2, 1)).r(), 5);
    assert_eq!(img.get((0, 1)).r(), 3);
}

#[test]
fn from_pixels_checks_length() {
    assert!(RgbaImage::from_pixels(2, 2, vec![Rgba::black(); 3]).is_none());
    assert!(RgbaImage::from_pixels(usize::MAX, 2, vec![]).is_none());
    assert!(RgbaImage::from_pixels(0, 5, vec![]).is_some());
}

#[test]
fn frame_becomes_image() {
    let f = frame(2, 1, 6, 8, 8, vec![1, 2, 3, 4, 5, 6, 7, 8]);
    let img = image_from_frame(&f).unwrap();
    assert_eq!((img.width, img.height), (2, 1));
    assert_eq!(img.get((0, 0)), Rgba::from_u8s(1, 2, 3, 4));
    assert_eq!(img.get((1, 0)).packed(), 0x0807_0605);
}

#[test]
fn frame_errors() {
    assert_eq!(image_from_frame(&frame(1, 1, 2, 8, 3, vec![0; 3])).err(), Some(LoadError::NotRgba(2)));
    assert_eq!(image_from_frame(&frame(1, 1, 6, 16, 8, vec![0; 8])).err(), Some(LoadError::NotEightBit(16)));
    assert_eq!(image_from_frame(&frame(2, 1, 6, 8, 7, vec![0; 7])).err(), Some(LoadError::LineSize));
    assert_eq!(image_from_frame(&frame(1, 2, 6, 8, 4, vec![0; 4])).err(), Some(LoadError::DataSize));
}

#[test]
fn garbage_is_not_a_png() {
    assert_eq!(load_png(&[1, 2, 3]).err(), Some(LoadError::Decode));
}

fn encode(width: u32, height: u32, color: png::ColorType, data: &[u8]) -> Vec<u8> {
    let mut out = Vec::new();
    {
        let mut enc = png::Encoder::new(&mut out, width, height);
        enc.set_color(color);
        enc.set_depth(png::BitDepth::Eight);
        let mut writer = enc.write_header().unwrap();
        writer.write_image_data(data).unwrap();
    }
    out
}

#[test]
fn loads_rgba_png() {
    let bytes = encode(2, 1, png::ColorType::RGBA, &[1, 2, 3, 4, 250, 251, 252, 0]);
    let img = load_png(&bytes).unwrap();
    assert_eq!((img.width, img.height), (2, 1));
    assert_eq!(img.get((0, 0)), Rgba::from_u8s(1, 2, 3, 4));
    assert_eq!(img.get((1, 0)), Rgba::from_u8s(250, 251, 252, 0));
}

#[test]
fn refuses_rgb_png() {
    let bytes = encode(1, 1, png::ColorType::RGB, &[1, 2, 3]);
    assert_eq!(load_png(&bytes).err(), Some(LoadError::NotRgba(2)));
}

fn chunk(kind: &[u8; 4], body: &[u8]) -> Vec<u8> {
    let mut out = (body.len() as u32).to_be_bytes().to_vec();
    out.extend_from_slice(kind);
    out.extend_from_slice(body);
    let mut crc = crc32(kind);
    crc = crc32_more(crc, body);
    out.extend_from_slice(&crc.to_be_bytes());
    out
}

fn crc32(b: &[u8]) -> u32 {
    crc32_more(0, b)
}

fn crc32_more(prev: u32, b: &[u8]) -> u32 {
    let mut c = !prev;
    for &x in b {
        c ^= x as u32;
        for _ in 0..8 {
            c = if c & 1 != 0 { 0xedb8_8320 ^ (c >> 1) } else { c >> 1 };
        }
    }
    !c
}

#[test]
fn refuses_one_bit_rgba_before_decoding_the_frame() {
    // An interlaced RGBA header at one bit a sample, which the decoder lets
    // through: the row size gives it away before any frame is read.
    let mut ihdr = Vec::new();
    ihdr.extend_from_slice(&8u32.to_be_bytes());
    ihdr.extend_from_slice(&8u32.to_be_bytes());
    ihdr.extend_from_slice(&[1, 6, 0, 0, 1]);
    let mut bytes = vec![0x89, b'P', b'N', b'G', 0x0d, 0x0a, 0x1a, 0x0a];
    bytes.extend(chunk(b"IHDR", &ihdr));
    bytes.extend(chunk(b"IDAT", &[0x78, 0x9c, 0x03, 0x00, 0x00, 0x00, 0x00, 0x01]));
    bytes.extend(chunk(b"IEND", &[]));
    assert_eq!(load_png(&bytes).err(), Some(LoadError::LineSize));
}
