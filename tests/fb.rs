use nart::fb::{Buffer, ConfigError, DrawError, GlyphMask, Nart, NartOptions};
use nart::img::RgbaImage;
use nart::rgba::Rgba;

fn channels(c: Rgba) -> (u8, u8, u8, u8) {
    (c.r(), c.g(), c.b(), c.a())
}

fn white(w: usize, h: usize) -> Buffer {
    let mut b = Buffer::new(w, h);
    for y in 0..h {
        for x in 0..w {
            b.set((x, y), Rgba::from_u8s(255, 255, 255, 255));
        }
    }
    b
}

#[test]
fn new_buffer_is_black() {
    let b = Buffer::new(3, 2);
    assert_eq!(b.inner.len(), 6);
    assert!(b.inner.iter().all(|&c| c == Rgba::black()));
}

#[test]
fn set_then_get() {
    let mut b = Buffer::new(4, 3);
    let c = Rgba::from_u8s(1, 2, 3, 4);
    b.set((2, 1), c);
    assert_eq!(b.get((2, 1)), c);
    assert_eq!(b.inner[1 * 4 + 2], c);
    assert_eq!(b.get((1, 2)), Rgba::black());
    *b.get_mut((0, 0)) = c;
    assert_eq!(b.get((0, 0)), c);
}

#[test]
fn transparent_blit_changes_nothing() {
    let mut b = Buffer::new(4, 4);
    b.set((1, 1), Rgba::from_u8s(10, 20, 30, 255));
    let before = b.inner.clone();
    let image = RgbaImage::from_pixels(2, 2, vec![Rgba::from_u8s(200, 100, 50, 0); 4]).unwrap();
    b.image_one_minus_src(&image, (1, 1));
    assert_eq!(b.inner, before);
}

#[test]
fn opaque_blit_writes_source() {
    let mut b = white(3, 3);
    let red = Rgba::from_u8s(255, 0, 0, 255);
    let clear = Rgba::from_u8s(0, 255, 0, 0);
    let image = RgbaImage::from_pixels(2, 1, vec![red, clear]).unwrap();
    b.image_one_minus_src(&image, (1, 2));
    assert_eq!(channels(b.get((1, 2))), (255, 0, 0, 255));
    assert_eq!(channels(b.get((2, 2))), (255, 255, 255, 255));
    assert_eq!(channels(b.get((0, 2))), (255, 255, 255, 255));
}

#[test]
fn half_alpha_blit_blends() {
    let mut b = Buffer::new(1, 1);
    b.set((0, 0), Rgba::from_u8s(100, 100, 100, 255));
    let image = RgbaImage::from_pixels(1, 1, vec![Rgba::from_u8s(20, 30, 40, 128)]).unwrap();
    b.image_one_minus_src(&image, (0, 0));
    assert_eq!(channels(b.get((0, 0))), (70, 80, 90, 255));
}

#[test]
fn draw_line_paints_coverage_as_alpha() {
    let mut b = white(8, 5);
    b.draw_line((0, 0), (6, 3));
    assert_eq!(channels(b.get((0, 0))), (0, 0, 0, 255));
    assert_eq!(channels(b.get((1, 0))), (0, 0, 0, 128));
    assert_eq!(channels(b.get((1, 1))), (0, 0, 0, 128));
    assert_eq!(channels(b.get((6, 3))), (0, 0, 0, 255));
    assert_eq!(channels(b.get((7, 4))), (255, 255, 255, 255));
    assert_eq!(channels(b.get((2, 0))), (255, 255, 255, 255));
}

#[test]
fn draw_line_skips_pixels_outside() {
    let mut b = white(3, 3);
    b.draw_line((1, 1), (5, 1));
    assert_eq!(channels(b.get((1, 1))), (0, 0, 0, 255));
    assert_eq!(channels(b.get((2, 1))), (0, 0, 0, 255));
    assert_eq!(channels(b.get((0, 1))), (255, 255, 255, 255));
}

fn glyph(min_x: i32, min_y: i32, width: usize, covered: Vec<bool>) -> GlyphMask {
    let height = covered.len() / width;
    GlyphMask { min_x, min_y, width, height, covered }
}

#[test]
fn draw_text_stamps_covered_pixels_black() {
    let mut b = white(6, 4);
    let glyphs = vec![
        Some(glyph(0, 1, 2, vec![true, false, false, true])),
        None,
        Some(glyph(3, 0, 1, vec![true])),
    ];
    assert_eq!(b.draw_text(&glyphs, (1, 0)), Ok(()));
    assert_eq!(channels(b.get((1, 1))), (0, 0, 0, 255));
    assert_eq!(channels(b.get((2, 1))), (255, 255, 255, 255));
    assert_eq!(channels(b.get((1, 2))), (255, 255, 255, 255));
    assert_eq!(channels(b.get((2, 2))), (0, 0, 0, 255));
    assert_eq!(channels(b.get((4, 0))), (0, 0, 0, 255));
    assert_eq!(channels(b.get((0, 0))), (255, 255, 255, 255));
}

#[test]
fn draw_text_refuses_a_negative_offset() {
    let mut b = white(4, 4);
    let before = b.inner.clone();
    let glyphs = vec![Some(glyph(0, 0, 1, vec![true])), Some(glyph(-1, 0, 1, vec![true]))];
    assert_eq!(b.draw_text(&glyphs, (2, 2)), Err(DrawError::NegativeOffset));
    assert_eq!(b.inner, before);
}

fn options(frame_cap: usize) -> NartOptions {
    NartOptions { name: "t".to_string(), width: 4, height: 3, resize: false, frame_cap }
}

#[test]
fn default_options() {
    let o = NartOptions::default();
    assert_eq!(o.name, "nart");
    assert_eq!((o.width, o.height, o.resize, o.frame_cap), (640, 480, false, 60));
}

#[test]
fn frame_cap_gives_interval() {
    let n = Nart::new(&options(60)).unwrap();
    assert_eq!(n.frame_ms, 16);
    assert_eq!(n.last_size, (4, 3));
    assert_eq!(n.buffer.inner.len(), 12);
    assert_eq!(Nart::new(&options(1000)).unwrap().frame_ms, 1);
}

#[test]
fn bad_frame_caps_are_refused() {
    assert_eq!(Nart::new(&options(0)).err(), Some(ConfigError::FrameCap));
    assert_eq!(Nart::new(&options(1001)).err(), Some(ConfigError::FrameCap));
}

#[test]
fn same_size_keeps_pixels() {
    let mut n = Nart::new(&options(60)).unwrap();
    let c = Rgba::from_u8s(1, 2, 3, 4);
    n.buffer((4, 3)).set((3, 2), c);
    let b = n.buffer((4, 3));
    assert_eq!(b.get((3, 2)), c);
    assert_eq!((b.width, b.height), (4, 3));
}

#[test]
fn new_size_gives_black_buffer() {
    let mut n = Nart::new(&options(60)).unwrap();
    n.buffer((4, 3)).set((0, 0), Rgba::from_u8s(1, 2, 3, 4));
    let b = n.buffer((5, 2));
    assert_eq!((b.width, b.height, b.inner.len()), (5, 2, 10));
    assert!(b.inner.iter().all(|&c| c == Rgba::black()));
    assert_eq!(n.last_size, (5, 2));
}

#[test]
fn frame_waits_out_the_interval() {
    let n = Nart::new(&options(50)).unwrap();
    assert_eq!(n.frame(0, 5), 15);
    assert_eq!(n.frame(0, 20), 0);
    assert_eq!(n.frame(0, 25), 0);
    assert_eq!(n.frame(1, 5), 0);
}

#[test]
fn update_now_packs_pixels() {
    let mut n = Nart::new(&options(60)).unwrap();
    n.buffer((2, 1)).set((1, 0), Rgba::from_u8s(0x11, 0x22, 0x33, 0x44));
    assert_eq!(n.update_now(), vec![0xff00_0000, 0x4433_2211]);
}
