use nart::rgba::{one_minus_a, Rgba};

#[test]
fn packed_round_trip_keeps_channels() {
    for &(r, g, b, a) in &[(0u8, 0u8, 0u8, 0u8), (1, 2, 3, 4), (255, 255, 255, 255), (12, 200, 7, 128)] {
        let c = Rgba::from_u8s(r, g, b, a);
        let back = Rgba::from_packed(c.packed());
        assert_eq!(back, c);
        assert_eq!((back.r(), back.g(), back.b(), back.a()), (r, g, b, a));
    }
}

#[test]
fn channels_sit_at_byte_offsets() {
    let c = Rgba::from_u8s(0x11, 0x22, 0x33, 0x44);
    assert_eq!(c.packed(), 0x4433_2211);
    assert_eq!(Rgba::from_packed(0x4433_2211).g(), 0x22);
}

#[test]
fn grey_and_black() {
    let g = Rgba::grey(9, 77);
    assert_eq!((g.r(), g.g(), g.b(), g.a()), (9, 9, 9, 77));
    let k = Rgba::black();
    assert_eq!((k.r(), k.g(), k.b(), k.a()), (0, 0, 0, 255));
    assert_eq!(k.packed(), 0xff00_0000);
}

#[test]
fn one_minus_a_halves_at_half_alpha() {
    assert_eq!(one_minus_a(128, 64), 32);
}

#[test]
fn one_minus_a_rounds_down() {
    assert_eq!(one_minus_a(255, 255), 0);
    assert_eq!(one_minus_a(0, 255), 255);
    assert_eq!(one_minus_a(1, 100), 99);
}

#[test]
fn opaque_red_over_blue() {
    let dst = Rgba::from_u8s(0, 0, 255, 255);
    let src = Rgba::from_u8s(255, 0, 0, 255);
    let out = dst.blend_one_minus_src(&src);
    assert_eq!((out.r(), out.g(), out.b(), out.a()), (255, 0, 0, 255));
}

#[test]
fn blend_keeps_destination_alpha() {
    let dst = Rgba::from_u8s(100, 100, 100, 10);
    let src = Rgba::from_u8s(20, 30, 40, 128);
    let out = dst.blend_one_minus_src(&src);
    assert_eq!((out.r(), out.g(), out.b(), out.a()), (70, 80, 90, 10));
}

#[test]
fn blend_with_zero_alpha_adds_and_wraps() {
    let dst = Rgba::from_u8s(200, 10, 0, 255);
    let src = Rgba::from_u8s(100, 5, 0, 0);
    let out = dst.blend_one_minus_src(&src);
    assert_eq!((out.r(), out.g(), out.b(), out.a()), (44, 15, 0, 255));
}
