use nart::xiaolin_wu::{xiaolin_wu, Sample, XiaolinWu};

fn as_pairs(v: &[Sample]) -> Vec<((u64, u64), f32)> {
    v.iter().map(|s| ((s.x, s.y), s.num as f32 / s.den as f32)).collect()
}

fn line(a: (u32, u32), b: (u32, u32)) -> Vec<((u64, u64), f32)> {
    as_pairs(&xiaolin_wu(a, b, 1))
}

#[test]
fn tests() {
    assert_eq!(
        line((0, 0), (6, 3)),
        [
            ((0, 0), 1.0),
            ((1, 0), 0.5),
            ((1, 1), 0.5),
            ((2, 1), 1.0),
            ((3, 1), 0.5),
            ((3, 2), 0.5),
            ((4, 2), 1.0),
            ((5, 2), 0.5),
            ((5, 3), 0.5),
            ((6, 3), 1.0)
        ]
    );

    assert_eq!(
        line((4, 2), (4, 6)),
        [((4, 2), 1.0), ((4, 3), 1.0), ((4, 4), 1.0), ((4, 5), 1.0), ((4, 6), 1.0),]
    );

    assert_eq!(
        line((2, 4), (6, 4)),
        [((2, 4), 1.0), ((3, 4), 1.0), ((4, 4), 1.0), ((5, 4), 1.0), ((6, 4), 1.0),]
    );

    // The end points are reordered to run left to right: (340.5, 290.77)
    // and (110.0, 170.0), in hundredths of a pixel.
    assert_eq!(
        xiaolin_wu((34050, 29077), (11000, 17000), 100),
        xiaolin_wu((11000, 17000), (34050, 29077), 100)
    );
}

#[test]
fn reversed_line_is_the_same() {
    assert_eq!(line((6, 3), (0, 0)), line((0, 0), (6, 3)));
    assert_eq!(line((4, 6), (4, 2)), line((4, 2), (4, 6)));
    assert_eq!(line((9, 1), (2, 5)), line((2, 5), (9, 1)));
}

#[test]
fn single_point_line() {
    assert_eq!(line((3, 7), (3, 7)), [((3, 7), 1.0)]);
}

#[test]
fn steep_line_walks_down() {
    assert_eq!(
        line((0, 0), (1, 2)),
        [((0, 0), 1.0), ((0, 1), 0.5), ((1, 1), 0.5), ((1, 2), 1.0)]
    );
}

#[test]
fn third_gradient_is_exact() {
    let v = xiaolin_wu((0, 0), (3, 1), 1);
    let got: Vec<(u64, u64, u64, u64)> = v.iter().map(|s| (s.x, s.y, s.num, s.den)).collect();
    assert_eq!(
        got,
        [(0, 0, 3, 3), (1, 0, 2, 3), (1, 1, 1, 3), (2, 0, 1, 3), (2, 1, 2, 3), (3, 1, 3, 3)]
    );
}

#[test]
fn fractional_start_rounds_half_up() {
    // From (0.5, 0) to (2.0, 0), in halves of a pixel.
    assert_eq!(as_pairs(&xiaolin_wu((1, 0), (4, 0), 2)), [((1, 0), 1.0), ((2, 0), 1.0)]);
}

#[test]
fn walker_hands_out_the_same_samples() {
    let mut w = XiaolinWu::new((0, 0), (6, 3), 1);
    let mut got = Vec::new();
    while let Some(s) = w.next() {
        got.push(s);
    }
    assert_eq!(got, xiaolin_wu((0, 0), (6, 3), 1));
    assert_eq!(w.next(), None);
}

#[test]
fn line_ending_just_above_the_top_row() {
    // From (0.4, 1.0) to (2.6, 0.0), in tenths of a pixel: the last column
    // stands at height -4/11, so only its part in row 0 is handed out.
    let v = xiaolin_wu((4, 10), (26, 0), 10);
    let got: Vec<(u64, u64, u64, u64)> = v.iter().map(|s| (s.x, s.y, s.num, s.den)).collect();
    assert_eq!(
        got,
        [
            (0, 1, 220, 220),
            (1, 0, 100, 220),
            (1, 1, 120, 220),
            (2, 0, 200, 220),
            (2, 1, 20, 220),
            (3, 0, 140, 220)
        ]
    );
    assert_eq!(xiaolin_wu((26, 0), (4, 10), 10), v);
    assert!(v.iter().all(|s| 0 < s.num && s.num <= s.den));
}
