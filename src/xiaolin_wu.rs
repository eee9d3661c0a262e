use vstd::prelude::*;

verus! {

/// One pixel of a line and the share of it that the line covers,
/// `num / den` (0 to 1).
#[derive(Copy, Clone, PartialEq, Eq, Structural, Debug)]
pub struct Sample {
    pub x: u64,
    pub y: u64,
    pub num: u64,
    pub den: u64,
}

/// A point whose coordinates are counted in units of `1 / scale` pixels.
pub type Point = (u32, u32);

pub open spec fn abs_diff(a: u32, b: u32) -> int {
    if a >= b {
        a - b
    } else {
        b - a
    }
}

/// A line is steep when it rises more than it runs.
pub open spec fn steep_of(start: Point, end: Point) -> bool {
    abs_diff(end.1, start.1) > abs_diff(end.0, start.0)
}

pub open spec fn orient(p: Point, steep: bool) -> Point {
    if steep {
        (p.1, p.0)
    } else {
        p
    }
}

/// The two end points in the frame where the line is walked: transposed
/// when steep, and ordered by increasing first coordinate.
pub open spec fn ends(start: Point, end: Point) -> (Point, Point) {
    let a = orient(start, steep_of(start, end));
    let b = orient(end, steep_of(start, end));
    if a.0 > b.0 {
        (b, a)
    } else {
        (a, b)
    }
}

/// The gradient as a fraction `(numerator, denominator)`: 1 where the line
/// does not run at all.
pub open spec fn grad(a: Point, b: Point) -> (int, int) {
    if a.0 == b.0 {
        (1, 1)
    } else {
        (b.1 - a.1, b.0 - a.0)
    }
}

/// `v / scale` rounded to the nearest integer, halves away from zero.
pub open spec fn round_div(v: int, scale: int) -> int {
    (2 * v + scale) / (2 * scale)
}

pub open spec fn sample_at(steep: bool, x: int, y: int, num: int, den: int) -> Sample {
    if steep {
        Sample { x: y as u64, y: x as u64, num: num as u64, den: den as u64 }
    } else {
        Sample { x: x as u64, y: y as u64, num: num as u64, den: den as u64 }
    }
}

/// The samples of the column `x` where the line stands at height `y / den`:
/// the pixel of its whole part (rounded down), covered by one minus the
/// fraction, then, unless the fraction is zero, the pixel below, covered by
/// the fraction. Where the line runs just above the top row (its height
/// between -1 and 0), the pixel above the top row is left out.
pub open spec fn step_samples(steep: bool, x: int, y: int, den: int) -> Seq<Sample> {
    let upper = if y / den >= 0 {
        seq![sample_at(steep, x, y / den, den - y % den, den)]
    } else {
        Seq::empty()
    };
    let lower = if y % den > 0 {
        seq![sample_at(steep, x, y / den + 1, y % den, den)]
    } else {
        Seq::empty()
    };
    upper + lower
}

/// The samples of the columns `x` to `end_x`, the height rising by
/// `step / den` from one to the next.
pub open spec fn run(steep: bool, x: int, end_x: int, y: int, step: int, den: int) -> Seq<Sample>
    decreases end_x + 1 - x,
{
    if x > end_x {
        Seq::empty()
    } else {
        step_samples(steep, x, y, den) + run(steep, x + 1, end_x, y + step, step, den)
    }
}

/// The samples of Xiaolin Wu's line from `start` to `end`, coordinates in
/// units of `1 / scale`.
pub open spec fn line_samples(start: Point, end: Point, scale: u32) -> Seq<Sample> {
    let (a, b) = ends(start, end);
    let (gn, gd) = grad(a, b);
    run(
        steep_of(start, end),
        round_div(a.0 as int, scale as int),
        round_div(b.0 as int, scale as int),
        a.1 * gd,
        scale * gn,
        scale * gd,
    )
}

/// Walks a line from left to right (top to bottom when steep), one sample
/// at a time.
pub struct XiaolinWu {
    steep: bool,
    x: u64,
    end_x: u64,
    y: i128,
    step: i128,
    den: u64,
    lower: bool,
}

/// A bound on the line's height numerator, far above any that a line reaches.
const HEIGHT_BOUND: i128 = 0x100_0000_0000_0000_0000_0000_0000_0000;

impl XiaolinWu {
    pub closed spec fn wf(self) -> bool {
        &&& 1 <= self.den
        &&& -0x1_0000_0000_0000_0000 <= self.step <= 0x1_0000_0000_0000_0000
        &&& self.end_x <= 0x1_0000_0000_0000
        &&& self.x <= self.end_x + 1
        &&& self.x <= self.end_x ==> {
            &&& -self.den < self.y <= HEIGHT_BOUND
            &&& -self.den < self.y + (self.end_x - self.x) * self.step <= HEIGHT_BOUND
        }
        &&& self.lower ==> self.x <= self.end_x && self.y >= 0 && (self.y as int) % (
        self.den as int) > 0
    }

    /// The samples still to come.
    pub closed spec fn rest(self) -> Seq<Sample> {
        if self.lower {
            seq![
                sample_at(
                    self.steep,
                    self.x as int,
                    (self.y as int) / (self.den as int) + 1,
                    (self.y as int) % (self.den as int),
                    self.den as int,
                ),
            ] + run(
                self.steep,
                self.x + 1,
                self.end_x as int,
                self.y + self.step,
                self.step as int,
                self.den as int,
            )
        } else {
            run(
                self.steep,
                self.x as int,
                self.end_x as int,
                self.y as int,
                self.step as int,
                self.den as int,
            )
        }
    }

    pub fn new(start: Point, end: Point, scale: u32) -> (w: XiaolinWu)
        requires
            scale > 0,
        ensures
            w.wf(),
            w.rest() == line_samples(start, end, scale),
    {
        let dx0: u32 = if end.0 >= start.0 { end.0 - start.0 } else { start.0 - end.0 };
        let dy0: u32 = if end.1 >= start.1 { end.1 - start.1 } else { start.1 - end.1 };
        let steep = dy0 > dx0;
        let (mut a, mut b) = if steep {
            ((start.1, start.0), (end.1, end.0))
        } else {
            (start, end)
        };
        if a.0 > b.0 {
            let t = a;
            a = b;
            b = t;
        }
        proof {
            assert((a, b) == ends(start, end));
        }
        let dx: u32 = b.0 - a.0;
        let (gn, gd): (i128, u64) = if dx == 0 {
            (1, 1)
        } else {
            (b.1 as i128 - a.1 as i128, dx as u64)
        };
        let x = round_div_exec(a.0, scale);
        let end_x = round_div_exec(b.0, scale);
        proof {
            assert(0 <= a.1 * gd <= 0x1_0000_0000_0000_0000) by (nonlinear_arith)
                requires
                    gd <= 0x1_0000_0000,
                    a.1 <= 0xffff_ffff,
            ;
            assert(-0x1_0000_0000_0000_0000 <= scale * gn <= 0x1_0000_0000_0000_0000)
                by (nonlinear_arith)
                requires
                    -0x1_0000_0000 <= gn <= 0x1_0000_0000,
                    scale <= 0xffff_ffff,
            ;
            assert(scale * gd <= 0xffff_ffff * 0x1_0000_0000) by (nonlinear_arith)
                requires
                    gd <= 0x1_0000_0000,
                    scale <= 0xffff_ffff,
            ;
        }
        let y: i128 = a.1 as i128 * gd as i128;
        let step: i128 = scale as i128 * gn;
        let den: u64 = scale as u64 * gd;
        proof {
            assert(x <= end_x) by (nonlinear_arith)
                requires
                    x == (2 * a.0 + scale) / (2 * scale as int),
                    end_x == (2 * b.0 + scale) / (2 * scale as int),
                    a.0 <= b.0,
                    scale > 0,
            ;
            let m = end_x - x;
            assert(m * step <= 0x1_0000_0001 * 0x1_0000_0000_0000_0000
                && m * step >= -(0x1_0000_0001 * 0x1_0000_0000_0000_0000)) by (nonlinear_arith)
                requires
                    0 <= m <= 0x1_0000_0001,
                    -0x1_0000_0000_0000_0000 <= step <= 0x1_0000_0000_0000_0000,
            ;
            assert(grad(a, b) == (gn as int, gd as int));
            assert(-(gd as int) <= gn <= gd);
            assert(den >= 1) by (nonlinear_arith)
                requires
                    den == scale * gd,
                    scale >= 1,
                    gd >= 1,
            ;
            lemma_last_height(
                a.0 as int,
                b.0 as int,
                a.1 as int,
                b.1 as int,
                scale as int,
                gn as int,
                gd as int,
                x as int,
                end_x as int,
            );
            assert(y + m * step > -(den as int));
            assert(y + m * step <= HEIGHT_BOUND);
        }
        XiaolinWu { steep, x, end_x, y, step, den, lower: false }
    }

    pub fn next(&mut self) -> (r: Option<Sample>)
        requires
            old(self).wf(),
        ensures
            final(self).wf(),
            old(self).rest().len() == 0 ==> r is None && final(self).rest() == old(self).rest(),
            old(self).rest().len() > 0 ==> r == Some(old(self).rest()[0]) && final(self).rest()
                == old(self).rest().drop_first(),
    {
        proof {
            reveal_with_fuel(run, 2);
        }
        if self.x > self.end_x {
            return None;
        }
        let den: u128 = self.den as u128;
        let old_x = self.x;
        let old_y = self.y;
        if self.y < 0 {
            // Just above the top row: only the part in row 0 is handed out.
            let f: u128 = (self.y + self.den as i128) as u128;
            proof {
                let (yv, dv) = (old_y as int, den as int);
                assert(yv / dv == -1 && yv % dv == yv + dv) by (nonlinear_arith)
                    requires
                        -dv < yv < 0,
                ;
                assert(old_y as int % den as int == f as int);
            }
            self.advance();
            let s = sample_exec(self.steep, old_x, 0, f, den);
            proof {
                assert(final(self).rest() =~= old(self).rest().drop_first());
            }
            return Some(s);
        }
        let yu: u128 = self.y as u128;
        let f: u128 = yu % den;
        let yi: u128 = yu / den;
        proof {
            assert(yi <= yu) by (nonlinear_arith)
                requires
                    yi == yu / den,
                    den >= 1,
            ;
            assert(f < den);
        }
        let s = if self.lower {
            self.lower = false;
            self.advance();
            sample_exec(self.steep, old_x, yi + 1, f, den)
        } else {
            let s = sample_exec(self.steep, old_x, yi, den - f, den);
            if f > 0 {
                self.lower = true;
            } else {
                self.advance();
            }
            s
        };
        proof {
            assert(old_y as int / den as int == yi as int);
            assert(old_y as int % den as int == f as int);
            assert(final(self).rest() =~= old(self).rest().drop_first());
        }
        Some(s)
    }

    /// Moves to the next column.
    fn advance(&mut self)
        requires
            old(self).wf(),
            old(self).x <= old(self).end_x,
            !old(self).lower,
        ensures
            final(self).wf(),
            final(self).x == old(self).x + 1,
            final(self).y == old(self).y + old(self).step,
            final(self).steep == old(self).steep,
            final(self).end_x == old(self).end_x,
            final(self).step == old(self).step,
            final(self).den == old(self).den,
            !final(self).lower,
    {
        let m: i128 = (self.end_x - self.x) as i128;
        proof {
            let y = self.y as int;
            let st = self.step as int;
            let d = self.den as int;
            assert(m >= 1 ==> {
                &&& -d < y + st <= HEIGHT_BOUND
                &&& y + st + (m - 1) * st == y + m * st
            }) by (nonlinear_arith)
                requires
                    -d < y <= HEIGHT_BOUND,
                    -d < y + m * st <= HEIGHT_BOUND,
            ;
        }
        self.x = self.x + 1;
        self.y = self.y + self.step;
    }
}

/// All samples of Xiaolin Wu's line from `start` to `end`, coordinates in
/// units of `1 / scale`, in the order in which the line is walked.
pub fn xiaolin_wu(start: Point, end: Point, scale: u32) -> (v: Vec<Sample>)
    requires
        scale > 0,
    ensures
        v@ == line_samples(start, end, scale),
{
    let mut w = XiaolinWu::new(start, end, scale);
    let mut v: Vec<Sample> = Vec::new();
    loop
        invariant
            w.wf(),
            v@ + w.rest() == line_samples(start, end, scale),
        ensures
            v@ == line_samples(start, end, scale),
        decreases w.rest().len(),
    {
        let ghost before = w.rest();
        match w.next() {
            Some(s) => {
                v.push(s);
                assert(v@ + w.rest() =~= line_samples(start, end, scale)) by {
                    assert(before =~= seq![s] + w.rest());
                }
            },
            None => {
                assert(v@ =~= line_samples(start, end, scale));
                break ;
            },
        }
    }
    v
}

/// The line from `a` to `b` and the line from `b` to `a` are walked in the
/// same direction, and give the same samples.
pub proof fn lemma_line_symmetric(a: Point, b: Point, scale: u32)
    ensures
        line_samples(a, b, scale) == line_samples(b, a, scale),
{
    assert(steep_of(a, b) == steep_of(b, a));
    assert(ends(a, b) == ends(b, a));
}

proof fn lemma_run_coverage(steep: bool, x: int, end_x: int, y: int, step: int, den: int)
    requires
        1 <= den <= u64::MAX,
    ensures
        forall|i: int|
            0 <= i < run(steep, x, end_x, y, step, den).len() ==> 0 < (#[trigger] run(
                steep,
                x,
                end_x,
                y,
                step,
                den,
            )[i]).num <= run(steep, x, end_x, y, step, den)[i].den,
    decreases end_x + 1 - x,
{
    if x <= end_x {
        lemma_run_coverage(steep, x + 1, end_x, y + step, step, den);
        let head = step_samples(steep, x, y, den);
        let tail = run(steep, x + 1, end_x, y + step, step, den);
        assert(0 <= y % den < den);
        assert forall|i: int| 0 <= i < head.len() implies 0 < (#[trigger] head[i]).num
            <= head[i].den by {}
        assert(run(steep, x, end_x, y, step, den) == head + tail);
        assert forall|i: int| 0 <= i < (head + tail).len() implies 0 < (#[trigger] (head
            + tail)[i]).num <= (head + tail)[i].den by {
            if i >= head.len() {
                assert((head + tail)[i] == tail[i - head.len()]);
            }
        }
    }
}

/// Every sample of a line covers its pixel by more than nothing and at
/// most wholly: `0 < num <= den`.
pub proof fn lemma_coverage_in_range(start: Point, end: Point, scale: u32)
    requires
        scale > 0,
    ensures
        forall|i: int|
            0 <= i < line_samples(start, end, scale).len() ==> 0 < (#[trigger] line_samples(
                start,
                end,
                scale,
            )[i]).num <= line_samples(start, end, scale)[i].den,
{
    let (a, b) = ends(start, end);
    let (gn, gd) = grad(a, b);
    assert(1 <= gd <= 0xffff_ffff);
    assert(1 <= scale * gd <= u64::MAX) by (nonlinear_arith)
        requires
            1 <= gd <= 0xffff_ffff,
            1 <= scale <= 0xffff_ffff,
    ;
    lemma_run_coverage(
        steep_of(start, end),
        round_div(a.0 as int, scale as int),
        round_div(b.0 as int, scale as int),
        a.1 * gd,
        scale * gn,
        scale * gd,
    );
}

/// The walk's height at its last column lies above -1: it overshoots the
/// far end point by less than one column, and a column lowers the height by
/// at most one.
proof fn lemma_last_height(
    ax: int,
    bx: int,
    ay: int,
    by: int,
    s: int,
    gn: int,
    gd: int,
    x: int,
    end_x: int,
)
    requires
        0 <= ax <= bx,
        0 <= ay,
        0 <= by,
        s >= 1,
        gd >= 1,
        -gd <= gn <= gd,
        ax == bx ==> gn == 1 && gd == 1,
        ax != bx ==> gn == by - ay && gd == bx - ax,
        x == (2 * ax + s) / (2 * s),
        end_x == (2 * bx + s) / (2 * s),
        x <= end_x,
    ensures
        ay * gd + (end_x - x) * (s * gn) > -(s * gd),
{
    assert(2 * s * x > 2 * ax - s) by (nonlinear_arith)
        requires
            x == (2 * ax + s) / (2 * s),
            s >= 1,
    ;
    assert(2 * s * end_x <= 2 * bx + s) by (nonlinear_arith)
        requires
            end_x == (2 * bx + s) / (2 * s),
            s >= 1,
    ;
    let n = end_x - x;
    assert(s * n < bx - ax + s) by (nonlinear_arith)
        requires
            2 * s * x > 2 * ax - s,
            2 * s * end_x <= 2 * bx + s,
            n == end_x - x,
    ;
    assert(ay * gd >= 0) by (nonlinear_arith)
        requires
            ay >= 0,
            gd >= 1,
    ;
    if gn >= 0 {
        assert(n * (s * gn) >= 0) by (nonlinear_arith)
            requires
                n >= 0,
                s >= 1,
                gn >= 0,
        ;
        assert(s * gd > 0) by (nonlinear_arith)
            requires
                s >= 1,
                gd >= 1,
        ;
    } else {
        assert(ax != bx);
        assert(s * n <= gd + s - 1);
        assert(n * (s * gn) >= (gd + s - 1) * gn) by (nonlinear_arith)
            requires
                s * n <= gd + s - 1,
                gn < 0,
        ;
        assert(ay * gd + gd * gn == gd * by) by (nonlinear_arith)
            requires
                gn == by - ay,
        ;
        assert(gd * by >= 0) by (nonlinear_arith)
            requires
                gd >= 1,
                by >= 0,
        ;
        assert((s - 1) * gn >= -((s - 1) * gd)) by (nonlinear_arith)
            requires
                s >= 1,
                -gd <= gn,
        ;
        assert(-((s - 1) * gd) > -(s * gd)) by (nonlinear_arith)
            requires
                gd >= 1,
        ;
        assert((gd + s - 1) * gn == gd * gn + (s - 1) * gn) by (nonlinear_arith);
    }
}

fn round_div_exec(v: u32, scale: u32) -> (r: u64)
    requires
        scale > 0,
    ensures
        r == round_div(v as int, scale as int),
        r <= 0x1_0000_0000,
{
    let q = (2 * v as u64 + scale as u64) / (2 * scale as u64);
    proof {
        assert(q <= 0x1_0000_0000) by (nonlinear_arith)
            requires
                q == (2 * v as int + scale) / (2 * scale as int),
                scale >= 1,
                v <= 0xffff_ffff,
        ;
    }
    q
}

fn sample_exec(steep: bool, x: u64, y: u128, num: u128, den: u128) -> (s: Sample)
    ensures
        s == sample_at(steep, x as int, y as int, num as int, den as int),
{
    if steep {
        Sample { x: y as u64, y: x, num: num as u64, den: den as u64 }
    } else {
        Sample { x, y: y as u64, num: num as u64, den: den as u64 }
    }
}

} // verus!
