use vstd::prelude::*;

use crate::img::{lemma_index_in_grid, RgbaImage};
use crate::rgba::{pack, Rgba};
use crate::xiaolin_wu::{line_samples, xiaolin_wu, Point, Sample};

verus! {

/// Opaque black.
pub open spec fn black_spec() -> Rgba {
    Rgba(pack(0, 0, 0, 255))
}

/// A grid of `width` by `height` colours, row by row from the top left.
pub struct Buffer {
    pub width: usize,
    pub height: usize,
    pub inner: Vec<Rgba>,
}

pub proof fn lemma_index_distinct(x: int, y: int, x2: int, y2: int, w: int)
    requires
        0 <= x < w,
        0 <= x2 < w,
        0 <= y,
        0 <= y2,
        x != x2 || y != y2,
    ensures
        y * w + x != y2 * w + x2,
{
    if y == y2 {
    } else if y < y2 {
        assert(y * w + x < y2 * w + x2) by (nonlinear_arith)
            requires
                y < y2,
                0 <= x < w,
                0 <= x2,
        ;
    } else {
        assert(y * w + x > y2 * w + x2) by (nonlinear_arith)
            requires
                y > y2,
                0 <= x2 < w,
                0 <= x,
        ;
    }
}

pub proof fn lemma_split_index(i: int, w: int, h: int)
    requires
        0 <= i < w * h,
        0 <= w,
        0 <= h,
    ensures
        w > 0,
        0 <= i % w < w,
        0 <= i / w < h,
        (i / w) * w + i % w == i,
{
    assert(w > 0) by (nonlinear_arith)
        requires
            0 <= i < w * h,
            0 <= w,
            0 <= h,
    ;
    assert(i / w < h) by (nonlinear_arith)
        requires
            0 <= i < w * h,
            w > 0,
    ;
    assert((i / w) * w + i % w == i) by (nonlinear_arith)
        requires
            w > 0,
    ;
}

/// The alpha that a sample's coverage gives: the coverage times 255,
/// rounded to the nearest integer.
pub open spec fn coverage_alpha(s: Sample) -> u8 {
    if s.den == 0 {
        0
    } else {
        ((510 * s.num as int + s.den as int) / (2 * s.den as int)) as u8
    }
}

fn coverage_alpha_exec(s: Sample) -> (a: u8)
    ensures
        a == coverage_alpha(s),
{
    if s.den == 0 {
        0
    } else {
        let num: u128 = s.num as u128;
        let den: u128 = s.den as u128;
        assert(num <= u64::MAX && den <= u64::MAX);
        let t: u128 = 510 * num + den;
        (t / (2 * den)) as u8
    }
}

/// The colours of a `w` by `h` grid after painting the samples in order:
/// each one inside the grid becomes black with the alpha of its coverage;
/// those outside are passed over.
pub open spec fn paint(pix: Seq<Rgba>, w: int, h: int, s: Seq<Sample>) -> Seq<Rgba>
    decreases s.len(),
{
    if s.len() == 0 {
        pix
    } else {
        let p = paint(pix, w, h, s.drop_last());
        let l = s.last();
        if l.x < w && l.y < h {
            p.update(l.y * w + l.x, Rgba(pack(0, 0, 0, coverage_alpha(l))))
        } else {
            p
        }
    }
}

impl Buffer {
    pub open spec fn wf(&self) -> bool {
        self.inner@.len() == self.width * self.height
    }

    /// The colour at column `x` of row `y`.
    pub open spec fn at(&self, x: int, y: int) -> Rgba {
        self.inner@[y * self.width + x]
    }

    /// What blitting `image` at (`left`, `top`) leaves at column `x` of row
    /// `y`: the blend of the image's colour over the old one where the image
    /// covers the pixel with an alpha other than 0, else the old colour.
    pub open spec fn blit_at(&self, image: &RgbaImage, left: int, top: int, x: int, y: int) -> Rgba {
        if left <= x < left + image.width && top <= y < top + image.height && image.pixel(
            x - left,
            y - top,
        ).alpha() != 0 {
            Rgba::blended(self.at(x, y), image.pixel(x - left, y - top))
        } else {
            self.at(x, y)
        }
    }

    /// All colours after blitting `image` at (`left`, `top`).
    pub open spec fn blit(&self, image: &RgbaImage, left: int, top: int) -> Seq<Rgba> {
        Seq::new(
            self.inner@.len(),
            |i: int| self.blit_at(image, left, top, i % self.width as int, i / self.width as int),
        )
    }

    /// A buffer of `width` by `height` opaque black pixels.
    pub fn new(width: usize, height: usize) -> (b: Buffer)
        requires
            width * height <= usize::MAX,
        ensures
            b.wf(),
            b.width == width,
            b.height == height,
            b.inner@ == Seq::new((width * height) as nat, |i: int| black_spec()),
    {
        let n = width * height;
        let black = Rgba::black();
        let mut inner: Vec<Rgba> = Vec::with_capacity(n);
        let mut i: usize = 0;
        while i < n
            invariant
                i <= n,
                inner@ =~= Seq::new(i as nat, |j: int| black_spec()),
                black == black_spec(),
            decreases n - i,
        {
            inner.push(black);
            i = i + 1;
        }
        Buffer { width, height, inner }
    }

    pub fn get(&self, at: (usize, usize)) -> (c: Rgba)
        requires
            self.wf(),
            at.0 < self.width,
            at.1 < self.height,
        ensures
            c == self.at(at.0 as int, at.1 as int),
    {
        let (x, y) = at;
        let len = self.inner.len();
        proof {
            lemma_index_in_grid(x as int, y as int, self.width as int, self.height as int);
            assert(y * self.width <= y * self.width + x);
        }
        self.inner[y * self.width + x]
    }

    pub fn get_mut(&mut self, at: (usize, usize)) -> (c: &mut Rgba)
        requires
            old(self).wf(),
            at.0 < old(self).width,
            at.1 < old(self).height,
        ensures
            *c == old(self).at(at.0 as int, at.1 as int),
            final(self).width == old(self).width,
            final(self).height == old(self).height,
            final(self).inner@ == old(self).inner@.update(
                at.1 * old(self).width + at.0,
                *final(c),
            ),
    {
        let (x, y) = at;
        let len = self.inner.len();
        proof {
            lemma_index_in_grid(x as int, y as int, self.width as int, self.height as int);
            assert(y * self.width <= y * self.width + x);
        }
        let w = self.width;
        &mut self.inner[y * w + x]
    }

    pub fn set(&mut self, at: (usize, usize), new: Rgba)
        requires
            old(self).wf(),
            at.0 < old(self).width,
            at.1 < old(self).height,
        ensures
            final(self).wf(),
            final(self).width == old(self).width,
            final(self).height == old(self).height,
            final(self).inner@ == old(self).inner@.update(at.1 * old(self).width + at.0, new),
    {
        proof {
            lemma_index_in_grid(at.0 as int, at.1 as int, self.width as int, self.height as int);
        }
        *self.get_mut(at) = new;
    }

    /// Blends `image` onto the buffer with its top left at (`left`, `top`);
    /// pixels of the image with alpha 0 leave the buffer as it is.
    pub fn image_one_minus_src(&mut self, image: &RgbaImage, at: (usize, usize))
        requires
            old(self).wf(),
            image.wf(),
            at.0 + image.width <= old(self).width,
            at.1 + image.height <= old(self).height,
        ensures
            final(self).wf(),
            final(self).width == old(self).width,
            final(self).height == old(self).height,
            final(self).inner@ == old(self).blit(image, at.0 as int, at.1 as int),
    {
        let (left, top) = at;
        let ghost before = *self;
        let mut y: usize = 0;
        while y < image.height
            invariant
                self.wf(),
                image.wf(),
                self.width == before.width,
                self.height == before.height,
                left + image.width <= self.width,
                top + image.height <= self.height,
                y <= image.height,
                forall|px: int, py: int|
                    0 <= px < self.width && 0 <= py < self.height ==> #[trigger] self.at(px, py)
                        == if top <= py < top + y {
                        before.blit_at(image, left as int, top as int, px, py)
                    } else {
                        before.at(px, py)
                    },
            decreases image.height - y,
        {
            let mut x: usize = 0;
            while x < image.width
                invariant
                    self.wf(),
                    image.wf(),
                    self.width == before.width,
                    self.height == before.height,
                    left + image.width <= self.width,
                    top + image.height <= self.height,
                    y < image.height,
                    x <= image.width,
                    forall|px: int, py: int|
                        0 <= px < self.width && 0 <= py < self.height ==> #[trigger] self.at(px, py)
                            == if top <= py < top + y || (py == top + y && left <= px < left + x) {
                            before.blit_at(image, left as int, top as int, px, py)
                        } else {
                            before.at(px, py)
                        },
                decreases image.width - x,
            {
                let src = image.get((x, y));
                if src.a() != 0 {
                    let dst = self.get((x + left, y + top));
                    let ghost mid = *self;
                    self.set((x + left, y + top), dst.blend_one_minus_src(&src));
                    proof {
                        assert forall|px: int, py: int|
                            0 <= px < self.width && 0 <= py < self.height implies #[trigger] self.at(
                            px,
                            py,
                        ) == if (px == x + left && py == y + top) {
                            Rgba::blended(mid.at(px, py), src)
                        } else {
                            mid.at(px, py)
                        } by {
                            lemma_index_in_grid(px, py, self.width as int, self.height as int);
                            if px != x + left || py != y + top {
                                lemma_index_distinct(
                                    px,
                                    py,
                                    (x + left) as int,
                                    (y + top) as int,
                                    self.width as int,
                                );
                                lemma_index_in_grid(
                                    (x + left) as int,
                                    (y + top) as int,
                                    self.width as int,
                                    self.height as int,
                                );
                                assert(self.at(px, py) == mid.at(px, py));
                            } else {
                                assert(self.at(px, py) == Rgba::blended(dst, src));
                            }
                        }
                    }
                }
                x = x + 1;
            }
            y = y + 1;
        }
        proof {
            assert forall|i: int| 0 <= i < self.inner@.len() implies self.inner@[i] == before.blit(
                image,
                left as int,
                top as int,
            )[i] by {
                lemma_split_index(i, self.width as int, self.height as int);
                assert(self.at(i % self.width as int, i / self.width as int) == self.inner@[i]);
            }
            assert(self.inner@ =~= before.blit(image, left as int, top as int));
        }
    }
}

impl Buffer {
    /// Draws the anti-aliased line between two pixels in black, each pixel's
    /// alpha its coverage; pixels that fall outside the buffer are passed over.
    pub fn draw_line(&mut self, from: (usize, usize), to: (usize, usize))
        requires
            old(self).wf(),
            from.0 <= u32::MAX,
            from.1 <= u32::MAX,
            to.0 <= u32::MAX,
            to.1 <= u32::MAX,
        ensures
            final(self).wf(),
            final(self).width == old(self).width,
            final(self).height == old(self).height,
            final(self).inner@ == paint(
                old(self).inner@,
                old(self).width as int,
                old(self).height as int,
                line_samples((from.0 as u32, from.1 as u32), (to.0 as u32, to.1 as u32), 1),
            ),
    {
        let start: Point = (from.0 as u32, from.1 as u32);
        let end: Point = (to.0 as u32, to.1 as u32);
        let samples = xiaolin_wu(start, end, 1);
        let ghost before = *self;
        let mut i: usize = 0;
        while i < samples.len()
            invariant
                self.wf(),
                self.width == before.width,
                self.height == before.height,
                i <= samples@.len(),
                self.inner@ == paint(
                    before.inner@,
                    before.width as int,
                    before.height as int,
                    samples@.take(i as int),
                ),
            decreases samples@.len() - i,
        {
            let s = samples[i];
            if (s.x as u128) < (self.width as u128) && (s.y as u128) < (self.height as u128) {
                self.set((s.x as usize, s.y as usize), Rgba::grey(0, coverage_alpha_exec(s)));
            }
            proof {
                assert(samples@.take(i + 1).drop_last() =~= samples@.take(i as int));
            }
            i = i + 1;
        }
        proof {
            assert(samples@.take(i as int) =~= samples@);
        }
    }
}

/// A laid-out glyph: the top left corner of its pixel box, relative to the
/// text's origin, and which pixels of the box, row by row, it covers.
pub struct GlyphMask {
    pub min_x: i32,
    pub min_y: i32,
    pub width: usize,
    pub height: usize,
    pub covered: Vec<bool>,
}

/// Why text could not be drawn.
#[derive(Copy, Clone, PartialEq, Eq, Structural, Debug)]
pub enum DrawError {
    /// A glyph's box starts left of or above the text's origin.
    NegativeOffset,
}

#[verifier::external_type_specification]
#[verifier::external_body]
pub struct ExCastError(cast::Error);

/// Relies on `cast::usize` from `i32`: the same value where it is not
/// negative, else an error.
#[verifier::external_body]
fn usize_of_i32(x: i32) -> (r: Result<usize, cast::Error>)
    ensures
        r is Ok <==> x >= 0,
        r matches Ok(v) ==> v == x,
{
    cast::usize(x)
}

impl GlyphMask {
    pub open spec fn wf(&self) -> bool {
        self.covered@.len() == self.width * self.height
    }

    /// Whether the pixel at column `gx` of row `gy` of the box is covered.
    pub open spec fn covers(&self, gx: int, gy: int) -> bool {
        0 <= gx < self.width && 0 <= gy < self.height && self.covered@[gy * self.width + gx]
    }

    /// Whether the glyph, drawn at (`left`, `top`), covers pixel (`x`, `y`).
    pub open spec fn covers_at(&self, left: int, top: int, x: int, y: int) -> bool {
        self.covers(x - left - self.min_x, y - top - self.min_y)
    }
}

/// Whether the glyph, if there is one, covers (`x`, `y`) when drawn at
/// (`left`, `top`).
pub open spec fn glyph_covers_at(o: Option<GlyphMask>, left: int, top: int, x: int, y: int) -> bool {
    match o {
        Some(g) => g.covers_at(left, top, x, y),
        None => false,
    }
}

/// Whether one of the glyphs, drawn at (`left`, `top`), covers (`x`, `y`).
pub open spec fn stamped(glyphs: Seq<Option<GlyphMask>>, left: int, top: int, x: int, y: int) -> bool {
    exists|k: int| 0 <= k < glyphs.len() && #[trigger] glyph_covers_at(glyphs[k], left, top, x, y)
}

/// Whether there is a glyph whose box starts left of or above the origin.
pub open spec fn glyph_misplaced(o: Option<GlyphMask>) -> bool {
    match o {
        Some(g) => g.min_x < 0 || g.min_y < 0,
        None => false,
    }
}

/// Whether a glyph's box starts left of or above the text's origin.
pub open spec fn misplaced(glyphs: Seq<Option<GlyphMask>>) -> bool {
    exists|k: int| 0 <= k < glyphs.len() && #[trigger] glyph_misplaced(glyphs[k])
}

pub open spec fn glyph_wf(o: Option<GlyphMask>) -> bool {
    match o {
        Some(g) => g.wf(),
        None => true,
    }
}

/// Whether every pixel that the glyph covers, drawn at (`left`, `top`),
/// lies inside a `w` by `h` grid.
pub open spec fn glyph_fits(o: Option<GlyphMask>, left: int, top: int, w: int, h: int) -> bool {
    match o {
        Some(g) => g.min_x >= 0 && g.min_y >= 0 ==> forall|gx: int, gy: int|
            #[trigger] g.covers(gx, gy) ==> left + g.min_x + gx < w && top + g.min_y + gy < h,
        None => true,
    }
}

impl Buffer {
    /// Paints black each pixel that `g` covers, its box's corner at
    /// (`left + mx`, `top + my`).
    fn stamp_glyph(&mut self, g: &GlyphMask, left: usize, top: usize, mx: usize, my: usize)
        requires
            old(self).wf(),
            g.wf(),
            forall|gx: int, gy: int|
                #[trigger] g.covers(gx, gy) ==> left + mx + gx < old(self).width && top + my + gy
                    < old(self).height,
        ensures
            final(self).wf(),
            final(self).width == old(self).width,
            final(self).height == old(self).height,
            forall|x: int, y: int|
                0 <= x < old(self).width && 0 <= y < old(self).height ==> #[trigger] final(self).at(
                    x,
                    y,
                ) == if g.covers(x - left - mx, y - top - my) {
                    black_spec()
                } else {
                    old(self).at(x, y)
                },
    {
        let ghost before = *self;
        let n = g.covered.len();
        let black = Rgba::black();
        let ghost ox = left + mx;
        let ghost oy = top + my;
        let mut gy: usize = 0;
        while gy < g.height
            invariant
                self.wf(),
                g.wf(),
                self.width == before.width,
                self.height == before.height,
                black == black_spec(),
                ox == left + mx,
                oy == top + my,
                gy <= g.height,
                n == g.covered@.len(),
                forall|gx: int, gy: int|
                    #[trigger] g.covers(gx, gy) ==> left + mx + gx < before.width && top + my + gy
                        < before.height,
                forall|x: int, y: int|
                    0 <= x < self.width && 0 <= y < self.height ==> #[trigger] self.at(x, y) == if g.covers(
                        x - ox,
                        y - oy,
                    ) && y - oy < gy {
                        black_spec()
                    } else {
                        before.at(x, y)
                    },
            decreases g.height - gy,
        {
            let mut gx: usize = 0;
            while gx < g.width
                invariant
                    self.wf(),
                    g.wf(),
                    self.width == before.width,
                    self.height == before.height,
                    black == black_spec(),
                    ox == left + mx,
                    oy == top + my,
                    gy < g.height,
                    gx <= g.width,
                    n == g.covered@.len(),
                    forall|gx: int, gy: int|
                        #[trigger] g.covers(gx, gy) ==> left + mx + gx < before.width && top + my
                            + gy < before.height,
                    forall|x: int, y: int|
                        0 <= x < self.width && 0 <= y < self.height ==> #[trigger] self.at(x, y)
                            == if g.covers(x - ox, y - oy) && (y - oy < gy || (y - oy == gy && x
                            - ox < gx)) {
                            black_spec()
                        } else {
                            before.at(x, y)
                        },
                decreases g.width - gx,
            {
                proof {
                    lemma_index_in_grid(gx as int, gy as int, g.width as int, g.height as int);
                    assert(gy * g.width <= gy * g.width + gx);
                }
                if g.covered[gy * g.width + gx] {
                    proof {
                        assert(g.covers(gx as int, gy as int));
                    }
                    let x = left + mx + gx;
                    let y = top + my + gy;
                    let ghost mid = *self;
                    self.set((x, y), black);
                    proof {
                        lemma_index_in_grid(x as int, y as int, self.width as int, self.height as int);
                        assert forall|px: int, py: int|
                            0 <= px < self.width && 0 <= py < self.height implies #[trigger] self.at(
                            px,
                            py,
                        ) == if px == x && py == y {
                            black_spec()
                        } else {
                            mid.at(px, py)
                        } by {
                            lemma_index_in_grid(px, py, self.width as int, self.height as int);
                            if px != x || py != y {
                                lemma_index_distinct(px, py, x as int, y as int, self.width as int);
                            }
                        }
                    }
                }
                gx = gx + 1;
            }
            gy = gy + 1;
        }
    }

    /// Draws laid-out glyphs in opaque black with the text's origin at `at`;
    /// a missing glyph (one with no pixel box) is passed over. Where a glyph's
    /// box starts left of or above the origin nothing is drawn.
    pub fn draw_text(&mut self, glyphs: &Vec<Option<GlyphMask>>, at: (usize, usize)) -> (r: Result<
        (),
        DrawError,
    >)
        requires
            old(self).wf(),
            forall|k: int| 0 <= k < glyphs@.len() ==> #[trigger] glyph_wf(glyphs@[k]),
            forall|k: int|
                0 <= k < glyphs@.len() ==> #[trigger] glyph_fits(
                    glyphs@[k],
                    at.0 as int,
                    at.1 as int,
                    old(self).width as int,
                    old(self).height as int,
                ),
        ensures
            final(self).wf(),
            final(self).width == old(self).width,
            final(self).height == old(self).height,
            r is Err <==> misplaced(glyphs@),
            r is Err ==> r == Err::<(), DrawError>(DrawError::NegativeOffset) && final(self).inner@
                == old(self).inner@,
            r is Ok ==> forall|x: int, y: int|
                0 <= x < old(self).width && 0 <= y < old(self).height ==> #[trigger] final(self).at(
                    x,
                    y,
                ) == if stamped(glyphs@, at.0 as int, at.1 as int, x, y) {
                    black_spec()
                } else {
                    old(self).at(x, y)
                },
    {
        let (left, top) = at;
        let mut k: usize = 0;
        while k < glyphs.len()
            invariant
                *self == *old(self),
                self.wf(),
                k <= glyphs@.len(),
                forall|j: int| 0 <= j < k ==> !#[trigger] glyph_misplaced(glyphs@[j]),
            decreases glyphs@.len() - k,
        {
            match &glyphs[k] {
                Some(g) => {
                    let bad = match (usize_of_i32(g.min_x), usize_of_i32(g.min_y)) {
                        (Ok(_), Ok(_)) => false,
                        _ => true,
                    };
                    if bad {
                        proof {
                            assert(glyph_misplaced(glyphs@[k as int]));
                        }
                        return Err(DrawError::NegativeOffset);
                    }
                },
                None => {},
            }
            k = k + 1;
        }
        let ghost before = *self;
        let ghost gs = glyphs@;
        let mut k: usize = 0;
        while k < glyphs.len()
            invariant
                self.wf(),
                self.width == before.width,
                self.height == before.height,
                gs == glyphs@,
                k <= gs.len(),
                !misplaced(gs),
                forall|j: int| 0 <= j < gs.len() ==> #[trigger] glyph_wf(gs[j]),
                forall|j: int|
                    0 <= j < gs.len() ==> #[trigger] glyph_fits(
                        gs[j],
                        left as int,
                        top as int,
                        before.width as int,
                        before.height as int,
                    ),
                forall|x: int, y: int|
                    0 <= x < self.width && 0 <= y < self.height ==> #[trigger] self.at(x, y) == if stamped(
                        gs.take(k as int),
                        left as int,
                        top as int,
                        x,
                        y,
                    ) {
                        black_spec()
                    } else {
                        before.at(x, y)
                    },
            decreases gs.len() - k,
        {
            let ghost mid = *self;
            match &glyphs[k] {
                Some(g) => {
                    proof {
                        assert(glyph_wf(gs[k as int]));
                        assert(glyph_fits(
                            gs[k as int],
                            left as int,
                            top as int,
                            before.width as int,
                            before.height as int,
                        ));
                        assert(!glyph_misplaced(gs[k as int]));
                    }
                    match (usize_of_i32(g.min_x), usize_of_i32(g.min_y)) {
                        (Ok(mx), Ok(my)) => {
                            self.stamp_glyph(g, left, top, mx, my);
                        },
                        _ => {},
                    }
                },
                None => {},
            }
            proof {
                assert forall|x: int, y: int|
                    0 <= x < self.width && 0 <= y < self.height implies #[trigger] self.at(x, y)
                        == if stamped(gs.take(k + 1), left as int, top as int, x, y) {
                        black_spec()
                    } else {
                        before.at(x, y)
                    } by {
                    let here = glyph_covers_at(gs[k as int], left as int, top as int, x, y);
                    assert(gs.take(k + 1)[k as int] == gs[k as int]);
                    if stamped(gs.take(k as int), left as int, top as int, x, y) {
                        let j = choose|j: int|
                            0 <= j < k && #[trigger] glyph_covers_at(
                                gs.take(k as int)[j],
                                left as int,
                                top as int,
                                x,
                                y,
                            );
                        assert(gs.take(k + 1)[j] == gs.take(k as int)[j]);
                    } else if here {
                    } else {
                        assert forall|j: int| 0 <= j < k + 1 implies !#[trigger] glyph_covers_at(
                            gs.take(k + 1)[j],
                            left as int,
                            top as int,
                            x,
                            y,
                        ) by {
                            if j < k {
                                assert(gs.take(k + 1)[j] == gs.take(k as int)[j]);
                            }
                        }
                    }
                }
            }
            k = k + 1;
        }
        proof {
            assert(gs.take(k as int) =~= gs);
        }
        Ok(())
    }
}

/// The settings of a display: its title, its size in pixels, whether the
/// window may be resized, and the most frames a second to present.
pub struct NartOptions {
    pub name: String,
    pub width: usize,
    pub height: usize,
    pub resize: bool,
    pub frame_cap: usize,
}

impl Default for NartOptions {
    fn default() -> (o: NartOptions)
        ensures
            o.name@ == "nart"@,
            o.width == 640,
            o.height == 480,
            !o.resize,
            o.frame_cap == 60,
    {
        NartOptions {
            name: "nart".to_owned(),
            width: 640,
            height: 480,
            resize: false,
            frame_cap: 60,
        }
    }
}

/// Why a display could not be set up.
#[derive(Copy, Clone, PartialEq, Eq, Structural, Debug)]
pub enum ConfigError {
    /// The frame cap is 0 or above 1000, so that no whole number of
    /// milliseconds, at least 1, lies between frames.
    FrameCap,
}

/// Relies on `cast::u32` from `usize`: the same value where it fits in a
/// `u32`, else an error.
#[verifier::external_body]
fn u32_of_usize(x: usize) -> (r: Result<u32, cast::Error>)
    ensures
        r is Ok <==> x <= u32::MAX,
        r matches Ok(v) ==> v == x,
{
    cast::u32(x)
}

/// The state of a display: the buffer drawn into, the size that the
/// window last reported, and the least time between frames.
pub struct Nart {
    pub buffer: Buffer,
    pub last_size: (usize, usize),
    pub frame_ms: u32,
}

/// The pause before a frame is presented, in milliseconds, where
/// `secs` and `ms` have passed since the last one and frames stand at least
/// `frame_ms` apart.
pub open spec fn frame_delay(frame_ms: u32, secs: u64, ms: u32) -> u32 {
    if secs == 0 && ms < frame_ms {
        (frame_ms - ms) as u32
    } else {
        0
    }
}

impl Nart {
    pub open spec fn wf(&self) -> bool {
        &&& self.buffer.wf()
        &&& self.buffer.width == self.last_size.0
        &&& self.buffer.height == self.last_size.1
        &&& 1 <= self.frame_ms <= 1000
    }

    /// A display state with an opaque black buffer of the configured size.
    pub fn new(options: &NartOptions) -> (r: Result<Nart, ConfigError>)
        requires
            options.width * options.height <= usize::MAX,
        ensures
            r is Err <==> options.frame_cap == 0 || options.frame_cap > 1000,
            r is Err ==> r == Err::<Nart, ConfigError>(ConfigError::FrameCap),
            r matches Ok(n) ==> {
                &&& n.wf()
                &&& n.last_size == (options.width, options.height)
                &&& n.frame_ms == 1000int / options.frame_cap as int
                &&& n.buffer.inner@ == Seq::new(
                    (options.width * options.height) as nat,
                    |i: int| black_spec(),
                )
            },
    {
        if options.frame_cap == 0 || options.frame_cap > 1000 {
            return Err(ConfigError::FrameCap);
        }
        proof {
            let c = options.frame_cap as int;
            assert(1 <= 1000int / c <= 1000) by (nonlinear_arith)
                requires
                    1 <= c <= 1000,
            ;
        }
        let frame_ms = match u32_of_usize(1000 / options.frame_cap) {
            Ok(v) => v,
            Err(_) => {
                return Err(ConfigError::FrameCap);
            },
        };
        Ok(
            Nart {
                buffer: Buffer::new(options.width, options.height),
                last_size: (options.width, options.height),
                frame_ms,
            },
        )
    }

    /// The buffer to draw the next frame into, at `size`, the size that the
    /// window reports now. At the size of the last frame it is the same
    /// buffer, its pixels kept; at another size, a new opaque black one.
    pub fn buffer(&mut self, size: (usize, usize)) -> (b: &mut Buffer)
        requires
            old(self).wf(),
            size.0 * size.1 <= usize::MAX,
        ensures
            b.wf(),
            b.width == size.0,
            b.height == size.1,
            size == old(self).last_size ==> *b == old(self).buffer,
            size != old(self).last_size ==> b.inner@ == Seq::new(
                (size.0 * size.1) as nat,
                |i: int| black_spec(),
            ),
            final(self).buffer == *final(b),
            final(self).last_size == size,
            final(self).frame_ms == old(self).frame_ms,
    {
        if size.0 != self.last_size.0 || size.1 != self.last_size.1 {
            self.last_size = size;
            self.buffer = Buffer::new(size.0, size.1);
        }
        &mut self.buffer
    }

    /// How long to wait, in milliseconds, before presenting a frame, where
    /// `secs` whole seconds and `ms` more milliseconds have passed since the
    /// last one.
    pub fn frame(&self, secs: u64, ms: u32) -> (d: u32)
        ensures
            d == frame_delay(self.frame_ms, secs, ms),
    {
        if secs == 0 && ms < self.frame_ms {
            self.frame_ms - ms
        } else {
            0
        }
    }

    /// The buffer's pixels as packed words, in the buffer's order, as a
    /// display takes them.
    pub fn update_now(&self) -> (words: Vec<u32>)
        ensures
            words@ == self.buffer.inner@.map_values(|c: Rgba| c.0),
    {
        let n = self.buffer.inner.len();
        let mut words: Vec<u32> = Vec::with_capacity(n);
        let mut i: usize = 0;
        while i < n
            invariant
                n == self.buffer.inner@.len(),
                i <= n,
                words@ =~= self.buffer.inner@.map_values(|c: Rgba| c.0).take(i as int),
            decreases n - i,
        {
            words.push(self.buffer.inner[i].packed());
            i = i + 1;
        }
        proof {
            assert(self.buffer.inner@.map_values(|c: Rgba| c.0).take(n as int) =~= self.buffer.inner@.map_values(
                |c: Rgba| c.0,
            ));
        }
        words
    }
}

/// Blitting an image whose every pixel has alpha 0 leaves every pixel of
/// the buffer as it was.
pub proof fn lemma_transparent_blit(b: Buffer, image: RgbaImage, left: int, top: int)
    requires
        b.wf(),
        image.wf(),
        forall|x: int, y: int|
            0 <= x < image.width && 0 <= y < image.height ==> (#[trigger] image.pixel(x, y)).alpha()
                == 0,
    ensures
        b.blit(&image, left, top) == b.inner@,
{
    assert forall|i: int| 0 <= i < b.inner@.len() implies b.blit(&image, left, top)[i]
        == b.inner@[i] by {
        lemma_split_index(i, b.width as int, b.height as int);
    }
    assert(b.blit(&image, left, top) =~= b.inner@);
}

} // verus!
