use vstd::prelude::*;

verus! {

/// A colour packed into one 32-bit word: red in byte 0, green in byte 1,
/// blue in byte 2 and alpha in byte 3.
#[derive(Copy, Clone, PartialEq, Eq, Structural, Hash, Debug)]
pub struct Rgba(pub u32);

/// The word that holds the four channels at their byte offsets.
pub open spec fn pack(r: u8, g: u8, b: u8, a: u8) -> u32 {
    (r as int + g as int * 0x100 + b as int * 0x1_0000 + a as int * 0x100_0000) as u32
}

/// The byte of `w` at offset `i` (0 to 3).
pub open spec fn byte_of(w: u32, i: nat) -> u8 {
    ((w as int / pow256(i)) % 0x100) as u8
}

pub open spec fn pow256(i: nat) -> int
    decreases i,
{
    if i == 0 {
        1
    } else {
        0x100 * pow256((i - 1) as nat)
    }
}

/// `(1 - a / 256) * c`, rounded down: what remains of channel `c` under a
/// source of alpha `a`.
pub open spec fn one_minus_a_spec(a: u8, c: u8) -> u8 {
    ((256 - a as int) * c as int / 256) as u8
}

/// A destination channel `d` under a source channel `s` of alpha `a`,
/// modulo 256.
pub open spec fn blend_channel(a: u8, s: u8, d: u8) -> u8 {
    ((s as int + one_minus_a_spec(a, d) as int) % 256) as u8
}

impl Rgba {
    pub open spec fn red(self) -> u8 {
        byte_of(self.0, 0)
    }

    pub open spec fn green(self) -> u8 {
        byte_of(self.0, 1)
    }

    pub open spec fn blue(self) -> u8 {
        byte_of(self.0, 2)
    }

    pub open spec fn alpha(self) -> u8 {
        byte_of(self.0, 3)
    }

    /// The colour that `blend_one_minus_src` makes of `dst` under `src`.
    pub open spec fn blended(dst: Rgba, src: Rgba) -> Rgba {
        Rgba(
            pack(
                blend_channel(src.alpha(), src.red(), dst.red()),
                blend_channel(src.alpha(), src.green(), dst.green()),
                blend_channel(src.alpha(), src.blue(), dst.blue()),
                dst.alpha(),
            ),
        )
    }

    pub fn from_u8s(r: u8, g: u8, b: u8, a: u8) -> (c: Rgba)
        ensures
            c.0 == pack(r, g, b, a),
            c.red() == r,
            c.green() == g,
            c.blue() == b,
            c.alpha() == a,
    {
        proof {
            lemma_pack_bytes(r, g, b, a);
        }
        Rgba((r as u32) + (g as u32) * 0x100 + (b as u32) * 0x1_0000 + (a as u32) * 0x100_0000)
    }

    pub fn from_packed(val: u32) -> (c: Rgba)
        ensures
            c.0 == val,
    {
        Rgba(val)
    }

    pub fn grey(luma: u8, alpha: u8) -> (c: Rgba)
        ensures
            c.0 == pack(luma, luma, luma, alpha),
            c.red() == luma,
            c.green() == luma,
            c.blue() == luma,
            c.alpha() == alpha,
    {
        Rgba::from_u8s(luma, luma, luma, alpha)
    }

    pub fn black() -> (c: Rgba)
        ensures
            c.0 == pack(0, 0, 0, 255),
            c.red() == 0,
            c.green() == 0,
            c.blue() == 0,
            c.alpha() == 255,
    {
        Rgba::from_u8s(0, 0, 0, 255)
    }

    pub fn packed(&self) -> (w: u32)
        ensures
            w == self.0,
    {
        self.0
    }

    pub fn r(&self) -> (v: u8)
        ensures
            v == self.red(),
    {
        let w = self.0;
        proof {
            lemma_byte_shift(w);
        }
        w as u8
    }

    pub fn g(&self) -> (v: u8)
        ensures
            v == self.green(),
    {
        let w = self.0;
        proof {
            lemma_byte_shift(w);
        }
        (w >> 8u32) as u8
    }

    pub fn b(&self) -> (v: u8)
        ensures
            v == self.blue(),
    {
        let w = self.0;
        proof {
            lemma_byte_shift(w);
        }
        (w >> 16u32) as u8
    }

    pub fn a(&self) -> (v: u8)
        ensures
            v == self.alpha(),
    {
        let w = self.0;
        proof {
            lemma_byte_shift(w);
        }
        (w >> 24u32) as u8
    }

    /// Blends `src` over `self`: each colour channel becomes
    /// `src + (1 - src.alpha / 256) * self`, rounded down and taken modulo 256;
    /// alpha stays that of `self`.
    pub fn blend_one_minus_src(&self, src: &Rgba) -> (c: Rgba)
        ensures
            c == Rgba::blended(*self, *src),
    {
        let sa = src.a();
        let r = blend_add(src.r(), one_minus_a(sa, self.r()));
        let g = blend_add(src.g(), one_minus_a(sa, self.g()));
        let b = blend_add(src.b(), one_minus_a(sa, self.b()));
        Rgba::from_u8s(r, g, b, self.a())
    }
}

fn blend_add(s: u8, t: u8) -> (v: u8)
    ensures
        v == ((s as int + t as int) % 256) as u8,
{
    ((s as u16 + t as u16) % 256) as u8
}

/// What remains of channel `c` under a source of alpha `a`:
/// `(1 - a / 256) * c`, rounded down.
pub fn one_minus_a(a: u8, c: u8) -> (v: u8)
    ensures
        v == one_minus_a_spec(a, c),
        v as int == (256 - a as int) * c as int / 256,
{
    let m: u32 = 256 - a as u32;
    proof {
        assert(m as int * c as int <= 256 * 255) by (nonlinear_arith)
            requires
                m <= 256,
                c <= 255,
        ;
    }
    let p: u32 = m * (c as u32);
    (p / 256) as u8
}

proof fn lemma_byte_shift(w: u32)
    ensures
        w as u8 == byte_of(w, 0),
        (w >> 8u32) as u8 == byte_of(w, 1),
        (w >> 16u32) as u8 == byte_of(w, 2),
        (w >> 24u32) as u8 == byte_of(w, 3),
{
    reveal_with_fuel(pow256, 4);
    assert(w as u8 == (w % 0x100) as u8) by (bit_vector);
    assert((w >> 8u32) as u8 == ((w / 0x100) % 0x100) as u8) by (bit_vector);
    assert((w >> 16u32) as u8 == ((w / 0x1_0000) % 0x100) as u8) by (bit_vector);
    assert((w >> 24u32) as u8 == ((w / 0x100_0000) % 0x100) as u8) by (bit_vector);
}

proof fn lemma_pack_bytes(r: u8, g: u8, b: u8, a: u8)
    ensures
        r as int + g as int * 0x100 + b as int * 0x1_0000 + a as int * 0x100_0000 <= 0xffff_ffff,
        byte_of(pack(r, g, b, a), 0) == r,
        byte_of(pack(r, g, b, a), 1) == g,
        byte_of(pack(r, g, b, a), 2) == b,
        byte_of(pack(r, g, b, a), 3) == a,
{
    reveal_with_fuel(pow256, 4);
    let w = r as int + g as int * 0x100 + b as int * 0x1_0000 + a as int * 0x100_0000;
    assert(pack(r, g, b, a) as int == w);
    assert(w % 0x100 == r as int) by (nonlinear_arith)
        requires w == r as int + 0x100 * (g as int + 0x100 * (b as int + 0x100 * a as int)),
            0 <= r < 0x100, 0 <= g, 0 <= b, 0 <= a;
    assert((w / 0x100) % 0x100 == g as int) by (nonlinear_arith)
        requires w == r as int + 0x100 * (g as int + 0x100 * (b as int + 0x100 * a as int)),
            0 <= r < 0x100, 0 <= g < 0x100, 0 <= b, 0 <= a;
    assert((w / 0x1_0000) % 0x100 == b as int) by (nonlinear_arith)
        requires w == (r as int + 0x100 * g as int) + 0x1_0000 * (b as int + 0x100 * a as int),
            0 <= r < 0x100, 0 <= g < 0x100, 0 <= b < 0x100, 0 <= a;
    assert(w / 0x100_0000 == a as int) by (nonlinear_arith)
        requires w == (r as int + 0x100 * g as int + 0x1_0000 * b as int) + 0x100_0000 * a as int,
            0 <= r < 0x100, 0 <= g < 0x100, 0 <= b < 0x100, 0 <= a < 0x100;
}

/// Packing four channels and reading the word back gives the same colour,
/// with the same four channels.
pub proof fn lemma_packed_round_trip(r: u8, g: u8, b: u8, a: u8)
    ensures
        Rgba(Rgba(pack(r, g, b, a)).0) == Rgba(pack(r, g, b, a)),
        Rgba(pack(r, g, b, a)).red() == r,
        Rgba(pack(r, g, b, a)).green() == g,
        Rgba(pack(r, g, b, a)).blue() == b,
        Rgba(pack(r, g, b, a)).alpha() == a,
{
    lemma_pack_bytes(r, g, b, a);
}

} // verus!
