use vstd::prelude::*;

verus! {

/// A packed 32-bit colour: alpha in bits 24..32, red in 16..24, green in 8..16, blue in 0..8.
#[derive(Clone, Copy, Debug)]
pub struct Color(pub u32);

/// The byte of `v` that starts at bit `shift`.
pub open spec fn channel(v: u32, shift: u32) -> u8 {
    ((v >> shift) & 0xFF) as u8
}

/// The packed value of the four channels.
pub open spec fn pack(r: u8, g: u8, b: u8, a: u8) -> u32 {
    ((a as u32) << 24) | ((r as u32) << 16) | ((g as u32) << 8) | (b as u32)
}

/// One channel mixed between `x` (weight `255 - t`) and `y` (weight `t`), scaled down by 256.
pub open spec fn mix(x: u8, y: u8, t: u8) -> u8 {
    ((x * (255 - t) + y * t) / 256) as u8
}

impl Color {
    pub open spec fn red(self) -> u8 { channel(self.0, 16) }
    pub open spec fn green(self) -> u8 { channel(self.0, 8) }
    pub open spec fn blue(self) -> u8 { channel(self.0, 0) }
    pub open spec fn alpha(self) -> u8 { channel(self.0, 24) }

    pub fn rgba(r: u8, g: u8, b: u8, a: u8) -> (res: Self)
        ensures
            res.0 == pack(r, g, b, a),
            res.red() == r,
            res.green() == g,
            res.blue() == b,
            res.alpha() == a,
    {
        let v: u32 = ((a as u32) << 24) | ((r as u32) << 16) | ((g as u32) << 8) | (b as u32);
        proof {
            assert(((v >> 16u32) & 0xFF) as u8 == r && ((v >> 8u32) & 0xFF) as u8 == g
                && ((v >> 0u32) & 0xFF) as u8 == b && ((v >> 24u32) & 0xFF) as u8 == a) by (bit_vector)
                requires v == ((a as u32) << 24) | ((r as u32) << 16) | ((g as u32) << 8) | (b as u32);
        }
        Color(v)
    }

    pub fn r(self) -> (res: u8)
        ensures res == self.red(),
    {
        ((self.0 >> 16) & 0xFF) as u8
    }

    pub fn g(self) -> (res: u8)
        ensures res == self.green(),
    {
        ((self.0 >> 8) & 0xFF) as u8
    }

    pub fn b(self) -> (res: u8)
        ensures res == self.blue(),
    {
        let v = self.0;
        proof { assert(v >> 0u32 == v) by (bit_vector); }
        (v & 0xFF) as u8
    }

    pub fn a(self) -> (res: u8)
        ensures res == self.alpha(),
    {
        ((self.0 >> 24) & 0xFF) as u8
    }

    /// Mixes each channel, alpha included, from `self` towards `other` by `t / 255`.
    pub fn lerp(self, other: Color, t: u8) -> (res: Color)
        ensures
            res.0 == pack(
                mix(self.red(), other.red(), t),
                mix(self.green(), other.green(), t),
                mix(self.blue(), other.blue(), t),
                mix(self.alpha(), other.alpha(), t),
            ),
            res.red() == mix(self.red(), other.red(), t),
            res.green() == mix(self.green(), other.green(), t),
            res.blue() == mix(self.blue(), other.blue(), t),
            res.alpha() == mix(self.alpha(), other.alpha(), t),
    {
        let t16 = t as u16;
        let inv = 255 - t16;
        let r = mix_channel(self.r(), other.r(), inv, t16);
        let g = mix_channel(self.g(), other.g(), inv, t16);
        let b = mix_channel(self.b(), other.b(), inv, t16);
        let a = mix_channel(self.a(), other.a(), inv, t16);
        Color::rgba(r, g, b, a)
    }

    /// Draws `self` over `dst` with `self`'s alpha; the result is opaque.
    pub fn alpha_blend(self, dst: Color) -> (res: Color)
        ensures
            res.0 == pack(
                mix(dst.red(), self.red(), self.alpha()),
                mix(dst.green(), self.green(), self.alpha()),
                mix(dst.blue(), self.blue(), self.alpha()),
                255,
            ),
            res.red() == mix(dst.red(), self.red(), self.alpha()),
            res.green() == mix(dst.green(), self.green(), self.alpha()),
            res.blue() == mix(dst.blue(), self.blue(), self.alpha()),
            res.alpha() == 255,
    {
        let a = self.a() as u16;
        let ia = 255 - a;
        let r = mix_channel(dst.r(), self.r(), ia, a);
        let g = mix_channel(dst.g(), self.g(), ia, a);
        let b = mix_channel(dst.b(), self.b(), ia, a);
        Color::rgba(r, g, b, 255)
    }
}

fn mix_channel(x: u8, y: u8, inv: u16, t: u16) -> (res: u8)
    requires
        t <= 255,
        inv == 255 - t,
    ensures
        res == mix(x, y, t as u8),
{
    proof {
        assert(x * inv <= 255 * inv) by (nonlinear_arith) requires x <= 255;
        assert(y * t <= 255 * t) by (nonlinear_arith) requires y <= 255;
    }
    let s: u16 = (x as u16) * inv + (y as u16) * t;
    proof {
        assert(s >> 8u16 == s / 256) by (bit_vector);
    }
    (s >> 8) as u8
}

/// The colours of the desktop theme, each with its packed value.
pub struct Palette;

impl Palette {
    #[verifier::allow_in_spec]
    pub fn bg_deep() -> Color
        returns Color(0xFF0A0A12u32),
    {
        Color(0xFF0A0A12u32)
    }
    #[verifier::allow_in_spec]
    pub fn bg_surface() -> Color
        returns Color(0xF010101Cu32),
    {
        Color(0xF010101Cu32)
    }
    #[verifier::allow_in_spec]
    pub fn bg_elevated() -> Color
        returns Color(0xE6161626u32),
    {
        Color(0xE6161626u32)
    }
    #[verifier::allow_in_spec]
    pub fn accent() -> Color
        returns Color(0xFF6366F1u32),
    {
        Color(0xFF6366F1u32)
    }
    #[verifier::allow_in_spec]
    pub fn accent_glow() -> Color
        returns Color(0x506366F1u32),
    {
        Color(0x506366F1u32)
    }
    #[verifier::allow_in_spec]
    pub fn accent_hover() -> Color
        returns Color(0xFF818CF8u32),
    {
        Color(0xFF818CF8u32)
    }
    #[verifier::allow_in_spec]
    pub fn text_primary() -> Color
        returns Color(0xFFF0F0FFu32),
    {
        Color(0xFFF0F0FFu32)
    }
    #[verifier::allow_in_spec]
    pub fn text_muted() -> Color
        returns Color(0xFF9494B4u32),
    {
        Color(0xFF9494B4u32)
    }
    #[verifier::allow_in_spec]
    pub fn text_dim() -> Color
        returns Color(0xFF50506Eu32),
    {
        Color(0xFF50506Eu32)
    }
    #[verifier::allow_in_spec]
    pub fn border() -> Color
        returns Color(0xC8282841u32),
    {
        Color(0xC8282841u32)
    }
    #[verifier::allow_in_spec]
    pub fn border_focus() -> Color
        returns Color(0xB46366F1u32),
    {
        Color(0xB46366F1u32)
    }
    #[verifier::allow_in_spec]
    pub fn danger() -> Color
        returns Color(0xFFEF4444u32),
    {
        Color(0xFFEF4444u32)
    }
    #[verifier::allow_in_spec]
    pub fn success() -> Color
        returns Color(0xFF22C55Eu32),
    {
        Color(0xFF22C55Eu32)
    }
    #[verifier::allow_in_spec]
    pub fn warning() -> Color
        returns Color(0xFFF59E0Bu32),
    {
        Color(0xFFF59E0Bu32)
    }
    #[verifier::allow_in_spec]
    pub fn glass() -> Color
        returns Color(0xC8121220u32),
    {
        Color(0xC8121220u32)
    }
    #[verifier::allow_in_spec]
    pub fn shadow() -> Color
        returns Color(0x78000000u32),
    {
        Color(0x78000000u32)
    }
}

} // verus!
