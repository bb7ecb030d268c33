//! Colours and the blending of ink onto a pixel.

use vstd::prelude::*;

verus! {

/// A colour with its opacity, each channel from 0 to 255.
#[derive(Clone, Copy, Debug, PartialEq, Eq, Structural)]
pub struct Rgba {
    pub r: u8,
    pub g: u8,
    pub b: u8,
    pub a: u8,
}

/// One channel of `ink` laid over `under` with opacity `alpha` out of 255.
pub open spec fn mixed(under: int, ink: int, alpha: int) -> int {
    (ink * alpha + under * (255 - alpha)) / 255
}

/// The opacity, out of 255, with which ink of opacity `ink_alpha` lands on a
/// pixel that it covers to the degree `coverage`.
pub open spec fn opacity(ink_alpha: int, coverage: int) -> int {
    (ink_alpha * coverage) / 255
}

/// The colour that results where `ink` covers a pixel of colour `under` to the
/// degree `coverage` out of 255.
pub open spec fn blended(under: Rgba, ink: Rgba, coverage: u8) -> Rgba {
    let alpha = opacity(ink.a as int, coverage as int);
    Rgba {
        r: mixed(under.r as int, ink.r as int, alpha) as u8,
        g: mixed(under.g as int, ink.g as int, alpha) as u8,
        b: mixed(under.b as int, ink.b as int, alpha) as u8,
        a: mixed(under.a as int, 255, alpha) as u8,
    }
}

proof fn lemma_opacity_bound(ink_alpha: int, coverage: int)
    requires
        0 <= ink_alpha <= 255,
        0 <= coverage <= 255,
    ensures
        0 <= ink_alpha * coverage <= 255 * 255,
        0 <= opacity(ink_alpha, coverage) <= 255,
{
    assert(0 <= ink_alpha * coverage <= 255 * 255) by (nonlinear_arith)
        requires
            0 <= ink_alpha <= 255,
            0 <= coverage <= 255,
    ;
}

proof fn lemma_mixed_bound(under: int, ink: int, alpha: int)
    requires
        0 <= under <= 255,
        0 <= ink <= 255,
        0 <= alpha <= 255,
    ensures
        0 <= ink * alpha <= 255 * 255,
        0 <= under * (255 - alpha) <= 255 * 255,
        0 <= ink * alpha + under * (255 - alpha) <= 255 * 255,
        0 <= mixed(under, ink, alpha) <= 255,
{
    assert(0 <= ink * alpha <= 255 * alpha) by (nonlinear_arith)
        requires
            0 <= ink <= 255,
            0 <= alpha <= 255,
    ;
    assert(0 <= under * (255 - alpha) <= 255 * (255 - alpha)) by (nonlinear_arith)
        requires
            0 <= under <= 255,
            0 <= alpha <= 255,
    ;
}

/// Ink that does not cover a pixel leaves it as it was, and so does ink
/// without opacity.
pub proof fn lemma_blended_transparent(under: Rgba, ink: Rgba, coverage: u8)
    requires
        coverage == 0 || ink.a == 0,
    ensures
        blended(under, ink, coverage) == under,
{
    assert(ink.a as int * coverage as int == 0) by (nonlinear_arith)
        requires
            coverage == 0 || ink.a == 0,
    ;
    assert(opacity(ink.a as int, coverage as int) == 0);
    assert(forall|u: int, i: int| 0 <= u <= 255 ==> #[trigger] mixed(u, i, 0) == u) by {
        assert forall|u: int, i: int| 0 <= u <= 255 implies #[trigger] mixed(u, i, 0) == u by {
            assert(i * 0 + u * (255 - 0) == u * 255) by (nonlinear_arith);
        }
    }
}

/// Opaque ink that covers a pixel fully replaces its colour.
pub proof fn lemma_blended_opaque(under: Rgba, ink: Rgba)
    requires
        ink.a == 255,
    ensures
        blended(under, ink, 255) == ink,
{
    assert(opacity(255, 255) == 255);
    assert(forall|u: int, i: int| 0 <= i <= 255 ==> #[trigger] mixed(u, i, 255) == i) by {
        assert forall|u: int, i: int| 0 <= i <= 255 implies #[trigger] mixed(u, i, 255) == i by {
            assert(i * 255 + u * (255 - 255) == i * 255) by (nonlinear_arith);
        }
    }
}

fn mix(under: u8, ink: u8, alpha: u32) -> (c: u8)
    requires
        alpha <= 255,
    ensures
        c == mixed(under as int, ink as int, alpha as int),
{
    proof {
        lemma_mixed_bound(under as int, ink as int, alpha as int);
    }
    let top: u32 = ink as u32 * alpha;
    let bottom: u32 = under as u32 * (255 - alpha);
    ((top + bottom) / 255) as u8
}

impl Rgba {
    /// The colour with the given channels.
    pub fn new(r: u8, g: u8, b: u8, a: u8) -> (c: Rgba)
        ensures
            c == (Rgba { r, g, b, a }),
    {
        Rgba { r, g, b, a }
    }

    /// Black without opacity: the colour of a pixel that nothing was drawn on.
    pub open spec fn blank() -> Rgba {
        Rgba { r: 0, g: 0, b: 0, a: 0 }
    }

    /// Black without opacity.
    pub fn clear() -> (c: Rgba)
        ensures
            c == Rgba::blank(),
    {
        Rgba { r: 0, g: 0, b: 0, a: 0 }
    }

    /// The colour of a pixel of this colour after `ink` covered it to the
    /// degree `coverage`.
    pub fn blend(&self, ink: Rgba, coverage: u8) -> (c: Rgba)
        ensures
            c == blended(*self, ink, coverage),
    {
        proof {
            lemma_opacity_bound(ink.a as int, coverage as int);
        }
        let alpha: u32 = (ink.a as u32 * coverage as u32) / 255;
        Rgba {
            r: mix(self.r, ink.r, alpha),
            g: mix(self.g, ink.g, alpha),
            b: mix(self.b, ink.b, alpha),
            a: mix(self.a, 255, alpha),
        }
    }
}

} // verus!
