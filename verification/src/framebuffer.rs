//! The pixel buffers of the display: the live picture, and the background
//! that is kept beside it so that drawn pixels can be taken back.
//!
//! Pixels are stored row by row. Pixel `i` of a buffer of width `w` lies in
//! column `i % w` of row `i / w`.

use crate::geometry::Rect;
use crate::pixel::{blended, Rgba};
use vstd::arithmetic::div_mod::{lemma_fundamental_div_mod, lemma_fundamental_div_mod_converse};
use vstd::prelude::*;

verus! {

/// Number of pixels in a rectangle.
pub open spec fn cells(rect: Rect) -> int {
    if rect.vacant() {
        0
    } else {
        (rect.right - rect.left) * (rect.bottom - rect.top)
    }
}

/// Pixel `i` of a buffer of the given width lies in `rect`.
pub open spec fn lies_in(rect: Rect, width: int, i: int) -> bool {
    rect.covers(i % width, i / width)
}

/// A decoded picture: `width * height` pixels, row by row.
pub struct Image {
    pub width: usize,
    pub height: usize,
    pub pixels: Vec<Rgba>,
}

/// What a font made of a text: the rectangle of the display that the glyphs
/// occupy and, row by row, how far each pixel of it is covered by ink (0 not
/// at all, 255 fully).
pub struct Raster {
    pub rect: Rect,
    pub coverage: Vec<u8>,
}

impl Image {
    /// The picture has as many pixels as its size says.
    pub open spec fn valid(&self) -> bool {
        self.pixels.len() == self.width * self.height
    }

    /// The rectangle that the picture fills when its top left pixel is put on
    /// the top left pixel of the display.
    pub open spec fn area(&self) -> Rect {
        Rect { left: 0, top: 0, right: self.width, bottom: self.height }
    }

    /// The pixel in column `x` of row `y` of the picture.
    pub open spec fn at(&self, x: int, y: int) -> Rgba {
        self.pixels@[y * self.width + x]
    }

    /// Whether the picture has as many pixels as its size says.
    pub fn is_valid(&self) -> (ok: bool)
        ensures
            ok == self.valid(),
    {
        match self.width.checked_mul(self.height) {
            Some(count) => self.pixels.len() == count,
            None => false,
        }
    }
}

impl Raster {
    /// There is one coverage value for each pixel of the rectangle.
    pub open spec fn valid(&self) -> bool {
        self.coverage.len() == cells(self.rect)
    }

    /// Coverage of the display pixel in column `x` of row `y`.
    pub open spec fn at(&self, x: int, y: int) -> u8 {
        self.coverage@[(y - self.rect.top) * (self.rect.right - self.rect.left) + (x
            - self.rect.left)]
    }

    /// Whether there is one coverage value for each pixel of the rectangle.
    pub fn is_valid(&self) -> (ok: bool)
        ensures
            ok == self.valid(),
    {
        if self.rect.is_empty() {
            self.coverage.len() == 0
        } else {
            let wide: usize = self.rect.right - self.rect.left;
            let tall: usize = self.rect.bottom - self.rect.top;
            match wide.checked_mul(tall) {
                Some(count) => self.coverage.len() == count,
                None => false,
            }
        }
    }
}

/// `live` after the pixels of `rect` were taken back from `base`.
pub open spec fn restored(live: Seq<Rgba>, base: Seq<Rgba>, width: int, rect: Rect) -> Seq<Rgba> {
    Seq::new(
        live.len(),
        |i: int|
            if lies_in(rect, width, i) {
                base[i]
            } else {
                live[i]
            },
    )
}

/// `live` after `ink` was laid on the pixels of the raster's rectangle, each
/// to the degree that the raster gives for it.
pub open spec fn painted(live: Seq<Rgba>, width: int, raster: Raster, ink: Rgba) -> Seq<Rgba> {
    Seq::new(
        live.len(),
        |i: int|
            if lies_in(raster.rect, width, i) {
                blended(live[i], ink, raster.at(i % width, i / width))
            } else {
                live[i]
            },
    )
}

/// `pixels` after the picture was copied onto them, top left on top left.
pub open spec fn overlaid(pixels: Seq<Rgba>, width: int, image: Image) -> Seq<Rgba> {
    Seq::new(
        pixels.len(),
        |i: int|
            if lies_in(image.area(), width, i) {
                image.at(i % width, i / width)
            } else {
                pixels[i]
            },
    )
}

/// The pixels of `rect`, row by row, out of a buffer that holds all of them.
pub open spec fn cut_out(pixels: Seq<Rgba>, width: int, rect: Rect) -> Seq<Rgba> {
    Seq::new(
        cells(rect) as nat,
        |j: int|
            pixels[(rect.top + j / (rect.right - rect.left)) * width + rect.left + j % (rect.right
                - rect.left)],
    )
}

/// The pixel in column `x` of row `y` of a grid `w` wide and `h` high has an
/// index of its own below `w * h`.
pub proof fn lemma_cell(x: int, y: int, w: int, h: int)
    requires
        0 <= x < w,
        0 <= y < h,
    ensures
        0 <= y * w <= y * w + x < w * h,
        (y * w + x) / w == y,
        (y * w + x) % w == x,
{
    lemma_fundamental_div_mod_converse(y * w + x, w, y, x);
    assert(0 <= y * w && y * w + w <= w * h) by (nonlinear_arith)
        requires
            0 <= y < h,
            0 < w,
    ;
}

/// Index `i` below `w * h` names a column below `w` and a row below `h`.
pub proof fn lemma_index(i: int, w: int, h: int)
    requires
        0 <= i < w * h,
        0 <= w,
        0 <= h,
    ensures
        0 < w,
        0 <= i % w < w,
        0 <= i / w < h,
        i == (i / w) * w + i % w,
{
    assert(w != 0) by (nonlinear_arith)
        requires
            0 <= i < w * h,
    ;
    lemma_fundamental_div_mod(i, w);
    assert(0 <= i / w < h) by (nonlinear_arith)
        requires
            0 <= i < w * h,
            0 < w,
            i == w * (i / w) + i % w,
            0 <= i % w < w,
    ;
    assert(w * (i / w) == (i / w) * w) by (nonlinear_arith);
}

/// The live picture of the display and the background kept beside it, both
/// `width * height` pixels.
pub struct Framebuffer {
    width: usize,
    height: usize,
    live: Vec<Rgba>,
    base: Vec<Rgba>,
}

impl Framebuffer {
    /// Width of the display in pixels.
    pub closed spec fn columns(&self) -> nat {
        self.width as nat
    }

    /// Height of the display in pixels.
    pub closed spec fn rows(&self) -> nat {
        self.height as nat
    }

    /// The picture as it is to be shown, row by row.
    pub closed spec fn live_pixels(&self) -> Seq<Rgba> {
        self.live@
    }

    /// The background, row by row.
    pub closed spec fn base_pixels(&self) -> Seq<Rgba> {
        self.base@
    }

    /// Both buffers have one pixel for each cell of the display.
    pub open spec fn wf(&self) -> bool {
        &&& self.columns() <= usize::MAX
        &&& self.rows() <= usize::MAX
        &&& self.live_pixels().len() == self.columns() * self.rows()
        &&& self.base_pixels().len() == self.columns() * self.rows()
    }

    /// The rectangle of the whole display.
    pub open spec fn bounds(&self) -> Rect {
        Rect { left: 0, top: 0, right: self.columns() as usize, bottom: self.rows() as usize }
    }

    /// A display of the given size with every pixel blank, or `None` where
    /// the number of pixels is beyond `usize::MAX`.
    pub fn new(width: usize, height: usize) -> (made: Option<Framebuffer>)
        ensures
            made.is_some() <==> width * height <= usize::MAX,
            made matches Some(fb) ==> {
                &&& fb.wf()
                &&& fb.columns() == width
                &&& fb.rows() == height
                &&& fb.live_pixels() == Seq::new((width * height) as nat, |i: int| Rgba::blank())
                &&& fb.base_pixels() == fb.live_pixels()
            },
    {
        let count: usize = match width.checked_mul(height) {
            Some(count) => count,
            None => {
                return None;
            },
        };
        let mut live: Vec<Rgba> = Vec::new();
        let mut base: Vec<Rgba> = Vec::new();
        let mut i: usize = 0;
        while i < count
            invariant
                i <= count,
                live@ == Seq::new(i as nat, |k: int| Rgba::blank()),
                base@ == live@,
            decreases count - i,
        {
            live.push(Rgba::clear());
            base.push(Rgba::clear());
            i = i + 1;
            assert(live@ =~= Seq::new(i as nat, |k: int| Rgba::blank()));
            assert(base@ =~= live@);
        }
        Some(Framebuffer { width, height, live, base })
    }

    /// Width of the display in pixels.
    pub fn width(&self) -> (w: usize)
        ensures
            w == self.columns(),
    {
        self.width
    }

    /// Height of the display in pixels.
    pub fn height(&self) -> (h: usize)
        ensures
            h == self.rows(),
    {
        self.height
    }

    /// The rectangle of the whole display.
    pub fn area(&self) -> (r: Rect)
        ensures
            r == self.bounds(),
    {
        Rect { left: 0, top: 0, right: self.width, bottom: self.height }
    }

    /// The live pixel in column `x` of row `y`, if the display has it.
    pub fn pixel(&self, x: usize, y: usize) -> (p: Option<Rgba>)
        requires
            self.wf(),
        ensures
            p.is_some() <==> x < self.columns() && y < self.rows(),
            p matches Some(c) ==> c == self.live_pixels()[y * self.columns() + x],
    {
        if x < self.width && y < self.height {
            proof {
                lemma_cell(x as int, y as int, self.width as int, self.height as int);
                assert(self.live.len() == self.width as int * self.height as int);
            }
            Some(self.live[y * self.width + x])
        } else {
            None
        }
    }

    /// The background pixel in column `x` of row `y`, if the display has it.
    pub fn base_pixel(&self, x: usize, y: usize) -> (p: Option<Rgba>)
        requires
            self.wf(),
        ensures
            p.is_some() <==> x < self.columns() && y < self.rows(),
            p matches Some(c) ==> c == self.base_pixels()[y * self.columns() + x],
    {
        if x < self.width && y < self.height {
            proof {
                lemma_cell(x as int, y as int, self.width as int, self.height as int);
                assert(self.base.len() == self.width as int * self.height as int);
            }
            Some(self.base[y * self.width + x])
        } else {
            None
        }
    }

    /// Takes the pixels of `rect` back from the background. Pixels outside
    /// `rect`, and the background itself, stay as they are.
    pub fn restore(&mut self, rect: Rect)
        requires
            old(self).wf(),
        ensures
            final(self).wf(),
            final(self).columns() == old(self).columns(),
            final(self).rows() == old(self).rows(),
            final(self).base_pixels() == old(self).base_pixels(),
            final(self).live_pixels() == restored(
                old(self).live_pixels(),
                old(self).base_pixels(),
                old(self).columns() as int,
                rect,
            ),
    {
        let clip = rect.intersect(&self.area());
        let ghost before = self.live@;
        let ghost w = self.width as int;
        let ghost h = self.height as int;
        if clip.is_empty() {
            proof {
                assert forall|i: int| 0 <= i < before.len() implies !lies_in(rect, w, i) by {
                    lemma_index(i, w, h);
                }
                assert(self.live@ =~= restored(before, self.base@, w, rect));
            }
            return ;
        }
        let mut y: usize = clip.top;
        while y < clip.bottom
            invariant
                clip == rect.common(old(self).bounds()),
                !clip.vacant(),
                clip.top <= y <= clip.bottom,
                w == self.width == old(self).width,
                h == self.height == old(self).height,
                self.base@ == old(self).base@,
                self.live.len() == w * h,
                self.base.len() == w * h,
                before.len() == w * h,
                forall|i: int|
                    0 <= i < w * h ==> #[trigger] self.live@[i] == if lies_in(rect, w, i) && i / w
                        < y {
                        self.base@[i]
                    } else {
                        before[i]
                    },
            decreases clip.bottom - y,
        {
            let mut x: usize = clip.left;
            while x < clip.right
                invariant
                    clip == rect.common(old(self).bounds()),
                    !clip.vacant(),
                    clip.top <= y < clip.bottom,
                    clip.left <= x <= clip.right,
                    w == self.width == old(self).width,
                    h == self.height == old(self).height,
                    self.base@ == old(self).base@,
                    self.live.len() == w * h,
                    self.base.len() == w * h,
                    before.len() == w * h,
                    forall|i: int|
                        0 <= i < w * h ==> #[trigger] self.live@[i] == if lies_in(rect, w, i) && (i
                            / w < y || (i / w == y && i % w < x)) {
                            self.base@[i]
                        } else {
                            before[i]
                        },
                decreases clip.right - x,
            {
                proof {
                    lemma_cell(x as int, y as int, w, h);
                }
                let idx: usize = y * self.width + x;
                let ghost prior = self.live@;
                let p = self.base[idx];
                self.live.set(idx, p);
                proof {
                    assert forall|i: int| 0 <= i < w * h implies #[trigger] self.live@[i] == if lies_in(
                        rect,
                        w,
                        i,
                    ) && (i / w < y || (i / w == y && i % w < x + 1)) {
                        self.base@[i]
                    } else {
                        before[i]
                    } by {
                        lemma_index(i, w, h);
                        if i != idx {
                            assert(self.live@[i] == prior[i]);
                        }
                    }
                }
                x = x + 1;
            }
            proof {
                assert forall|i: int| 0 <= i < w * h implies #[trigger] self.live@[i] == if lies_in(
                    rect,
                    w,
                    i,
                ) && i / w < y + 1 {
                    self.base@[i]
                } else {
                    before[i]
                } by {
                    lemma_index(i, w, h);
                }
            }
            y = y + 1;
        }
        proof {
            assert forall|i: int| 0 <= i < w * h implies self.live@[i] == restored(
                before,
                self.base@,
                w,
                rect,
            )[i] by {
                lemma_index(i, w, h);
            }
            assert(self.live@ =~= restored(before, self.base@, w, rect));
        }
    }
}

impl Framebuffer {
    /// Lays `ink` on the display where the raster says, each pixel to the
    /// degree that the raster gives for it; what of the raster lies beyond
    /// the display is left out. A raster that is not valid is refused and
    /// changes nothing.
    pub fn paint(&mut self, raster: &Raster, ink: Rgba) -> (done: bool)
        requires
            old(self).wf(),
        ensures
            final(self).wf(),
            final(self).columns() == old(self).columns(),
            final(self).rows() == old(self).rows(),
            final(self).base_pixels() == old(self).base_pixels(),
            done == raster.valid(),
            done ==> final(self).live_pixels() == painted(
                old(self).live_pixels(),
                old(self).columns() as int,
                *raster,
                ink,
            ),
            !done ==> final(self).live_pixels() == old(self).live_pixels(),
    {
        if !raster.is_valid() {
            return false;
        }
        let rect = raster.rect;
        let clip = rect.intersect(&self.area());
        let ghost before = self.live@;
        let ghost w = self.width as int;
        let ghost h = self.height as int;
        if clip.is_empty() {
            proof {
                assert forall|i: int| 0 <= i < before.len() implies !lies_in(rect, w, i) by {
                    lemma_index(i, w, h);
                }
                assert(self.live@ =~= painted(before, w, *raster, ink));
            }
            return true;
        }
        let wide: usize = rect.right - rect.left;
        let ghost tall = rect.bottom - rect.top;
        let mut y: usize = clip.top;
        while y < clip.bottom
            invariant
                rect == raster.rect,
                raster.valid(),
                clip == rect.common(old(self).bounds()),
                !clip.vacant(),
                clip.top <= y <= clip.bottom,
                wide == rect.right - rect.left,
                tall == rect.bottom - rect.top,
                w == self.width == old(self).width,
                h == self.height == old(self).height,
                self.base@ == old(self).base@,
                self.live.len() == w * h,
                self.base.len() == w * h,
                before.len() == w * h,
                forall|i: int|
                    0 <= i < w * h ==> #[trigger] self.live@[i] == if lies_in(rect, w, i) && i / w
                        < y {
                        blended(before[i], ink, raster.at(i % w, i / w))
                    } else {
                        before[i]
                    },
            decreases clip.bottom - y,
        {
            let mut x: usize = clip.left;
            while x < clip.right
                invariant
                    rect == raster.rect,
                    raster.valid(),
                    clip == rect.common(old(self).bounds()),
                    !clip.vacant(),
                    clip.top <= y < clip.bottom,
                    clip.left <= x <= clip.right,
                    wide == rect.right - rect.left,
                    tall == rect.bottom - rect.top,
                    w == self.width == old(self).width,
                    h == self.height == old(self).height,
                    self.base@ == old(self).base@,
                    self.live.len() == w * h,
                    self.base.len() == w * h,
                    before.len() == w * h,
                    forall|i: int|
                        0 <= i < w * h ==> #[trigger] self.live@[i] == if lies_in(rect, w, i) && (i
                            / w < y || (i / w == y && i % w < x)) {
                            blended(before[i], ink, raster.at(i % w, i / w))
                        } else {
                            before[i]
                        },
                decreases clip.right - x,
            {
                proof {
                    lemma_cell(x as int, y as int, w, h);
                    lemma_cell(x - rect.left, y - rect.top, wide as int, tall);
                }
                let idx: usize = y * self.width + x;
                let at: usize = (y - rect.top) * wide + (x - rect.left);
                let ghost prior = self.live@;
                assert(prior[idx as int] == before[idx as int]);
                let p = self.live[idx].blend(ink, raster.coverage[at]);
                self.live.set(idx, p);
                proof {
                    assert forall|i: int| 0 <= i < w * h implies #[trigger] self.live@[i] == if lies_in(
                        rect,
                        w,
                        i,
                    ) && (i / w < y || (i / w == y && i % w < x + 1)) {
                        blended(before[i], ink, raster.at(i % w, i / w))
                    } else {
                        before[i]
                    } by {
                        lemma_index(i, w, h);
                        if i != idx {
                            assert(self.live@[i] == prior[i]);
                        }
                    }
                }
                x = x + 1;
            }
            proof {
                assert forall|i: int| 0 <= i < w * h implies #[trigger] self.live@[i] == if lies_in(
                    rect,
                    w,
                    i,
                ) && i / w < y + 1 {
                    blended(before[i], ink, raster.at(i % w, i / w))
                } else {
                    before[i]
                } by {
                    lemma_index(i, w, h);
                }
            }
            y = y + 1;
        }
        proof {
            assert forall|i: int| 0 <= i < w * h implies self.live@[i] == painted(
                before,
                w,
                *raster,
                ink,
            )[i] by {
                lemma_index(i, w, h);
            }
            assert(self.live@ =~= painted(before, w, *raster, ink));
        }
        true
    }

    /// Copies a picture onto the background and onto the live picture, its
    /// top left pixel on that of the display; what of the picture lies
    /// beyond the display is left out. Returns the rectangle that was filled,
    /// or `None`, changing nothing, for a picture that is not valid.
    pub fn install(&mut self, image: &Image) -> (filled: Option<Rect>)
        requires
            old(self).wf(),
        ensures
            final(self).wf(),
            final(self).columns() == old(self).columns(),
            final(self).rows() == old(self).rows(),
            filled.is_some() == image.valid(),
            filled matches Some(rect) ==> {
                &&& rect == image.area().common(old(self).bounds())
                &&& final(self).base_pixels() == overlaid(
                    old(self).base_pixels(),
                    old(self).columns() as int,
                    *image,
                )
                &&& final(self).live_pixels() == overlaid(
                    old(self).live_pixels(),
                    old(self).columns() as int,
                    *image,
                )
            },
            filled.is_none() ==> final(self).base_pixels() == old(self).base_pixels()
                && final(self).live_pixels() == old(self).live_pixels(),
    {
        if !image.is_valid() {
            return None;
        }
        let rect = Rect { left: 0, top: 0, right: image.width, bottom: image.height };
        let clip = rect.intersect(&self.area());
        let ghost live_before = self.live@;
        let ghost base_before = self.base@;
        let ghost w = self.width as int;
        let ghost h = self.height as int;
        if clip.is_empty() {
            proof {
                assert forall|i: int| 0 <= i < w * h implies !lies_in(rect, w, i) by {
                    lemma_index(i, w, h);
                }
                assert(self.live@ =~= overlaid(live_before, w, *image));
                assert(self.base@ =~= overlaid(base_before, w, *image));
            }
            return Some(clip);
        }
        let mut y: usize = clip.top;
        while y < clip.bottom
            invariant
                rect == image.area(),
                image.valid(),
                clip == rect.common(old(self).bounds()),
                !clip.vacant(),
                clip.top <= y <= clip.bottom,
                w == self.width == old(self).width,
                h == self.height == old(self).height,
                self.live.len() == w * h,
                self.base.len() == w * h,
                live_before.len() == w * h,
                base_before.len() == w * h,
                forall|i: int|
                    0 <= i < w * h ==> #[trigger] self.live@[i] == if lies_in(rect, w, i) && i / w
                        < y {
                        image.at(i % w, i / w)
                    } else {
                        live_before[i]
                    },
                forall|i: int|
                    0 <= i < w * h ==> #[trigger] self.base@[i] == if lies_in(rect, w, i) && i / w
                        < y {
                        image.at(i % w, i / w)
                    } else {
                        base_before[i]
                    },
            decreases clip.bottom - y,
        {
            let mut x: usize = clip.left;
            while x < clip.right
                invariant
                    rect == image.area(),
                    image.valid(),
                    clip == rect.common(old(self).bounds()),
                    !clip.vacant(),
                    clip.top <= y < clip.bottom,
                    clip.left <= x <= clip.right,
                    w == self.width == old(self).width,
                    h == self.height == old(self).height,
                    self.live.len() == w * h,
                    self.base.len() == w * h,
                    live_before.len() == w * h,
                    base_before.len() == w * h,
                    forall|i: int|
                        0 <= i < w * h ==> #[trigger] self.live@[i] == if lies_in(rect, w, i) && (i
                            / w < y || (i / w == y && i % w < x)) {
                            image.at(i % w, i / w)
                        } else {
                            live_before[i]
                        },
                    forall|i: int|
                        0 <= i < w * h ==> #[trigger] self.base@[i] == if lies_in(rect, w, i) && (i
                            / w < y || (i / w == y && i % w < x)) {
                            image.at(i % w, i / w)
                        } else {
                            base_before[i]
                        },
                decreases clip.right - x,
            {
                proof {
                    lemma_cell(x as int, y as int, w, h);
                    lemma_cell(x as int, y as int, image.width as int, image.height as int);
                }
                let idx: usize = y * self.width + x;
                let from: usize = y * image.width + x;
                let ghost live_prior = self.live@;
                let ghost base_prior = self.base@;
                let p = image.pixels[from];
                self.live.set(idx, p);
                self.base.set(idx, p);
                proof {
                    assert forall|i: int| 0 <= i < w * h implies #[trigger] self.live@[i] == if lies_in(
                        rect,
                        w,
                        i,
                    ) && (i / w < y || (i / w == y && i % w < x + 1)) {
                        image.at(i % w, i / w)
                    } else {
                        live_before[i]
                    } by {
                        lemma_index(i, w, h);
                        if i != idx {
                            assert(self.live@[i] == live_prior[i]);
                        }
                    }
                    assert forall|i: int| 0 <= i < w * h implies #[trigger] self.base@[i] == if lies_in(
                        rect,
                        w,
                        i,
                    ) && (i / w < y || (i / w == y && i % w < x + 1)) {
                        image.at(i % w, i / w)
                    } else {
                        base_before[i]
                    } by {
                        lemma_index(i, w, h);
                        if i != idx {
                            assert(self.base@[i] == base_prior[i]);
                        }
                    }
                }
                x = x + 1;
            }
            proof {
                assert forall|i: int| 0 <= i < w * h implies #[trigger] self.live@[i] == if lies_in(
                    rect,
                    w,
                    i,
                ) && i / w < y + 1 {
                    image.at(i % w, i / w)
                } else {
                    live_before[i]
                } by {
                    lemma_index(i, w, h);
                }
                assert forall|i: int| 0 <= i < w * h implies #[trigger] self.base@[i] == if lies_in(
                    rect,
                    w,
                    i,
                ) && i / w < y + 1 {
                    image.at(i % w, i / w)
                } else {
                    base_before[i]
                } by {
                    lemma_index(i, w, h);
                }
            }
            y = y + 1;
        }
        proof {
            assert forall|i: int| 0 <= i < w * h implies self.live@[i] == overlaid(
                live_before,
                w,
                *image,
            )[i] && self.base@[i] == overlaid(base_before, w, *image)[i] by {
                lemma_index(i, w, h);
            }
            assert(self.live@ =~= overlaid(live_before, w, *image));
            assert(self.base@ =~= overlaid(base_before, w, *image));
        }
        Some(clip)
    }

    /// The live pixels of the part of `rect` that lies on the display, row by
    /// row: what is sent to the device for that rectangle.
    pub fn region(&self, rect: Rect) -> (out: Vec<Rgba>)
        requires
            self.wf(),
        ensures
            out@ == cut_out(
                self.live_pixels(),
                self.columns() as int,
                rect.common(self.bounds()),
            ),
    {
        let clip = rect.intersect(&self.area());
        let mut out: Vec<Rgba> = Vec::new();
        let ghost w = self.width as int;
        let ghost h = self.height as int;
        if clip.is_empty() {
            assert(out@ =~= cut_out(self.live@, w, clip));
            return out;
        }
        let ghost cw = clip.right - clip.left;
        let ghost ch = clip.bottom - clip.top;
        let mut y: usize = clip.top;
        while y < clip.bottom
            invariant
                clip == rect.common(self.bounds()),
                !clip.vacant(),
                clip.top <= y <= clip.bottom,
                cw == clip.right - clip.left,
                ch == clip.bottom - clip.top,
                w == self.width,
                h == self.height,
                self.live.len() == w * h,
                out.len() == (y - clip.top) * cw,
                forall|j: int|
                    0 <= j < out.len() ==> #[trigger] out@[j] == self.live@[(clip.top + j / cw) * w
                        + clip.left + j % cw],
            decreases clip.bottom - y,
        {
            let mut x: usize = clip.left;
            while x < clip.right
                invariant
                    clip == rect.common(self.bounds()),
                    !clip.vacant(),
                    clip.top <= y < clip.bottom,
                    clip.left <= x <= clip.right,
                    cw == clip.right - clip.left,
                    ch == clip.bottom - clip.top,
                    w == self.width,
                    h == self.height,
                    self.live.len() == w * h,
                    out.len() == (y - clip.top) * cw + (x - clip.left),
                    forall|j: int|
                        0 <= j < out.len() ==> #[trigger] out@[j] == self.live@[(clip.top + j / cw)
                            * w + clip.left + j % cw],
                decreases clip.right - x,
            {
                proof {
                    lemma_cell(x as int, y as int, w, h);
                    lemma_cell(x - clip.left, y - clip.top, cw, ch);
                }
                let ghost prior = out@;
                out.push(self.live[y * self.width + x]);
                proof {
                    assert forall|j: int| 0 <= j < out.len() implies #[trigger] out@[j]
                        == self.live@[(clip.top + j / cw) * w + clip.left + j % cw] by {
                        if j < prior.len() {
                            assert(out@[j] == prior[j]);
                        }
                    }
                }
                x = x + 1;
            }
            proof {
                assert((y + 1 - clip.top) * cw == (y - clip.top) * cw + cw) by (nonlinear_arith);
            }
            y = y + 1;
        }
        proof {
            assert(out.len() == ch * cw);
            assert(ch * cw == cw * ch) by (nonlinear_arith);
            assert(out@ =~= cut_out(self.live@, w, clip));
        }
        out
    }
}

} // verus!
